use blackjack_ev::card::Card;
use blackjack_ev::hand::{Cards, Hand, HandTotal};

#[test]
fn card_card_order() {
    let card1 = Card::Ace;
    let card2 = Card::N2;
    assert!(card1 > card2);
}

#[test]
fn test_total_value_no_ace() {
    let hand = Cards::new_from_strs(&vec!["2", "3", "T"]).to_hand();
    assert_eq!(hand, Hand::Hard(HandTotal::Value(15)));
}

#[test]
fn test_total_value_with_one_ace() {
    let cards = Cards::new_from_strs(&vec!["A", "9"]).to_hand();
    assert_eq!(cards, Hand::Soft(HandTotal::Value(20)));
}

#[test]
fn test_total_value_with_multiple_aces() {
    let cards = Cards::new_from_strs(&vec!["A", "A", "9"]).to_hand();
    assert_eq!(cards, Hand::Soft(HandTotal::Value(21)));
}

#[test]
fn test_total_value_with_bust_ace() {
    let cards = Cards::new_from_strs(&vec!["A", "A", "9", "T"]).to_hand();
    assert_eq!(cards, Hand::Hard(HandTotal::Value(21)));
}

#[test]
fn test_total_value_with_ace_adjustment() {
    let cards = Cards::new_from_strs(&vec!["A", "8", "T"]).to_hand();
    assert_eq!(cards, Hand::Hard(HandTotal::Value(19)));
}

#[test]
fn test_total_value_with_blackjack() {
    let cards = Cards::new_from_strs(&vec!["A", "T"]).to_hand();
    assert_eq!(cards, Hand::Soft(HandTotal::BlackJack));
    assert!(cards.is_blackjack());
}

#[test]
fn test_total_value_burst() {
    let cards = Cards::new_from_strs(&vec!["T", "T", "7"]).to_hand();
    assert_eq!(cards, Hand::Hard(HandTotal::Burst));
    assert!(cards.is_burst());
}

#[test]
fn test_to_hand_12() {
    let cards = Cards::new_from_strs(&vec!["A", "2"]).to_hand();
    assert_eq!(cards, Hand::Soft(HandTotal::Value(13)));
}

#[test]
fn test_eq() {
    assert_eq!(HandTotal::Value(10), HandTotal::Value(10));
    assert_ne!(HandTotal::Value(10), HandTotal::Value(11));
    assert_eq!(HandTotal::BlackJack, HandTotal::BlackJack);
    assert_ne!(HandTotal::BlackJack, HandTotal::Value(21));
}

#[test]
fn test_ord() {
    assert!(HandTotal::Value(10) < HandTotal::Value(11));
    assert!(HandTotal::Value(11) > HandTotal::Value(10));
    assert!(HandTotal::Value(10) <= HandTotal::Value(10));
    assert!(HandTotal::Value(10) >= HandTotal::Value(10));
    assert!(HandTotal::Value(21) < HandTotal::BlackJack);
    assert!(HandTotal::BlackJack > HandTotal::Value(21));
}

#[test]
fn test_hand_add_mut1() {
    let mut hand = Hand::Hard(HandTotal::Value(10));
    hand = hand.add(Card::Ace);
    assert_eq!(hand, Hand::Hard(HandTotal::Value(21)));
}

#[test]
fn test_hand_add_mut2() {
    let mut hand = Hand::Pair(Card::Ace);
    hand = hand.add(Card::Ace);
    assert_eq!(hand, Hand::Soft(HandTotal::Value(13)));
}

#[test]
fn test_hand_add_mut3() {
    let mut hand = Hand::Pair(Card::Ace);
    hand = hand.add(Card::N6);
    assert_eq!(hand, Hand::Soft(HandTotal::Value(18)));
}

#[test]
fn test_hand_add_mut4() {
    let mut hand = Hand::Pair(Card::Ace);
    hand = hand.add(Card::Face);
    assert_eq!(hand, Hand::Hard(HandTotal::Value(12)));
}

#[test]
fn test_cards_to_hand1() {
    let cards = Cards::new_from_strs(&vec!["A", "2", "3", "T"]).to_hand();
    assert_eq!(cards, Hand::Hard(HandTotal::Value(16)));
}

#[test]
fn test_cards_to_hand2() {
    let cards = Cards::new_from_strs(&vec!["A", "T"]).to_hand();
    assert_eq!(cards, Hand::Soft(HandTotal::BlackJack));
}

#[test]
fn test_cards_to_hand3() {
    let cards = Cards::new_from_strs(&vec!["A", "A", "A"]).to_hand();
    assert_eq!(cards, Hand::Soft(HandTotal::Value(13)));
}

#[test]
fn test_card_from_str_variants() {
    assert_eq!(Card::from_str("A"), Some(Card::Ace));
    assert_eq!(Card::from_str("1"), Some(Card::Ace));
    assert_eq!(Card::from_str("2"), Some(Card::N2));
    assert_eq!(Card::from_str("9"), Some(Card::N9));
    assert_eq!(Card::from_str("10"), Some(Card::Face));
    assert_eq!(Card::from_str("Face"), Some(Card::Face));
    assert_eq!(Card::from_str("T"), Some(Card::Face));
    assert_eq!(Card::from_str("J"), Some(Card::Face));
    assert_eq!(Card::from_str("Q"), Some(Card::Face));
    assert_eq!(Card::from_str("K"), Some(Card::Face));
    assert_eq!(Card::from_str("x"), None);
    assert_eq!(Card::from_str("11"), None);
    assert_eq!(Card::from_str(""), None);
}

#[test]
fn test_card_values() {
    assert_eq!(Card::Ace.value(), 11);
    assert_eq!(Card::N2.value(), 2);
    assert_eq!(Card::Face.value(), 10);
}
