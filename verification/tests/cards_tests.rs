use blackjack_ev::card::Card;
use blackjack_ev::hand::Cards;
use std::collections::BTreeSet;

#[test]
fn test_from_iter_empty() {
    let cards = Cards::from_vec(vec![]);
    assert_eq!(cards.cards.len(), 0);
}

#[test]
fn test_from_iter_single() {
    let cards = Cards::from_vec(vec![Card::Ace]);
    assert_eq!(cards.cards.len(), 1);
    assert_eq!(cards.cards[0], Card::Ace);
}

#[test]
fn test_from_iter_multiple() {
    let cards = Cards::from_vec(vec![Card::N2, Card::N3, Card::Face, Card::Ace]);
    assert_eq!(cards.cards.len(), 4);
    assert_eq!(cards.cards[0], Card::N2);
    assert_eq!(cards.cards[1], Card::N3);
    assert_eq!(cards.cards[2], Card::Face);
    assert_eq!(cards.cards[3], Card::Ace);
}

#[test]
fn test_from_smallvec_iter_multiple() {
    let cards = Cards::from_vec(vec![Card::N2, Card::N3, Card::Face, Card::Ace]);
    assert_eq!(cards.cards.len(), 4);
    assert_eq!(cards.cards[0], Card::N2);
    assert_eq!(cards.cards[1], Card::N3);
    assert_eq!(cards.cards[2], Card::Face);
    assert_eq!(cards.cards[3], Card::Ace);
}

#[test]
fn test_from_iter_with_duplicates() {
    let cards = Cards::from_vec(vec![Card::N5, Card::N5, Card::Face, Card::Face, Card::Ace]);
    assert_eq!(cards.cards.len(), 5);
    assert_eq!(cards.cards[0], Card::N5);
    assert_eq!(cards.cards[1], Card::N5);
    assert_eq!(cards.cards[2], Card::Face);
    assert_eq!(cards.cards[3], Card::Face);
    assert_eq!(cards.cards[4], Card::Ace);
}

#[test]
fn cards_card_order() {
    let card1 = Card::Ace;
    let card2 = Card::N2;
    assert!(card1 > card2);
}

#[test]
fn test_cards_ordering() {
    let cards1 = Cards::from_vec(vec![Card::Face, Card::N2]);
    let cards2 = Cards::from_vec(vec![Card::N9, Card::N3]);
    let cards3 = Cards::from_vec(vec![Card::N9, Card::N2, Card::Ace]);
    let cards4 = Cards::from_vec(vec![Card::N8, Card::N4]);
    let cards5 = Cards::from_vec(vec![Card::N8, Card::N3, Card::Ace]);
    let cards6 = Cards::from_vec(vec![Card::N8, Card::N2, Card::N2, Card::Ace]);
    let cards7 = Cards::from_vec(vec![Card::N7, Card::N2, Card::Ace, Card::Ace, Card::Ace]);

    assert!(cards1 > cards2);
    assert!(cards2 > cards3);
    assert!(cards3 > cards4);
    assert!(cards4 > cards5);
    assert!(cards5 > cards6);
    assert!(cards6 > cards7);

    let cards8 = Cards::from_vec(vec![Card::N9, Card::N3]);
    assert!(cards2 == cards8);
    assert!(cards2 != cards3);
}

#[test]
fn test_cards_btree_set() {
    let mut set = BTreeSet::new();
    let cards1 = Cards::from_vec(vec![Card::Face, Card::N2]);
    let cards2 = Cards::from_vec(vec![Card::N9, Card::N3]);
    let cards3 = Cards::from_vec(vec![Card::N9, Card::N2, Card::Ace]);
    let cards4 = Cards::from_vec(vec![Card::N8, Card::N4]);
    let cards5 = Cards::from_vec(vec![Card::N8, Card::N3, Card::Ace]);
    let cards6 = Cards::from_vec(vec![Card::N8, Card::N2, Card::N2, Card::Ace]);
    let cards7 = Cards::from_vec(vec![Card::N7, Card::N2, Card::Ace, Card::Ace, Card::Ace]);

    set.insert(cards1.clone());
    set.insert(cards2.clone());
    set.insert(cards3.clone());
    set.insert(cards4.clone());
    set.insert(cards5.clone());
    set.insert(cards6.clone());
    set.insert(cards7.clone());

    let mut iter = set.iter();
    assert_eq!(iter.next(), Some(&cards7));
    assert_eq!(iter.next(), Some(&cards6));
    assert_eq!(iter.next(), Some(&cards5));
    assert_eq!(iter.next(), Some(&cards4));
    assert_eq!(iter.next(), Some(&cards3));
    assert_eq!(iter.next(), Some(&cards2));
    assert_eq!(iter.next(), Some(&cards1));
    assert_eq!(iter.next(), None);
    println!("{:?}", set);
}

#[test]
fn test_cards_btree_set1() {
    let mut set = BTreeSet::new();
    let cards1 = Cards::from_vec(vec![Card::Ace]);
    let cards2 = Cards::from_vec(vec![Card::Ace, Card::Ace]);
    let cards3 = Cards::from_vec(vec![Card::Ace, Card::Ace, Card::Ace]);
    let cards4 = Cards::from_vec(vec![Card::Ace, Card::Ace, Card::Ace, Card::Ace]);
    let cards5 = Cards::from_vec(vec![Card::Ace, Card::Ace, Card::Ace, Card::Ace, Card::Ace]);
    let cards6 = Cards::from_vec(vec![
        Card::Ace,
        Card::Ace,
        Card::Ace,
        Card::Ace,
        Card::Ace,
        Card::Ace,
    ]);
    let cards7 = Cards::from_vec(vec![
        Card::Ace,
        Card::Ace,
        Card::Ace,
        Card::Ace,
        Card::Ace,
        Card::Ace,
        Card::Ace,
    ]);

    set.insert(cards1.clone());
    set.insert(cards2.clone());
    set.insert(cards3.clone());
    set.insert(cards4.clone());
    set.insert(cards5.clone());
    set.insert(cards6.clone());
    set.insert(cards7.clone());

    let mut iter = set.iter();
    assert_eq!(iter.next(), Some(&cards1));
    assert_eq!(iter.next(), Some(&cards2));
    assert_eq!(iter.next(), Some(&cards3));
    assert_eq!(iter.next(), Some(&cards4));
    assert_eq!(iter.next(), Some(&cards5));
    assert_eq!(iter.next(), Some(&cards6));
    assert_eq!(iter.next(), Some(&cards7));
    assert_eq!(iter.next(), None);
    assert_eq!(set.len(), 7);
}
