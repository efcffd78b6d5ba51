use blackjack_ev::card::Card;
use blackjack_ev::deck::Deck;
use blackjack_ev::hand::{Cards, Hand, HandTotal};
use blackjack_ev::round::{BlackJackGame, EvContext};
use blackjack_ev::rule::Rule;
use num_bigint::BigInt;
use num_rational::Ratio;
use tokio_util::sync::CancellationToken;

fn big(n: i128, d: i128) -> Ratio<BigInt> {
    Ratio::new(BigInt::from(n), BigInt::from(d))
}

#[test]
fn test_stand_ev1() {
    let dealer_card = Card::Face;

    let player_hands: Vec<(Hand, (i64, i64))> = vec![
        (Hand::Hard(HandTotal::Value(12)), (-21829933, 38172225)),
        (Hand::Hard(HandTotal::Value(13)), (-21829933, 38172225)),
        (Hand::Hard(HandTotal::Value(14)), (-21829933, 38172225)),
        (Hand::Hard(HandTotal::Value(15)), (-21829933, 38172225)),
        (Hand::Hard(HandTotal::Value(16)), (-21829933, 38172225)),
        (Hand::Hard(HandTotal::Value(17)), (-23435103, 50896300)),
        (Hand::Hard(HandTotal::Value(18)), (-9125656, 38172225)),
        (Hand::Hard(HandTotal::Value(19)), (-2664967, 152688900)),
        (Hand::Hard(HandTotal::Value(20)), (2215119, 5089630)),
        (Hand::Hard(HandTotal::Value(21)), (8847179, 10906350)),
        (Hand::Soft(HandTotal::Value(13)), (-21829933, 38172225)),
        (Hand::Soft(HandTotal::Value(14)), (-21829933, 38172225)),
        (Hand::Soft(HandTotal::Value(15)), (-21829933, 38172225)),
        (Hand::Soft(HandTotal::Value(16)), (-21829933, 38172225)),
        (Hand::Soft(HandTotal::Value(17)), (-23435103, 50896300)),
        (Hand::Soft(HandTotal::Value(18)), (-9125656, 38172225)),
        (Hand::Soft(HandTotal::Value(19)), (-2664967, 152688900)),
        (Hand::Soft(HandTotal::Value(20)), (2215119, 5089630)),
        (Hand::Soft(HandTotal::Value(21)), (8847179, 10906350)),
        (Hand::Soft(HandTotal::BlackJack), (18, 13)),
        (Hand::Hard(HandTotal::Burst), (-1, 1)),
        (Hand::Pair(Card::N2), (-21829933, 38172225)),
        (Hand::Pair(Card::N3), (-21829933, 38172225)),
        (Hand::Pair(Card::N4), (-21829933, 38172225)),
        (Hand::Pair(Card::N5), (-21829933, 38172225)),
        (Hand::Pair(Card::N6), (-21829933, 38172225)),
        (Hand::Pair(Card::N7), (-21829933, 38172225)),
        (Hand::Pair(Card::N8), (-21829933, 38172225)),
        (Hand::Pair(Card::N9), (-9125656, 38172225)),
        (Hand::Pair(Card::Face), (2215119, 5089630)),
        (Hand::Pair(Card::Ace), (-21829933, 38172225)),
    ];
    let mut ctx = EvContext::new();
    for (hand, prob) in player_hands.iter() {
        let deck_cards = Deck::new(1);
        let ratio = big(prob.0 as i128, prob.1 as i128);
        let rule = Rule::evolution_classic();
        let round = BlackJackGame::new(rule, dealer_card, hand.clone(), deck_cards, 1);
        let token = CancellationToken::new();
        assert_eq!(round.get_stand_ev(&mut ctx, &token).unwrap(), ratio, "hand: {:?}", hand);
    }
}

#[test]
fn test_stand_ev_blackjack() {
    let dealer_card = Card::N6;
    let user_cards = Cards::from_vec(vec![Card::Ace, Card::Face]).to_hand();
    let deck_cards = Deck::new_from_strs(&vec!["T", "T"]);
    let rule = Rule::evolution_classic();
    let round = BlackJackGame::new(rule, dealer_card, user_cards, deck_cards, 1);
    let token = CancellationToken::new();
    let mut ctx = EvContext::new();
    assert_eq!(round.get_stand_ev(&mut ctx, &token).unwrap(), big(3, 2));
}

#[test]
fn test_stand_ev_burst() {
    let dealer_card = Card::N2;
    let user_cards = Cards::from_vec(vec![Card::Face, Card::Face, Card::Face]).to_hand();
    let deck_cards = Deck::new(1);
    let rule = Rule::evolution_classic();
    let round = BlackJackGame::new(rule, dealer_card, user_cards, deck_cards, 1);
    let token = CancellationToken::new();
    let mut ctx = EvContext::new();
    assert_eq!(round.get_stand_ev(&mut ctx, &token).unwrap(), big(-1, 1));
}

#[test]
fn test_stand_ev_dealer_burst() {
    let dealer_card = Card::Face;
    let user_cards = Cards::from_vec(vec![Card::Face, Card::N2]).to_hand();
    let deck_cards = Deck::new_from_strs(&vec!["6", "6"]);
    let rule = Rule::evolution_classic();
    let round = BlackJackGame::new(rule, dealer_card, user_cards, deck_cards, 1);
    let token = CancellationToken::new();
    let mut ctx = EvContext::new();
    assert_eq!(round.get_stand_ev(&mut ctx, &token).unwrap(), big(1, 1));
}

#[test]
fn test_stand_ev_dealer_blackjack() {
    let dealer_card = Card::Face;
    let user_cards = Cards::from_vec(vec![Card::Face, Card::N2]).to_hand();
    let deck_cards = Deck::new_from_strs(&vec!["A"]);
    let rule = Rule::evolution_classic();
    let round = BlackJackGame::new(rule, dealer_card, user_cards, deck_cards, 1);
    let token = CancellationToken::new();
    let mut ctx = EvContext::new();
    assert_eq!(round.get_stand_ev(&mut ctx, &token).unwrap(), big(-1, 1));
}

#[test]
fn test_stand_ev_blackjack2() {
    let dealer_card = Card::Face;
    let user_cards = Cards::from_vec(vec![Card::Face, Card::Ace]).to_hand();
    let deck_cards = Deck::new_from_strs(&vec!["6", "6"]);
    let rule = Rule::evolution_classic();
    let round = BlackJackGame::new(rule, dealer_card, user_cards, deck_cards, 1);
    let token = CancellationToken::new();
    let mut ctx = EvContext::new();
    assert_eq!(round.get_stand_ev(&mut ctx, &token).unwrap(), big(3, 2));
}

#[test]
fn test_hit_ev_burst() {
    let dealer_card = Card::Face;
    let user_cards = Cards::from_vec(vec![Card::Face, Card::Face]).to_hand();
    let deck_cards = Deck::new_from_strs(&vec!["3"]);
    let rule = Rule::evolution_classic();
    let round = BlackJackGame::new(rule, dealer_card, user_cards, deck_cards, 1);
    let token = CancellationToken::new();
    let mut ctx = EvContext::new();
    assert_eq!(round.get_hit_ev(&mut ctx, &token).unwrap(), Some(big(-1, 1)));
}

#[test]
fn test_hit_ev_21() {
    let dealer_card = Card::N6;
    let user_cards = Cards::from_vec(vec![Card::N6, Card::N4]).to_hand();
    let deck_cards = Deck::new_from_strs(&vec!["A", "A"]);
    let rule = Rule::evolution_classic();
    let round = BlackJackGame::new(rule, dealer_card, user_cards, deck_cards, 1);
    let token = CancellationToken::new();
    let mut ctx = EvContext::new();
    assert_eq!(round.get_hit_ev(&mut ctx, &token).unwrap(), Some(big(1, 1)));
}

#[test]
fn test_double_ev1() {
    let dealer_card = Card::Face;
    let user_cards = Cards::from_vec(vec![Card::N6, Card::N6]).to_hand();
    let deck_cards = Deck::new_from_strs(&vec![
        "A", "A", "A", "A", "A", "A", "A", "A", "A", "A", "A", "A", "A", "A", "A", "A",
    ]);
    let rule = Rule::evolution_classic();
    let round = BlackJackGame::new(rule, dealer_card, user_cards, deck_cards, 1);
    let token = CancellationToken::new();
    let mut ctx = EvContext::new();
    assert_eq!(round.double_ev(&mut ctx, &token).unwrap(), Some(big(-2, 1)));
}

#[test]
fn test_double_ev2() {
    let dealer_card = Card::N6;
    let user_cards = Cards::from_vec(vec![Card::N5, Card::N5]).to_hand();
    let deck_cards = Deck::new_from_strs(&vec!["A", "A", "A", "A"]);
    let rule = Rule::evolution_classic();
    let round = BlackJackGame::new(rule, dealer_card, user_cards, deck_cards, 1);
    let token = CancellationToken::new();
    let mut ctx = EvContext::new();
    assert_eq!(round.double_ev(&mut ctx, &token).unwrap(), Some(big(2, 1)));
}

#[test]
fn test_split_ev1() {
    let dealer_card = Card::N6;
    let user_cards = Cards::from_vec(vec![Card::Face, Card::Face]).to_hand();
    let deck_cards = Deck::new_from_strs(&vec!["T", "T", "T", "T"]);
    let rule = Rule::evolution_classic();
    let round = BlackJackGame::new(rule, dealer_card, user_cards, deck_cards, 1);
    let token = CancellationToken::new();
    let mut ctx = EvContext::new();
    assert_eq!(round.split_ev(&mut ctx, &token).unwrap(), Some(big(2, 1)));
}

#[test]
fn test_split_ev2() {
    let dealer_card = Card::Face;
    let user_cards = Cards::from_vec(vec![Card::N9, Card::N9]).to_hand();
    let deck_cards = Deck::new_from_strs(&vec![
        "A", "A", "A", "A", "A", "A", "A", "A", "A", "A", "A", "A", "A", "A", "A", "A", "A", "A",
        "A", "A", "A", "A", "A", "A",
    ]);
    let rule = Rule::evolution_classic();
    let round = BlackJackGame::new(rule, dealer_card, user_cards, deck_cards, 1);
    let token = CancellationToken::new();
    let mut ctx = EvContext::new();
    assert_eq!(round.split_ev(&mut ctx, &token).unwrap(), Some(big(-2, 1)));
}

#[test]
fn test_charlie_stand_wins() {
    let mut rule = Rule::evolution_classic();
    rule.six_card_charlie = true;
    let deck_cards = Deck::new(1);
    let round = BlackJackGame::new(
        rule,
        Card::Face,
        Hand::Hard(HandTotal::Value(14)),
        deck_cards,
        6,
    );
    let token = CancellationToken::new();
    let mut ctx = EvContext::new();
    assert_eq!(round.stand_ev(&mut ctx, &token).unwrap(), big(1, 1));
}

#[test]
fn test_cancelled_token_yields_error() {
    let deck_cards = Deck::new(1);
    let rule = Rule::evolution_classic();
    let round = BlackJackGame::new(
        rule,
        Card::Face,
        Hand::Hard(HandTotal::Value(12)),
        deck_cards,
        1,
    );
    let token = CancellationToken::new();
    token.cancel();
    let mut ctx = EvContext::new();
    assert_eq!(round.ev_with_cancellation_token(&mut ctx, &token), Err(()));
    assert_eq!(round.action_ev(&mut ctx, &token).err(), Some(()));
}

#[test]
fn test_ev_repeatable_and_cache_reset() {
    let deck_cards = Deck::new_from_strs(&vec!["2", "3", "6", "6", "T", "T", "A"]);
    let rule = Rule::evolution_classic();
    let round = BlackJackGame::new(
        rule,
        Card::N6,
        Hand::Hard(HandTotal::Value(16)),
        deck_cards,
        2,
    );
    let mut ctx = EvContext::new();
    let first = round.ev(&mut ctx);
    let second = round.ev(&mut ctx);
    assert_eq!(first, second);
    ctx.clear_cache();
    let third = round.ev(&mut ctx);
    assert_eq!(first, third);
}

#[test]
fn test_stand_ev_low_total_is_minus_one() {
    let rule = Rule::evolution_classic();
    let token = CancellationToken::new();
    let mut ctx = EvContext::new();
    for total in [4usize, 7, 11] {
        let round = BlackJackGame::new(
            rule,
            Card::N6,
            Hand::Hard(HandTotal::Value(total)),
            Deck::new(1),
            1,
        );
        assert_eq!(round.get_stand_ev(&mut ctx, &token).unwrap(), big(-1, 1));
    }
    let round = BlackJackGame::new(
        rule,
        Card::N6,
        Hand::Soft(HandTotal::Value(11)),
        Deck::new(1),
        1,
    );
    assert_eq!(round.get_stand_ev(&mut ctx, &token).unwrap(), big(-1, 1));
}

#[test]
fn test_hand_predicates() {
    assert!(Hand::Soft(HandTotal::BlackJack).is_blackjack());
    assert!(!Hand::Hard(HandTotal::Value(21)).is_blackjack());
    assert!(Hand::Hard(HandTotal::Burst).is_burst());
    assert!(Hand::Hard(HandTotal::Value(21)).is_21());
    assert!(Hand::Soft(HandTotal::Value(21)).is_21());
    assert!(!Hand::Soft(HandTotal::BlackJack).is_21());
    assert!(Hand::Hard(HandTotal::Value(11)).is_lteq_11());
    assert!(!Hand::Pair(Card::N2).is_lteq_11());
    assert!(Hand::Pair(Card::N8).is_pair());
}
