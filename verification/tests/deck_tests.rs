use blackjack_ev::card::Card;
use blackjack_ev::deck::Deck;
use blackjack_ev::hand::{Cards, HandTotal};
use blackjack_ev::round::EvContext;
use num_bigint::BigInt;
use num_rational::Ratio;

fn big(n: i64, d: i64) -> Ratio<BigInt> {
    Ratio::new(BigInt::from(n), BigInt::from(d))
}

#[test]
fn test_draw_probability() {
    let deck_cards = Deck::new(1);
    let ace_probability = deck_cards.draw_probability(Card::Ace);
    let expected_probability = big(4, 52);
    assert_eq!(ace_probability, expected_probability);
}

#[test]
fn test_draw_probability1() {
    let deck_cards = Deck::new_from_strs(&vec!["2", "3", "4", "A"]);
    let ace_probability = deck_cards.draw_probability(Card::N5);
    let expected_probability = big(0, 1);
    assert_eq!(ace_probability, expected_probability);
}

#[test]
fn test_deck_count() {
    let deck_cards = Deck::new(1);
    let count = deck_cards.count(Card::Ace);
    assert_eq!(count, 4);
}

#[test]
fn test_cards_draw_probability() {
    let deck_cards = Deck::new(1);
    let cards = Deck::new_from_strs(&vec!["A"]);
    let prob = deck_cards.deck_draw_probability(&cards);
    let expected_prob = big(4, 52);
    assert_eq!(prob, expected_prob);
}

#[test]
fn test_cards_draw_probability1() {
    let deck_cards = Deck::new(1);
    let cards = Deck::new_from_strs(&vec!["A", "2", "3", "4"]);
    let prob = deck_cards.deck_draw_probability(&cards);
    let expected_prob = big(4, 52) * big(4, 51) * big(4, 50) * big(4, 49);
    assert_eq!(prob, expected_prob);
}

#[test]
fn test_cards_draw_probability2() {
    let deck_cards = Deck::new(1);
    let cards = Deck::new_from_strs(&vec!["A", "2", "3", "T"]);
    let prob = deck_cards.deck_draw_probability(&cards);
    let expected_prob = big(4, 52) * big(4, 51) * big(4, 50) * big(16, 49);
    assert_eq!(prob, expected_prob);
}

#[test]
fn test_cards_draw_probability3() {
    let deck_cards = Deck::new(1);
    let cards = Deck::new_from_strs(&vec!["A", "A", "A", "A", "A"]);
    let prob = deck_cards.deck_draw_probability(&cards);
    let expected_prob = big(0, 1);
    assert_eq!(prob, expected_prob);
}

#[test]
fn test_cards_draw_probability4() {
    let deck_cards = Deck::new(1);
    let cards = Deck::new_from_strs(&vec!["A", "A"]);
    let prob = deck_cards.deck_draw_probability(&cards);
    let expected_prob = big(4, 52) * big(3, 51);
    assert_eq!(prob, expected_prob);
}

#[test]
fn test_cards_draw_probability5() {
    let deck_cards = Deck::new(6);
    let cards = Deck::new_from_strs(&vec!["A", "A", "A", "A", "A", "A"]);
    let prob = deck_cards.deck_draw_probability(&cards);
    let expected_prob = big(4 * 6, 52 * 6)
        * big(4 * 6 - 1, 52 * 6 - 1)
        * big(4 * 6 - 2, 52 * 6 - 2)
        * big(4 * 6 - 3, 52 * 6 - 3)
        * big(4 * 6 - 4, 52 * 6 - 4)
        * big(4 * 6 - 5, 52 * 6 - 5);
    assert_eq!(prob, expected_prob);
}

#[test]
fn test_generate_prob2() {
    let deck_cards = Deck::new(1);
    let mut ctx = EvContext::new();
    let prob = ctx.dealer_probs(&deck_cards);

    for card in Card::all() {
        let total_prob = prob.get(card);
        let total = total_prob.get(&HandTotal::BlackJack).clone()
            + total_prob.get(&HandTotal::Value(17)).clone()
            + total_prob.get(&HandTotal::Value(18)).clone()
            + total_prob.get(&HandTotal::Value(19)).clone()
            + total_prob.get(&HandTotal::Value(20)).clone()
            + total_prob.get(&HandTotal::Value(21)).clone()
            + total_prob.get(&HandTotal::Burst).clone();
        assert_eq!(total, big(1, 1));
    }
}

#[test]
fn test_generate_prob3() {
    let deck_cards = Deck::new(6);
    let mut ctx = EvContext::new();
    let prob = ctx.dealer_probs(&deck_cards);

    for card in Card::all() {
        let total_prob = prob.get(card);
        println!("{:?}", total_prob.get(&HandTotal::Value(17)));
    }
}

#[test]
fn test_deck_eq1() {
    let cards = vec!["A", "2", "3", "4", "2", "2", "A"];
    let deck1 = Deck::new_from_strs(&cards);
    let deck2 = Deck::new_from_cards(&Cards::new_from_strs(&cards));
    assert_eq!(deck1, deck2);
}

#[test]
fn test_deck_add_remove() {
    let deck = Deck::new(1);
    let d2 = deck.remove(Card::Ace);
    assert_eq!(d2.ace, 3);
    assert_eq!(d2.total_cards(), 51);
    let d3 = d2.add(Card::Ace);
    assert_eq!(d3, deck);
}

#[test]
fn test_deck_remove_deck() {
    let deck = Deck::new(1);
    let delta = Deck::new_from_strs(&vec!["A", "T", "T"]);
    let rest = deck.remove_deck(&delta);
    assert_eq!(rest.ace, 3);
    assert_eq!(rest.face, 14);
    assert_eq!(rest.total_cards(), 49);
}
