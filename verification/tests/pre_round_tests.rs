use blackjack_ev::card::Card;
use blackjack_ev::deck::Deck;
use blackjack_ev::pre_round::{PreBlackJackGame, PreRoundPattern};
use blackjack_ev::round::EvContext;
use blackjack_ev::rule::Rule;
use tokio_util::sync::CancellationToken;
use num_bigint::BigInt;
use num_rational::Ratio;
use std::collections::HashSet;

#[test]
fn test_generate_pre_round_patterns() {
    let patterns = PreRoundPattern::generate();

    let expected_len = 55 * Card::all().len();
    assert_eq!(patterns.len(), expected_len);

    let mut seen = HashSet::new();
    for pattern in &patterns {
        let entry = (
            pattern.dealer_card,
            pattern.player_pattern.clone(),
            pattern.player_hand.clone(),
            pattern.all_deck.clone(),
            pattern.weight,
        );
        assert!(seen.insert(entry), "Duplicate pattern found!");
    }
}

#[test]
fn test_pre_round_pattern_properties() {
    let patterns = PreRoundPattern::generate();

    for pattern in patterns {
        let expected_deck = pattern.player_pattern.add(pattern.dealer_card);
        assert_eq!(pattern.all_deck, expected_deck, "All deck does not match expected.");

        if pattern.player_hand.is_pair() {
            assert_eq!(pattern.weight, 1, "Weight should be 1 for pairs.");
        } else {
            assert_eq!(pattern.weight, 2, "Weight should be 2 for non-pairs.");
        }
    }
}

#[test]
fn test_all_function() {
    let patterns = PreRoundPattern::all();
    let generated_patterns = PreRoundPattern::generate();

    assert_eq!(patterns.len(), generated_patterns.len());
    assert_eq!(patterns, generated_patterns);
}

#[test]
fn test_probability_sum() {
    let patterns = PreRoundPattern::all();

    let deck = Deck::new(8);
    let mut s = Ratio::new(BigInt::from(0), BigInt::from(1));
    for pattern in patterns.iter() {
        let p = deck.deck_draw_probability(&pattern.all_deck);
        s = s + p * Ratio::new(BigInt::from(pattern.weight), BigInt::from(1));
    }
    assert_eq!(s, Ratio::new(BigInt::from(1), BigInt::from(1)));
}

#[test]
fn test_probability_sum_one_deck() {
    let patterns = PreRoundPattern::all();

    let deck = Deck::new(1);
    let mut s = Ratio::new(BigInt::from(0), BigInt::from(1));
    for pattern in patterns.iter() {
        let p = deck.deck_draw_probability(&pattern.all_deck);
        s = s + p * Ratio::new(BigInt::from(pattern.weight), BigInt::from(1));
    }
    assert_eq!(s, Ratio::new(BigInt::from(1), BigInt::from(1)));
}

#[test]
fn test_pre_round_single_pattern_term() {

    // a thirty-card shoe: three of each rank
    let mut deck = Deck::zero();
    for card in Card::all() {
        deck = deck.add(card).add(card).add(card);
    }
    let game = PreBlackJackGame::new(Rule::evolution_classic(), deck);
    let patterns = PreRoundPattern::generate();
    let pattern = patterns
        .iter()
        .find(|p| {
            p.dealer_card == Card::Face && p.player_pattern.n9 == 1 && p.player_pattern.face == 1
        })
        .unwrap();
    let mut ctx = EvContext::new();
    let token = CancellationToken::new();
    let term = game
        .pre_round_ev_with_cancellation_token(pattern, &mut ctx, &token)
        .unwrap();
    assert_eq!(term, Ratio::new(BigInt::from(2801), BigInt::from(7534800)));
    let again = game
        .pre_round_ev_with_cancellation_token(pattern, &mut ctx, &token)
        .unwrap();
    assert_eq!(term, again);
}

#[test]
fn test_pre_round_cancelled() {

    let game = PreBlackJackGame::new(Rule::evolution_classic(), Deck::new(8));
    let mut ctx = EvContext::new();
    let token = CancellationToken::new();
    token.cancel();
    assert_eq!(game.ev_with_cancellation_token(&mut ctx, &token), Err(()));
    assert_eq!(game.calc_ev_with_cancellation_token(&mut ctx, &token), Err(()));
}
