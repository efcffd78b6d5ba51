use blackjack_ev::card::Card;
use blackjack_ev::deck::Deck;
use blackjack_ev::hand::{Hand, HandTotal};
use blackjack_ev::round::{BlackJackGame, EvContext};
use blackjack_ev::rule::Rule;
use num_bigint::BigInt;
use num_rational::Ratio;
use tokio_util::sync::CancellationToken;

fn big(n: i128, d: i128) -> Ratio<BigInt> {
    Ratio::new(BigInt::from(n), BigInt::from(d))
}

#[test]
fn test_hit_ev1() {
    let dealer_card = Card::Face;

    let player_hands: Vec<(Hand, (i128, i128))> = vec![
        (Hand::Hard(HandTotal::Value(4)), (-13689957489251, 37374807219750)),
        (Hand::Hard(HandTotal::Value(5)), (-3771395696811, 9689764834750)),
        (Hand::Hard(HandTotal::Value(6)), (-70135504890469, 174415767025500)),
        (Hand::Hard(HandTotal::Value(7)), (-13043991377, 34897112250)),
        (Hand::Hard(HandTotal::Value(8)), (-3236262234713, 10678516348500)),
        (Hand::Hard(HandTotal::Value(9)), (-1441653790309, 6795419494500)),
        (Hand::Hard(HandTotal::Value(10)), (-5743817, 110372262)),
        (Hand::Hard(HandTotal::Value(11)), (2127284281, 79016505750)),
        (Hand::Hard(HandTotal::Value(12)), (-9743496797, 22576144500)),
        (Hand::Hard(HandTotal::Value(13)), (-8273979149, 17559223500)),
        (Hand::Hard(HandTotal::Value(14)), (-535699399, 1053553410)),
        (Hand::Hard(HandTotal::Value(15)), (-5722583939, 10535534100)),
        (Hand::Hard(HandTotal::Value(16)), (-1517105488, 2633883525)),
        (Hand::Hard(HandTotal::Value(17)), (-6497749943, 10535534100)),
        (Hand::Hard(HandTotal::Value(18)), (-78892169, 117061490)),
        (Hand::Hard(HandTotal::Value(19)), (-131398262, 175592235)),
        (Hand::Hard(HandTotal::Value(20)), (-32750363, 38172225)),
        (Hand::Soft(HandTotal::Value(13)), (-91803515069723, 523247301076500)),
        (Hand::Soft(HandTotal::Value(14)), (-21449284016533, 104649460215300)),
        (Hand::Soft(HandTotal::Value(15)), (-8343882969077, 34883153405100)),
        (Hand::Soft(HandTotal::Value(16)), (-20080657174343, 74749614439500)),
        (Hand::Soft(HandTotal::Value(17)), (-1618906065863, 6229134536625)),
        (Hand::Soft(HandTotal::Value(18)), (-19931581951, 96575729250)),
        (Hand::Soft(HandTotal::Value(19)), (-13239131611, 86918156325)),
        (Hand::Soft(HandTotal::Value(20)), (-5743817, 110372262)),
        (Hand::Pair(Card::N2), (-914224158773, 2669629087125)),
        (Hand::Pair(Card::N3), (-202229317862381, 523247301076500)),
        (Hand::Pair(Card::N4), (-3236262234713, 10678516348500)),
        (Hand::Pair(Card::N5), (-5743817, 110372262)),
        (Hand::Pair(Card::N6), (-9743496797, 22576144500)),
        (Hand::Pair(Card::N7), (-535699399, 1053553410)),
        (Hand::Pair(Card::N8), (-1517105488, 2633883525)),
        (Hand::Pair(Card::N9), (-78892169, 117061490)),
        (Hand::Pair(Card::Face), (-32750363, 38172225)),
        (Hand::Pair(Card::Ace), (-6614100976199, 46738865673500)),
    ];
    let mut ctx = EvContext::new();
    for (hand, prob) in player_hands.iter() {
        let deck_cards = Deck::new(1);
        let ratio = big(prob.0, prob.1);
        let rule = Rule::evolution_classic();
        let round = BlackJackGame::new(rule, dealer_card, hand.clone(), deck_cards, 1);
        let token = CancellationToken::new();
        assert_eq!(round.get_hit_ev(&mut ctx, &token).unwrap(), Some(ratio), "hand: {:?}", hand);
    }
}

#[test]
fn test_ev1() {
    let dealer_card = Card::Face;
    let user_cards = Hand::Hard(HandTotal::Value(12));
    let deck_cards = Deck::new(1);
    let rule = Rule::evolution_classic();

    let round = BlackJackGame::new(rule, dealer_card, user_cards, deck_cards, 1);
    let mut ctx = EvContext::new();

    let numer: BigInt = "-9743496797".parse().unwrap();
    let denom: BigInt = "22576144500".parse().unwrap();

    assert_eq!(round.ev(&mut ctx), Ratio::<BigInt>::new(numer, denom));
}

#[test]
fn test_hand_none_ev() {
    let dealer_card = Card::Face;
    let user_cards = Hand::Empty;
    let deck_cards = Deck::new(1);
    let rule = Rule::evolution_classic();

    let round = BlackJackGame::new(rule, dealer_card, user_cards, deck_cards, 1);
    let mut ctx = EvContext::new();

    let numer: BigInt = "-391894135935091".parse().unwrap();
    let denom: BigInt = "1833601653345000".parse().unwrap();

    assert_eq!(round.ev(&mut ctx), Ratio::<BigInt>::new(numer, denom));
}
