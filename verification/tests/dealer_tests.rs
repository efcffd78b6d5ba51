use blackjack_ev::card::Card;
use blackjack_ev::dealer::DealerTables;
use blackjack_ev::hand::HandTotal;

#[test]
fn test_generate_all_patterns_len() {
    let cases = vec![
        (Card::Ace, HandTotal::Value(17), 99),
        (Card::Ace, HandTotal::Value(18), 147),
        (Card::Ace, HandTotal::Value(19), 174),
        (Card::Ace, HandTotal::Value(20), 186),
        (Card::Ace, HandTotal::Value(21), 175),
        (Card::Ace, HandTotal::Burst, 577),
        (Card::Ace, HandTotal::BlackJack, 1),
        (Card::Face, HandTotal::Value(17), 14),
        (Card::Face, HandTotal::Value(18), 15),
        (Card::Face, HandTotal::Value(19), 19),
        (Card::Face, HandTotal::Value(20), 22),
        (Card::Face, HandTotal::Value(21), 22),
        (Card::Face, HandTotal::Burst, 91),
        (Card::Face, HandTotal::BlackJack, 1),
        (Card::N9, HandTotal::Value(17), 21),
        (Card::N9, HandTotal::Value(18), 22),
        (Card::N9, HandTotal::Value(19), 29),
        (Card::N9, HandTotal::Value(20), 33),
        (Card::N9, HandTotal::Value(21), 35),
        (Card::N9, HandTotal::Burst, 137),
        (Card::N8, HandTotal::Value(17), 28),
        (Card::N8, HandTotal::Value(18), 32),
        (Card::N8, HandTotal::Value(19), 36),
        (Card::N8, HandTotal::Value(20), 43),
        (Card::N8, HandTotal::Value(21), 47),
        (Card::N8, HandTotal::Burst, 189),
        (Card::N7, HandTotal::Value(17), 39),
        (Card::N7, HandTotal::Value(18), 43),
        (Card::N7, HandTotal::Value(19), 52),
        (Card::N7, HandTotal::Value(20), 57),
        (Card::N7, HandTotal::Value(21), 64),
        (Card::N7, HandTotal::Burst, 259),
        (Card::N6, HandTotal::Value(17), 51),
        (Card::N6, HandTotal::Value(18), 58),
        (Card::N6, HandTotal::Value(19), 66),
        (Card::N6, HandTotal::Value(20), 77),
        (Card::N6, HandTotal::Value(21), 82),
        (Card::N6, HandTotal::Burst, 345),
        (Card::N5, HandTotal::Value(17), 69),
        (Card::N5, HandTotal::Value(18), 76),
        (Card::N5, HandTotal::Value(19), 91),
        (Card::N5, HandTotal::Value(20), 102),
        (Card::N5, HandTotal::Value(21), 113),
        (Card::N5, HandTotal::Burst, 458),
        (Card::N4, HandTotal::Value(17), 89),
        (Card::N4, HandTotal::Value(18), 104),
        (Card::N4, HandTotal::Value(19), 119),
        (Card::N4, HandTotal::Value(20), 134),
        (Card::N4, HandTotal::Value(21), 145),
        (Card::N4, HandTotal::Burst, 606),
        (Card::N3, HandTotal::Value(17), 118),
        (Card::N3, HandTotal::Value(18), 137),
        (Card::N3, HandTotal::Value(19), 161),
        (Card::N3, HandTotal::Value(20), 178),
        (Card::N3, HandTotal::Value(21), 194),
        (Card::N3, HandTotal::Burst, 795),
        (Card::N2, HandTotal::Value(17), 151),
        (Card::N2, HandTotal::Value(18), 178),
        (Card::N2, HandTotal::Value(19), 206),
        (Card::N2, HandTotal::Value(20), 232),
        (Card::N2, HandTotal::Value(21), 247),
        (Card::N2, HandTotal::Burst, 1023),
    ];

    let tables = DealerTables::generate();
    for (card, sum, len) in cases {
        let patterns = tables.find(card, &sum);
        assert_eq!(patterns.len(), len, "Failed for card {:?} and sum {:?}", card, sum);
    }
}

#[test]
fn test_no_blackjack_rows_for_number_upcards() {
    let tables = DealerTables::generate();
    for card in [
        Card::N2,
        Card::N3,
        Card::N4,
        Card::N5,
        Card::N6,
        Card::N7,
        Card::N8,
        Card::N9,
    ] {
        assert_eq!(tables.find(card, &HandTotal::BlackJack).len(), 0);
    }
}
