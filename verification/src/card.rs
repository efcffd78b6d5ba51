use vstd::prelude::*;
use vstd::string::StringSliceAdditionalSpecFns;

verus! {

/// One of the ten distinguishable blackjack ranks. Ten, jack, queen and king
/// all count ten and are folded into `Face`. The declaration runs in point
/// order so that the derived comparisons order ranks by their value, with
/// the ace (eleven points) on top.
#[derive(Clone, Copy, Debug, PartialEq, Eq, Hash, PartialOrd, Ord, Structural)]
pub enum Card {
    N2,
    N3,
    N4,
    N5,
    N6,
    N7,
    N8,
    N9,
    Face,
    Ace,
}

/// Blackjack point value of a rank; the ace counts eleven here, and hand
/// arithmetic demotes it to one where needed.
pub open spec fn card_value(c: Card) -> int {
    match c {
        Card::Ace => 11,
        Card::N2 => 2,
        Card::N3 => 3,
        Card::N4 => 4,
        Card::N5 => 5,
        Card::N6 => 6,
        Card::N7 => 7,
        Card::N8 => 8,
        Card::N9 => 9,
        Card::Face => 10,
    }
}

/// The ten ranks, aces first, as the enumeration passes hand them out.
pub open spec fn all_cards_seq() -> Seq<Card> {
    seq![
        Card::Ace,
        Card::N2,
        Card::N3,
        Card::N4,
        Card::N5,
        Card::N6,
        Card::N7,
        Card::N8,
        Card::N9,
        Card::Face,
    ]
}

/// What `Card::from_str` decodes from the bytes of its argument.
pub open spec fn spec_card_from_bytes(s: Seq<u8>) -> Option<Card> {
    if s == seq![65u8] || s == seq![49u8] {
        Some(Card::Ace)
    } else if s == seq![50u8] {
        Some(Card::N2)
    } else if s == seq![51u8] {
        Some(Card::N3)
    } else if s == seq![52u8] {
        Some(Card::N4)
    } else if s == seq![53u8] {
        Some(Card::N5)
    } else if s == seq![54u8] {
        Some(Card::N6)
    } else if s == seq![55u8] {
        Some(Card::N7)
    } else if s == seq![56u8] {
        Some(Card::N8)
    } else if s == seq![57u8] {
        Some(Card::N9)
    } else if s == seq![49u8, 48u8] || s == seq![70u8, 97u8, 99u8, 101u8] || s == seq![84u8] || s
        == seq![74u8] || s == seq![81u8] || s == seq![75u8] {
        Some(Card::Face)
    } else {
        None
    }
}

impl Card {
    /// Blackjack point value of this rank.
    pub fn value(&self) -> (v: usize)
        ensures
            v == card_value(*self),
    {
        match self {
            Card::Ace => 11,
            Card::N2 => 2,
            Card::N3 => 3,
            Card::N4 => 4,
            Card::N5 => 5,
            Card::N6 => 6,
            Card::N7 => 7,
            Card::N8 => 8,
            Card::N9 => 9,
            Card::Face => 10,
        }
    }

    /// All ten ranks, in the order of `all_cards_seq`.
    pub fn all() -> (v: Vec<Card>)
        ensures
            v@ == all_cards_seq(),
    {
        let v: Vec<Card> = vec![
            Card::Ace,
            Card::N2,
            Card::N3,
            Card::N4,
            Card::N5,
            Card::N6,
            Card::N7,
            Card::N8,
            Card::N9,
            Card::Face,
        ];
        proof {
            assert(v@ =~= all_cards_seq());
        }
        v
    }

    /// Decodes a rank from its text form: "A" or "1" for the ace, the
    /// numerals "2" through "9", and "10", "Face", "T", "J", "Q" or "K"
    /// for the ten-valued ranks.
    pub fn from_str(s: &str) -> (r: Option<Card>)
        ensures
            r == spec_card_from_bytes(s.spec_bytes()),
    {
        let b = s.as_bytes();
        let r = if b.len() == 1 {
            let c = b[0];
            if c == 65 || c == 49 {
                Some(Card::Ace)
            } else if c == 50 {
                Some(Card::N2)
            } else if c == 51 {
                Some(Card::N3)
            } else if c == 52 {
                Some(Card::N4)
            } else if c == 53 {
                Some(Card::N5)
            } else if c == 54 {
                Some(Card::N6)
            } else if c == 55 {
                Some(Card::N7)
            } else if c == 56 {
                Some(Card::N8)
            } else if c == 57 {
                Some(Card::N9)
            } else if c == 84 || c == 74 || c == 81 || c == 75 {
                Some(Card::Face)
            } else {
                None
            }
        } else if b.len() == 2 && b[0] == 49 && b[1] == 48 {
            Some(Card::Face)
        } else if b.len() == 4 && b[0] == 70 && b[1] == 97 && b[2] == 99 && b[3] == 101 {
            Some(Card::Face)
        } else {
            None
        };
        proof {
            let bs = s.spec_bytes();
            if bs.len() == 1 {
                assert(bs =~= seq![bs[0]]);
            } else if bs.len() == 2 {
                assert(bs =~= seq![bs[0], bs[1]]);
            } else if bs.len() == 4 {
                assert(bs =~= seq![bs[0], bs[1], bs[2], bs[3]]);
            }
        }
        r
    }
}

} // verus!
