use vstd::prelude::*;
use crate::card::{Card, card_value, spec_card_from_bytes};
use vstd::string::StringSliceAdditionalSpecFns;

verus! {

/// A settled blackjack total: a numeric value, a natural blackjack, or a
/// bust. The declaration order makes the derived comparisons rank any value
/// below a bust and a bust below a blackjack, as the payout rules do.
#[derive(Clone, Copy, Debug, PartialEq, Eq, Hash, PartialOrd, Ord, Structural)]
pub enum HandTotal {
    Value(usize),
    Burst,
    BlackJack,
}

impl HandTotal {
    pub fn is_blackjack(&self) -> (r: bool)
        ensures
            r == (*self matches HandTotal::BlackJack),
    {
        matches!(self, HandTotal::BlackJack)
    }

    pub fn is_burst(&self) -> (r: bool)
        ensures
            r == (*self matches HandTotal::Burst),
    {
        matches!(self, HandTotal::Burst)
    }
}

/// A player hand: empty, a freshly dealt pair, or a running total that is
/// soft (an ace currently counted eleven) or hard.
#[derive(Clone, Copy, Debug, PartialEq, Eq, Hash, Structural)]
pub enum Hand {
    Empty,
    Pair(Card),
    Soft(HandTotal),
    Hard(HandTotal),
}

/// Sum of the point values of a sequence of cards, aces counted eleven.
pub open spec fn raw_sum(s: Seq<Card>) -> int
    decreases s.len(),
{
    if s.len() == 0 {
        0
    } else {
        raw_sum(s.drop_last()) + card_value(s.last())
    }
}

/// How many aces a sequence of cards holds.
pub open spec fn ace_count(s: Seq<Card>) -> int
    decreases s.len(),
{
    if s.len() == 0 {
        0
    } else {
        ace_count(s.drop_last()) + if s.last() == Card::Ace {
            1int
        } else {
            0int
        }
    }
}

/// Demotes aces from eleven to one, ten points at a time, until the total
/// fits under twenty-two or no ace is left at eleven. Returns the settled
/// total and the number of aces still counted eleven.
pub open spec fn settle(total: int, aces: int) -> (int, int)
    decreases aces,
{
    if total > 21 && aces > 0 {
        settle(total - 10, aces - 1)
    } else {
        (total, aces)
    }
}

/// The hand that a sequence of cards makes: empty and single-card hands get
/// their special forms, two equal cards make a pair, a two-card twenty-one
/// is a natural blackjack, and otherwise aces settle down from eleven as
/// needed.
pub open spec fn hand_of_seq(s: Seq<Card>) -> Hand {
    if s.len() == 0 {
        Hand::Empty
    } else if s.len() == 1 {
        if s[0] == Card::Ace {
            Hand::Soft(HandTotal::Value(11))
        } else {
            Hand::Hard(HandTotal::Value(card_value(s[0]) as usize))
        }
    } else if s.len() == 2 && s[0] == s[1] {
        Hand::Pair(s[0])
    } else {
        let st = settle(raw_sum(s), ace_count(s));
        if st.0 == 21 && s.len() == 2 {
            Hand::Soft(HandTotal::BlackJack)
        } else if st.1 > 0 {
            Hand::Soft(HandTotal::Value(st.0 as usize))
        } else if st.0 > 21 {
            Hand::Hard(HandTotal::Burst)
        } else {
            Hand::Hard(HandTotal::Value(st.0 as usize))
        }
    }
}

/// Structural invariant of a hand: soft totals keep an ace at eleven and so
/// sit between eleven and twenty-one; hard totals never exceed twenty-one
/// (a bust is its own form); a hard blackjack or a soft bust cannot arise.
pub open spec fn hand_wf(h: Hand) -> bool {
    match h {
        Hand::Empty => true,
        Hand::Pair(_) => true,
        Hand::Soft(t) => match t {
            HandTotal::Value(v) => 11 <= v <= 21,
            HandTotal::BlackJack => true,
            HandTotal::Burst => false,
        },
        Hand::Hard(t) => match t {
            HandTotal::Value(v) => v <= 21,
            HandTotal::Burst => true,
            HandTotal::BlackJack => false,
        },
    }
}

/// The forms a card can be added to; a settled blackjack or bust takes no
/// further card.
pub open spec fn hand_addable(h: Hand) -> bool {
    match h {
        Hand::Empty => true,
        Hand::Pair(_) => true,
        Hand::Soft(t) => t matches HandTotal::Value(_),
        Hand::Hard(t) => t matches HandTotal::Value(_),
    }
}

/// The one centralized hand transition: what adding a card yields.
pub open spec fn spec_hand_add(h: Hand, c: Card) -> Hand {
    match h {
        Hand::Hard(HandTotal::Value(v)) => {
            let add = if c == Card::Ace && v >= 11 {
                1int
            } else {
                card_value(c)
            };
            if v + add > 21 {
                Hand::Hard(HandTotal::Burst)
            } else {
                Hand::Hard(HandTotal::Value((v + add) as usize))
            }
        },
        Hand::Soft(HandTotal::Value(v)) => {
            let add = if c == Card::Ace {
                1int
            } else {
                card_value(c)
            };
            if v + add > 21 {
                Hand::Hard(HandTotal::Value((v + add - 10) as usize))
            } else {
                Hand::Soft(HandTotal::Value((v + add) as usize))
            }
        },
        Hand::Pair(p) => hand_of_seq(seq![p, p, c]),
        Hand::Empty => hand_of_seq(seq![c]),
        _ => h,
    }
}

/// The settled total that a hand stands on.
pub open spec fn spec_hand_total(h: Hand) -> HandTotal {
    match h {
        Hand::Hard(t) => t,
        Hand::Soft(t) => t,
        Hand::Pair(c) => if c == Card::Ace {
            HandTotal::Value(12)
        } else {
            HandTotal::Value((2 * card_value(c)) as usize)
        },
        Hand::Empty => HandTotal::Value(0),
    }
}

pub open spec fn hand_is_burst(h: Hand) -> bool {
    h == Hand::Hard(HandTotal::Burst)
}

pub open spec fn hand_is_blackjack(h: Hand) -> bool {
    h == Hand::Soft(HandTotal::BlackJack)
}

pub open spec fn hand_is_21(h: Hand) -> bool {
    h == Hand::Hard(HandTotal::Value(21)) || h == Hand::Soft(HandTotal::Value(21))
}

pub open spec fn hand_is_lteq_11(h: Hand) -> bool {
    match h {
        Hand::Hard(HandTotal::Value(v)) => v <= 11,
        Hand::Soft(HandTotal::Value(v)) => v <= 11,
        _ => false,
    }
}

impl Hand {
    pub fn is_burst(&self) -> (r: bool)
        ensures
            r == hand_is_burst(*self),
    {
        matches!(self, Hand::Hard(HandTotal::Burst))
    }

    pub fn is_blackjack(&self) -> (r: bool)
        ensures
            r == hand_is_blackjack(*self),
    {
        matches!(self, Hand::Soft(HandTotal::BlackJack))
    }

    pub fn is_21(&self) -> (r: bool)
        ensures
            r == hand_is_21(*self),
    {
        match self {
            Hand::Hard(HandTotal::Value(v)) => *v == 21,
            Hand::Soft(HandTotal::Value(v)) => *v == 21,
            _ => false,
        }
    }

    pub fn is_lteq_11(&self) -> (r: bool)
        ensures
            r == hand_is_lteq_11(*self),
    {
        match self {
            Hand::Hard(HandTotal::Value(v)) => *v <= 11,
            Hand::Soft(HandTotal::Value(v)) => *v <= 11,
            _ => false,
        }
    }

    pub fn is_pair(&self) -> (r: bool)
        ensures
            r == (*self matches Hand::Pair(_)),
    {
        matches!(self, Hand::Pair(_))
    }

    /// The settled total this hand stands on.
    pub fn hand_total(&self) -> (r: HandTotal)
        requires
            hand_wf(*self),
        ensures
            r == spec_hand_total(*self),
    {
        match self {
            Hand::Hard(t) => *t,
            Hand::Soft(t) => *t,
            Hand::Pair(c) => {
                if *c == Card::Ace {
                    HandTotal::Value(12)
                } else {
                    HandTotal::Value(2 * c.value())
                }
            },
            Hand::Empty => HandTotal::Value(0),
        }
    }

    /// Adds one card, demoting a soft ace to one where the total would
    /// pass twenty-one.
    pub fn add(&self, card: Card) -> (r: Hand)
        requires
            hand_wf(*self),
            hand_addable(*self),
        ensures
            r == spec_hand_add(*self, card),
            hand_wf(r),
    {
        match self {
            Hand::Hard(HandTotal::Value(v)) => {
                let add: usize = if card == Card::Ace && *v >= 11 {
                    1
                } else {
                    card.value()
                };
                let nv: usize = *v + add;
                if nv > 21 {
                    Hand::Hard(HandTotal::Burst)
                } else {
                    Hand::Hard(HandTotal::Value(nv))
                }
            },
            Hand::Soft(HandTotal::Value(v)) => {
                let add: usize = if card == Card::Ace {
                    1
                } else {
                    card.value()
                };
                let nv: usize = *v + add;
                if nv > 21 {
                    Hand::Hard(HandTotal::Value(nv - 10))
                } else {
                    Hand::Soft(HandTotal::Value(nv))
                }
            },
            Hand::Pair(p) => {
                let cs = Cards { cards: vec![*p, *p, card] };
                proof {
                    assert(cs.cards@ =~= seq![*p, *p, card]);
                }
                cs.to_hand()
            },
            Hand::Empty => {
                let cs = Cards { cards: vec![card] };
                proof {
                    assert(cs.cards@ =~= seq![card]);
                }
                cs.to_hand()
            },
            Hand::Hard(_) | Hand::Soft(_) => {
                proof {
                    assert(false);
                }
                *self
            },
        }
    }
}

/// The cards that a list of names decodes to, in order; names that decode
/// to no rank are skipped.
pub open spec fn parsed_cards(strs: Seq<&str>) -> Seq<Card>
    decreases strs.len(),
{
    if strs.len() == 0 {
        Seq::<Card>::empty()
    } else {
        parsed_cards(strs.drop_last()) + match spec_card_from_bytes(strs.last().spec_bytes()) {
            Some(c) => seq![c],
            None => Seq::<Card>::empty(),
        }
    }
}

/// A plain list of cards, kept in deal order.
#[derive(Clone, Debug, PartialEq, Eq, Hash, PartialOrd, Ord)]
pub struct Cards {
    pub cards: Vec<Card>,
}

impl Cards {
    pub fn new() -> (r: Cards)
        ensures
            r.cards@ == Seq::<Card>::empty(),
    {
        let v: Vec<Card> = Vec::new();
        proof {
            assert(v@ =~= Seq::<Card>::empty());
        }
        Cards { cards: v }
    }

    pub fn from_vec(cards: Vec<Card>) -> (r: Cards)
        ensures
            r.cards@ == cards@,
    {
        Cards { cards }
    }

    /// Collects the cards whose text forms decode; others are skipped.
    pub fn new_from_strs(strs: &Vec<&str>) -> (r: Cards)
        ensures
            r.cards@ == parsed_cards(strs@),
    {
        let mut cards: Vec<Card> = Vec::new();
        let mut i: usize = 0;
        while i < strs.len()
            invariant
                0 <= i <= strs@.len(),
                cards@ == parsed_cards(strs@.subrange(0, i as int)),
            decreases strs@.len() - i,
        {
            proof {
                assert(strs@.subrange(0, i + 1).drop_last() =~= strs@.subrange(0, i as int));
                assert(strs@.subrange(0, i + 1).last() == strs@[i as int]);
            }
            if let Some(card) = Card::from_str(strs[i]) {
                cards.push(card);
            }
            i = i + 1;
        }
        proof {
            assert(strs@.subrange(0, strs@.len() as int) =~= strs@);
        }
        Cards { cards }
    }

    pub fn add_mut(&mut self, card: Card)
        ensures
            final(self).cards@ == old(self).cards@.push(card),
    {
        self.cards.push(card);
    }

    pub fn add(&self, card: Card) -> (r: Cards)
        ensures
            r.cards@ == self.cards@.push(card),
    {
        let mut v: Vec<Card> = Vec::new();
        let mut i: usize = 0;
        while i < self.cards.len()
            invariant
                0 <= i <= self.cards@.len(),
                v@ == self.cards@.subrange(0, i as int),
            decreases self.cards@.len() - i,
        {
            v.push(self.cards[i]);
            proof {
                assert(v@ =~= self.cards@.subrange(0, i + 1));
            }
            i = i + 1;
        }
        proof {
            assert(v@ =~= self.cards@);
        }
        v.push(card);
        Cards { cards: v }
    }

    /// The hand these cards make.
    pub fn to_hand(&self) -> (r: Hand)
        requires
            11 * self.cards@.len() <= usize::MAX,
        ensures
            r == hand_of_seq(self.cards@),
            hand_wf(r),
    {
        let s = &self.cards;
        let n = s.len();
        if n == 0 {
            return Hand::Empty;
        }
        if n == 1 {
            let c = s[0];
            if c == Card::Ace {
                return Hand::Soft(HandTotal::Value(11));
            } else {
                return Hand::Hard(HandTotal::Value(c.value()));
            }
        }
        if n == 2 && s[0] == s[1] {
            return Hand::Pair(s[0]);
        }
        let mut total: usize = 0;
        let mut aces: usize = 0;
        let mut i: usize = 0;
        while i < n
            invariant
                0 <= i <= n,
                n == s@.len(),
                11 * s@.len() <= usize::MAX,
                total == raw_sum(s@.subrange(0, i as int)),
                aces == ace_count(s@.subrange(0, i as int)),
                total <= 11 * i,
                aces <= i,
            decreases n - i,
        {
            proof {
                assert(s@.subrange(0, i + 1).drop_last() =~= s@.subrange(0, i as int));
                assert(s@.subrange(0, i + 1).last() == s@[i as int]);
            }
            total = total + s[i].value();
            if s[i] == Card::Ace {
                aces = aces + 1;
            }
            i = i + 1;
        }
        proof {
            assert(s@.subrange(0, n as int) =~= s@);
        }
        let ghost t0: int = total as int;
        let ghost a0: int = aces as int;
        while total > 21 && aces > 0
            invariant
                aces >= 0,
                total >= 0,
                settle(t0, a0) == settle(total as int, aces as int),
            decreases aces,
        {
            total = total - 10;
            aces = aces - 1;
        }
        proof {
            lemma_raw_sum_lower(s@);
            lemma_settle_props(t0, a0);
        }
        if total == 21 && n == 2 {
            Hand::Soft(HandTotal::BlackJack)
        } else if aces > 0 {
            Hand::Soft(HandTotal::Value(total))
        } else if total > 21 {
            Hand::Hard(HandTotal::Burst)
        } else {
            Hand::Hard(HandTotal::Value(total))
        }
    }
}

/// The hand a card sequence makes always meets the hand invariant.
pub proof fn lemma_hand_of_seq_wf(s: Seq<Card>)
    ensures
        hand_wf(hand_of_seq(s)),
{
    lemma_raw_sum_lower(s);
    lemma_settle_props(raw_sum(s), ace_count(s));
}

/// Each card is worth at least two points raw, and aces eleven; so the raw
/// sum dominates eleven per ace plus two per other card.
proof fn lemma_raw_sum_lower(s: Seq<Card>)
    ensures
        0 <= ace_count(s) <= s.len(),
        raw_sum(s) >= 11 * ace_count(s) + 2 * (s.len() - ace_count(s)),
    decreases s.len(),
{
    if s.len() > 0 {
        lemma_raw_sum_lower(s.drop_last());
    }
}

/// Settling only demotes aces that exist, lowers the total by ten per
/// demoted ace, and stops under twenty-two while an eleven-ace remains.
pub proof fn lemma_settle_props(t: int, a: int)
    requires
        a >= 0,
    ensures
        0 <= settle(t, a).1 <= a,
        settle(t, a).0 == t - 10 * (a - settle(t, a).1),
        settle(t, a).1 > 0 ==> settle(t, a).0 <= 21,
        settle(t, a).0 > 21 ==> settle(t, a).1 == 0,
        t <= 21 ==> settle(t, a) == (t, a),
    decreases a,
{
    if t > 21 && a > 0 {
        lemma_settle_props(t - 10, a - 1);
    }
}

} // verus!
