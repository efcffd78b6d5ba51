use vstd::prelude::*;
use crate::card::{Card, all_cards_seq, spec_card_from_bytes};
use crate::hand::Cards;
use crate::rational::{Q, q_wf, q_eq, q_int, q_frac, q_mul, lemma_q_mul_congr, lemma_q_eq_trans};
use crate::bigrat::{BigRational, rat_q, rat_wf, rat_from_i64, rat_from_usize, rat_mul};
use vstd::string::StringSliceAdditionalSpecFns;

verus! {

/// The multiset of undealt cards: one non-negative counter per rank.
#[derive(Clone, Copy, Debug, PartialEq, Eq, Hash, Structural)]
pub struct Deck {
    pub ace: usize,
    pub n2: usize,
    pub n3: usize,
    pub n4: usize,
    pub n5: usize,
    pub n6: usize,
    pub n7: usize,
    pub n8: usize,
    pub n9: usize,
    pub face: usize,
}

pub open spec fn deck_count(d: Deck, c: Card) -> int {
    match c {
        Card::Ace => d.ace as int,
        Card::N2 => d.n2 as int,
        Card::N3 => d.n3 as int,
        Card::N4 => d.n4 as int,
        Card::N5 => d.n5 as int,
        Card::N6 => d.n6 as int,
        Card::N7 => d.n7 as int,
        Card::N8 => d.n8 as int,
        Card::N9 => d.n9 as int,
        Card::Face => d.face as int,
    }
}

/// The rank enumerated at position i of `all_cards_seq`.
pub open spec fn rank_at(i: int) -> Card {
    all_cards_seq()[i]
}

/// Sum of the counters of the first k enumerated ranks.
pub open spec fn count_prefix_total(d: Deck, k: int) -> int
    decreases k,
{
    if k <= 0 {
        0
    } else {
        count_prefix_total(d, k - 1) + deck_count(d, rank_at(k - 1))
    }
}

/// How many cards the deck holds in all.
pub open spec fn deck_total(d: Deck) -> int {
    count_prefix_total(d, 10)
}

/// Whether `a` holds at least as many cards of every rank as `b`.
pub open spec fn deck_geq(a: Deck, b: Deck) -> bool {
    forall|c: Card| #[trigger] deck_count(a, c) >= deck_count(b, c)
}

/// The deck with one card of rank c taken out.
pub open spec fn deck_remove_spec(d: Deck, c: Card) -> Deck {
    match c {
        Card::Ace => Deck { ace: (d.ace - 1) as usize, ..d },
        Card::N2 => Deck { n2: (d.n2 - 1) as usize, ..d },
        Card::N3 => Deck { n3: (d.n3 - 1) as usize, ..d },
        Card::N4 => Deck { n4: (d.n4 - 1) as usize, ..d },
        Card::N5 => Deck { n5: (d.n5 - 1) as usize, ..d },
        Card::N6 => Deck { n6: (d.n6 - 1) as usize, ..d },
        Card::N7 => Deck { n7: (d.n7 - 1) as usize, ..d },
        Card::N8 => Deck { n8: (d.n8 - 1) as usize, ..d },
        Card::N9 => Deck { n9: (d.n9 - 1) as usize, ..d },
        Card::Face => Deck { face: (d.face - 1) as usize, ..d },
    }
}

/// The deck with one card of rank c put back.
pub open spec fn deck_add_spec(d: Deck, c: Card) -> Deck {
    match c {
        Card::Ace => Deck { ace: (d.ace + 1) as usize, ..d },
        Card::N2 => Deck { n2: (d.n2 + 1) as usize, ..d },
        Card::N3 => Deck { n3: (d.n3 + 1) as usize, ..d },
        Card::N4 => Deck { n4: (d.n4 + 1) as usize, ..d },
        Card::N5 => Deck { n5: (d.n5 + 1) as usize, ..d },
        Card::N6 => Deck { n6: (d.n6 + 1) as usize, ..d },
        Card::N7 => Deck { n7: (d.n7 + 1) as usize, ..d },
        Card::N8 => Deck { n8: (d.n8 + 1) as usize, ..d },
        Card::N9 => Deck { n9: (d.n9 + 1) as usize, ..d },
        Card::Face => Deck { face: (d.face + 1) as usize, ..d },
    }
}

/// The deck with no cards.
pub open spec fn deck_zero_spec() -> Deck {
    Deck { ace: 0, n2: 0, n3: 0, n4: 0, n5: 0, n6: 0, n7: 0, n8: 0, n9: 0, face: 0 }
}

/// Pointwise difference of two decks.
pub open spec fn deck_sub_spec(a: Deck, b: Deck) -> Deck {
    Deck {
        ace: (a.ace - b.ace) as usize,
        n2: (a.n2 - b.n2) as usize,
        n3: (a.n3 - b.n3) as usize,
        n4: (a.n4 - b.n4) as usize,
        n5: (a.n5 - b.n5) as usize,
        n6: (a.n6 - b.n6) as usize,
        n7: (a.n7 - b.n7) as usize,
        n8: (a.n8 - b.n8) as usize,
        n9: (a.n9 - b.n9) as usize,
        face: (a.face - b.face) as usize,
    }
}

/// The ranks still present, in enumeration order: the first k ranks filtered
/// by a positive counter.
pub open spec fn remaining_prefix(d: Deck, k: int) -> Seq<Card>
    decreases k,
{
    if k <= 0 {
        Seq::<Card>::empty()
    } else {
        remaining_prefix(d, k - 1) + if deck_count(d, rank_at(k - 1)) > 0 {
            seq![rank_at(k - 1)]
        } else {
            Seq::<Card>::empty()
        }
    }
}

pub open spec fn remaining_seq(d: Deck) -> Seq<Card> {
    remaining_prefix(d, 10)
}

/// Falling factorial: n (n-1) ... (n-k+1), the number of ordered ways to
/// take k items from n.
pub open spec fn ff(n: int, k: int) -> int
    decreases k,
{
    if k <= 0 {
        1
    } else {
        n * ff(n - 1, k - 1)
    }
}

/// Product, over the first k enumerated ranks, of the falling factorials of
/// the deck counter over the delta counter.
pub open spec fn prod_ff_prefix(deck: Deck, draw: Deck, k: int) -> int
    decreases k,
{
    if k <= 0 {
        1
    } else {
        prod_ff_prefix(deck, draw, k - 1) * ff(
            deck_count(deck, rank_at(k - 1)),
            deck_count(draw, rank_at(k - 1)),
        )
    }
}

/// Exact probability of drawing the whole multiset `draw` from `deck` in one
/// unordered batch, as a falling-factorial quotient; exactly zero where any
/// rank runs short.
pub open spec fn spec_draw_prob(deck: Deck, draw: Deck) -> Q {
    if deck_geq(deck, draw) {
        Q { n: prod_ff_prefix(deck, draw, 10), d: ff(deck_total(deck), deck_total(draw)) }
    } else {
        q_int(0)
    }
}

/// A draw probability is a well-formed rational: its denominator is positive.
pub proof fn lemma_spec_draw_prob_wf(deck: Deck, draw: Deck)
    ensures
        q_wf(spec_draw_prob(deck, draw)),
{
    if deck_geq(deck, draw) {
        lemma_prefix_total_mono_upto(deck, draw, 10);
        lemma_prefix_total_nonneg(draw, 10);
        lemma_ff_pos(deck_total(deck), deck_total(draw));
    }
}

pub proof fn lemma_ff_pos(n: int, k: int)
    requires
        0 <= k <= n,
    ensures
        ff(n, k) >= 1,
    decreases k,
{
    if k > 0 {
        lemma_ff_pos(n - 1, k - 1);
        assert(n * ff(n - 1, k - 1) >= 1) by (nonlinear_arith)
            requires
                n >= 1,
                ff(n - 1, k - 1) >= 1,
        {
        }
    }
}

/// Appending the next factor at the tail: n (n-1) ... (n-k+1) (n-k).
pub proof fn lemma_ff_snoc(n: int, k: int)
    requires
        k >= 0,
    ensures
        ff(n, k + 1) == ff(n, k) * (n - k),
    decreases k,
{
    if k == 0 {
        assert(ff(n, 1) == n * ff(n - 1, 0));
    } else {
        lemma_ff_snoc(n - 1, k - 1);
        assert(ff(n, k + 1) == n * ff(n - 1, k));
        assert(ff(n, k) == n * ff(n - 1, k - 1));
        assert(n * (ff(n - 1, k - 1) * (n - k)) == (n * ff(n - 1, k - 1)) * (n - k))
            by (nonlinear_arith);
    }
}

/// Prefix sums respect pointwise domination over the ranks they cover.
pub proof fn lemma_prefix_total_mono_upto(a: Deck, b: Deck, k: int)
    requires
        forall|j: int| 0 <= j < k ==> deck_count(a, #[trigger] rank_at(j)) >= deck_count(
            b,
            rank_at(j),
        ),
    ensures
        count_prefix_total(a, k) >= count_prefix_total(b, k),
    decreases k,
{
    if k > 0 {
        lemma_prefix_total_mono_upto(a, b, k - 1);
    }
}

pub proof fn lemma_prefix_total_nonneg(d: Deck, k: int)
    ensures
        count_prefix_total(d, k) >= 0,
    decreases k,
{
    if k > 0 {
        lemma_prefix_total_nonneg(d, k - 1);
    }
}

/// A prefix sum together with one later counter still fits under a longer
/// prefix sum.
pub proof fn lemma_prefix_plus_count(d: Deck, k: int, i: int)
    requires
        0 <= i < k,
    ensures
        count_prefix_total(d, k) >= count_prefix_total(d, i) + deck_count(d, rank_at(i)),
    decreases k,
{
    if i == k - 1 {
    } else {
        lemma_prefix_plus_count(d, k - 1, i);
    }
}

/// Where a rank sits in the enumeration.
pub open spec fn rank_index(c: Card) -> int {
    match c {
        Card::Ace => 0,
        Card::N2 => 1,
        Card::N3 => 2,
        Card::N4 => 3,
        Card::N5 => 4,
        Card::N6 => 5,
        Card::N7 => 6,
        Card::N8 => 7,
        Card::N9 => 8,
        Card::Face => 9,
    }
}

/// `rank_at` and `rank_index` invert each other on the ten positions.
pub proof fn lemma_rank_at_index(c: Card, j: int)
    requires
        0 <= j < 10,
    ensures
        rank_at(rank_index(c)) == c,
        rank_at(j) == c ==> j == rank_index(c),
{
    assert(rank_at(0) == Card::Ace);
    assert(rank_at(1) == Card::N2);
    assert(rank_at(2) == Card::N3);
    assert(rank_at(3) == Card::N4);
    assert(rank_at(4) == Card::N5);
    assert(rank_at(5) == Card::N6);
    assert(rank_at(6) == Card::N7);
    assert(rank_at(7) == Card::N8);
    assert(rank_at(8) == Card::N9);
    assert(rank_at(9) == Card::Face);
}

/// Taking one card out lowers its own counter by one and no other.
pub proof fn lemma_deck_remove_count(d: Deck, c: Card)
    requires
        deck_count(d, c) >= 1,
    ensures
        forall|x: Card| #[trigger] deck_count(deck_remove_spec(d, c), x) == deck_count(d, x) - if x
            == c {
            1int
        } else {
            0int
        },
{
}

/// Putting one card back raises its own counter by one and no other.
pub proof fn lemma_deck_add_count(d: Deck, c: Card)
    requires
        deck_count(d, c) < usize::MAX,
    ensures
        forall|x: Card| #[trigger] deck_count(deck_add_spec(d, c), x) == deck_count(d, x) + if x
            == c {
            1int
        } else {
            0int
        },
{
}

/// Removing one present card lowers the prefix sums that cover its rank by
/// one and leaves the others alone.
pub proof fn lemma_remove_prefix_total(d: Deck, c: Card, k: int)
    requires
        deck_count(d, c) >= 1,
        k <= 10,
    ensures
        count_prefix_total(deck_remove_spec(d, c), k) == count_prefix_total(d, k) - if rank_index(c)
            < k {
            1int
        } else {
            0int
        },
    decreases k,
{
    lemma_deck_remove_count(d, c);
    if k > 0 {
        lemma_remove_prefix_total(d, c, k - 1);
        lemma_rank_at_index(c, k - 1);
    }
}

/// Removing a present card lowers the deck total by exactly one.
pub proof fn lemma_remove_total(d: Deck, c: Card)
    requires
        deck_count(d, c) >= 1,
    ensures
        deck_total(deck_remove_spec(d, c)) == deck_total(d) - 1,
{
    lemma_remove_prefix_total(d, c, 10);
    assert(0 <= rank_index(c) < 10);
}

/// Adding one card raises the prefix sums that cover its rank by one and
/// leaves the others alone.
pub proof fn lemma_add_prefix_total(d: Deck, c: Card, k: int)
    requires
        deck_count(d, c) < usize::MAX,
        k <= 10,
    ensures
        count_prefix_total(deck_add_spec(d, c), k) == count_prefix_total(d, k) + if rank_index(c)
            < k {
            1int
        } else {
            0int
        },
    decreases k,
{
    lemma_deck_add_count(d, c);
    if k > 0 {
        lemma_add_prefix_total(d, c, k - 1);
        lemma_rank_at_index(c, k - 1);
    }
}

/// Adding a card raises the deck total by exactly one.
pub proof fn lemma_add_total(d: Deck, c: Card)
    requires
        deck_count(d, c) < usize::MAX,
    ensures
        deck_total(deck_add_spec(d, c)) == deck_total(d) + 1,
{
    lemma_add_prefix_total(d, c, 10);
    assert(0 <= rank_index(c) < 10);
}

/// Every single counter sits inside the deck total.
pub proof fn lemma_count_le_total(d: Deck, c: Card)
    ensures
        0 <= deck_count(d, c) <= deck_total(d),
{
    lemma_rank_at_index(c, 0);
    let i = rank_index(c);
    assert(0 <= i < 10 && rank_at(i) == c);
    lemma_prefix_plus_count(d, 10, i);
    lemma_prefix_total_nonneg(d, i);
}

impl Deck {
    /// A shoe of the given number of 52-card decks.
    pub fn new(num_decks: usize) -> (r: Deck)
        requires
            16 * num_decks <= usize::MAX,
        ensures
            r.ace == 4 * num_decks,
            r.n2 == 4 * num_decks,
            r.n3 == 4 * num_decks,
            r.n4 == 4 * num_decks,
            r.n5 == 4 * num_decks,
            r.n6 == 4 * num_decks,
            r.n7 == 4 * num_decks,
            r.n8 == 4 * num_decks,
            r.n9 == 4 * num_decks,
            r.face == 16 * num_decks,
    {
        Deck {
            ace: 4 * num_decks,
            n2: 4 * num_decks,
            n3: 4 * num_decks,
            n4: 4 * num_decks,
            n5: 4 * num_decks,
            n6: 4 * num_decks,
            n7: 4 * num_decks,
            n8: 4 * num_decks,
            n9: 4 * num_decks,
            face: 16 * num_decks,
        }
    }

    /// The empty deck.
    pub fn zero() -> (r: Deck)
        ensures
            r == deck_zero_spec(),
            forall|c: Card| #[trigger] deck_count(r, c) == 0,
    {
        Deck { ace: 0, n2: 0, n3: 0, n4: 0, n5: 0, n6: 0, n7: 0, n8: 0, n9: 0, face: 0 }
    }

    pub fn count(&self, card: Card) -> (r: usize)
        ensures
            r == deck_count(*self, card),
    {
        match card {
            Card::Ace => self.ace,
            Card::N2 => self.n2,
            Card::N3 => self.n3,
            Card::N4 => self.n4,
            Card::N5 => self.n5,
            Card::N6 => self.n6,
            Card::N7 => self.n7,
            Card::N8 => self.n8,
            Card::N9 => self.n9,
            Card::Face => self.face,
        }
    }

    pub fn total_cards(&self) -> (r: usize)
        requires
            deck_total(*self) <= usize::MAX,
        ensures
            r == deck_total(*self),
    {
        proof {
            reveal_with_fuel(count_prefix_total, 11);
        }
        self.ace + self.n2 + self.n3 + self.n4 + self.n5 + self.n6 + self.n7 + self.n8 + self.n9
            + self.face
    }

    pub fn add_mut(&mut self, card: Card)
        requires
            deck_count(*old(self), card) < usize::MAX,
        ensures
            *final(self) == deck_add_spec(*old(self), card),
    {
        match card {
            Card::Ace => self.ace = self.ace + 1,
            Card::N2 => self.n2 = self.n2 + 1,
            Card::N3 => self.n3 = self.n3 + 1,
            Card::N4 => self.n4 = self.n4 + 1,
            Card::N5 => self.n5 = self.n5 + 1,
            Card::N6 => self.n6 = self.n6 + 1,
            Card::N7 => self.n7 = self.n7 + 1,
            Card::N8 => self.n8 = self.n8 + 1,
            Card::N9 => self.n9 = self.n9 + 1,
            Card::Face => self.face = self.face + 1,
        }
    }

    pub fn remove_mut(&mut self, card: Card)
        requires
            deck_count(*old(self), card) >= 1,
        ensures
            *final(self) == deck_remove_spec(*old(self), card),
    {
        match card {
            Card::Ace => self.ace = self.ace - 1,
            Card::N2 => self.n2 = self.n2 - 1,
            Card::N3 => self.n3 = self.n3 - 1,
            Card::N4 => self.n4 = self.n4 - 1,
            Card::N5 => self.n5 = self.n5 - 1,
            Card::N6 => self.n6 = self.n6 - 1,
            Card::N7 => self.n7 = self.n7 - 1,
            Card::N8 => self.n8 = self.n8 - 1,
            Card::N9 => self.n9 = self.n9 - 1,
            Card::Face => self.face = self.face - 1,
        }
    }

    pub fn add(&self, card: Card) -> (r: Deck)
        requires
            deck_count(*self, card) < usize::MAX,
        ensures
            r == deck_add_spec(*self, card),
    {
        let mut n = *self;
        n.add_mut(card);
        n
    }

    pub fn remove(&self, card: Card) -> (r: Deck)
        requires
            deck_count(*self, card) >= 1,
        ensures
            r == deck_remove_spec(*self, card),
    {
        let mut n = *self;
        n.remove_mut(card);
        n
    }

    pub fn remove_mut_deck(&mut self, deck: &Deck)
        requires
            deck_geq(*old(self), *deck),
        ensures
            *final(self) == deck_sub_spec(*old(self), *deck),
    {
        proof {
            assert(deck_count(*old(self), Card::Ace) >= deck_count(*deck, Card::Ace));
            assert(deck_count(*old(self), Card::N2) >= deck_count(*deck, Card::N2));
            assert(deck_count(*old(self), Card::N3) >= deck_count(*deck, Card::N3));
            assert(deck_count(*old(self), Card::N4) >= deck_count(*deck, Card::N4));
            assert(deck_count(*old(self), Card::N5) >= deck_count(*deck, Card::N5));
            assert(deck_count(*old(self), Card::N6) >= deck_count(*deck, Card::N6));
            assert(deck_count(*old(self), Card::N7) >= deck_count(*deck, Card::N7));
            assert(deck_count(*old(self), Card::N8) >= deck_count(*deck, Card::N8));
            assert(deck_count(*old(self), Card::N9) >= deck_count(*deck, Card::N9));
            assert(deck_count(*old(self), Card::Face) >= deck_count(*deck, Card::Face));
        }
        self.ace = self.ace - deck.ace;
        self.n2 = self.n2 - deck.n2;
        self.n3 = self.n3 - deck.n3;
        self.n4 = self.n4 - deck.n4;
        self.n5 = self.n5 - deck.n5;
        self.n6 = self.n6 - deck.n6;
        self.n7 = self.n7 - deck.n7;
        self.n8 = self.n8 - deck.n8;
        self.n9 = self.n9 - deck.n9;
        self.face = self.face - deck.face;
    }

    pub fn remove_deck(&self, deck: &Deck) -> (r: Deck)
        requires
            deck_geq(*self, *deck),
        ensures
            r == deck_sub_spec(*self, *deck),
    {
        let mut n = *self;
        n.remove_mut_deck(deck);
        n
    }

    /// Builds the counters of a list of cards.
    pub fn new_from_cards(cards: &Cards) -> (r: Deck)
        requires
            cards.cards@.len() < usize::MAX,
        ensures
            forall|c: Card| #[trigger] deck_count(r, c) == card_occurrences(cards.cards@, c),
    {
        let mut d = Deck::zero();
        let mut i: usize = 0;
        while i < cards.cards.len()
            invariant
                0 <= i <= cards.cards@.len(),
                cards.cards@.len() < usize::MAX,
                forall|c: Card| #[trigger] deck_count(d, c) == card_occurrences(
                    cards.cards@.subrange(0, i as int),
                    c,
                ),
            decreases cards.cards@.len() - i,
        {
            proof {
                lemma_card_occurrences_le(cards.cards@.subrange(0, i as int));
                assert(cards.cards@.subrange(0, i as int).len() == i);
                assert(cards.cards@.subrange(0, i + 1).drop_last() =~= cards.cards@.subrange(
                    0,
                    i as int,
                ));
                assert(cards.cards@.subrange(0, i + 1).last() == cards.cards@[i as int]);
            }
            let ghost d0 = d;
            d.add_mut(cards.cards[i]);
            proof {
                lemma_deck_add_count(d0, cards.cards@[i as int]);
                assert forall|c: Card| #[trigger] deck_count(d, c) == card_occurrences(
                    cards.cards@.subrange(0, i + 1),
                    c,
                ) by {
                    assert(card_occurrences(cards.cards@.subrange(0, i + 1), c)
                        == card_occurrences(cards.cards@.subrange(0, i as int), c) + if
                        cards.cards@[i as int] == c {
                        1int
                    } else {
                        0int
                    });
                }
            }
            i = i + 1;
        }
        proof {
            assert(cards.cards@.subrange(0, cards.cards@.len() as int) =~= cards.cards@);
        }
        d
    }

    /// Builds the counters of a list of rank names; names that decode to no
    /// rank are skipped.
    pub fn new_from_strs(strs: &Vec<&str>) -> (r: Deck)
        requires
            strs@.len() < usize::MAX,
        ensures
            forall|c: Card| #[trigger] deck_count(r, c) == parsed_occurrences(strs@, c),
    {
        let mut d = Deck::zero();
        let mut i: usize = 0;
        while i < strs.len()
            invariant
                0 <= i <= strs@.len(),
                strs@.len() < usize::MAX,
                forall|c: Card| #[trigger] deck_count(d, c) == parsed_occurrences(
                    strs@.subrange(0, i as int),
                    c,
                ),
            decreases strs@.len() - i,
        {
            proof {
                lemma_parsed_occurrences_le(strs@.subrange(0, i as int));
                assert(strs@.subrange(0, i as int).len() == i);
                assert(strs@.subrange(0, i + 1).drop_last() =~= strs@.subrange(0, i as int));
                assert(strs@.subrange(0, i + 1).last() == strs@[i as int]);
            }
            let ghost d0 = d;
            let parsed = Card::from_str(strs[i]);
            if let Some(card) = parsed {
                d.add_mut(card);
            }
            proof {
                if parsed is Some {
                    lemma_deck_add_count(d0, parsed->0);
                }
                assert forall|c: Card| #[trigger] deck_count(d, c) == parsed_occurrences(
                    strs@.subrange(0, i + 1),
                    c,
                ) by {
                    assert(parsed_occurrences(strs@.subrange(0, i + 1), c) == parsed_occurrences(
                        strs@.subrange(0, i as int),
                        c,
                    ) + if spec_card_from_bytes(strs@[i as int].spec_bytes()) == Some(c) {
                        1int
                    } else {
                        0int
                    });
                }
            }
            i = i + 1;
        }
        proof {
            assert(strs@.subrange(0, strs@.len() as int) =~= strs@);
        }
        d
    }

    /// The ranks with at least one card left, in enumeration order.
    pub fn remaining_ranks(&self) -> (r: Vec<Card>)
        ensures
            r@ == remaining_seq(*self),
    {
        let all = Card::all();
        let mut v: Vec<Card> = Vec::new();
        let mut i: usize = 0;
        while i < 10
            invariant
                0 <= i <= 10,
                all@ == all_cards_seq(),
                v@ == remaining_prefix(*self, i as int),
            decreases 10 - i,
        {
            if self.count(all[i]) > 0 {
                v.push(all[i]);
                proof {
                    assert(v@ =~= remaining_prefix(*self, i as int) + seq![rank_at(i as int)]);
                }
            } else {
                proof {
                    assert(v@ =~= remaining_prefix(*self, i as int) + Seq::<Card>::empty());
                }
            }
            i = i + 1;
        }
        v
    }

    /// Exact probability of the next single draw being the given rank.
    pub fn draw_probability(&self, target: Card) -> (r: BigRational)
        requires
            0 < deck_total(*self) <= usize::MAX,
        ensures
            rat_wf(r),
            q_eq(rat_q(r), q_frac(deck_count(*self, target), deck_total(*self))),
    {
        let c = self.count(target);
        let t = self.total_cards();
        rat_from_usize(c, t)
    }

    /// Exact probability of drawing the whole multiset `draw` from this deck
    /// in one unordered batch, by a sequential without-replacement
    /// falling-factorial product; exactly zero where any rank runs short.
    pub fn deck_draw_probability(&self, draw: &Deck) -> (r: BigRational)
        requires
            deck_total(*self) <= usize::MAX,
        ensures
            rat_wf(r),
            q_eq(rat_q(r), spec_draw_prob(*self, *draw)),
    {
        let all = Card::all();
        let total0 = self.total_cards();
        let mut t: usize = total0;
        let mut acc: BigRational = rat_from_i64(1);
        let ghost dtotal: int = deck_total(*self);
        let mut i: usize = 0;
        while i < 10
            invariant
                0 <= i <= 10,
                all@ == all_cards_seq(),
                deck_total(*self) <= usize::MAX,
                dtotal == deck_total(*self),
                total0 == dtotal,
                forall|j: int| 0 <= j < i ==> deck_count(*self, #[trigger] rank_at(j))
                    >= deck_count(*draw, rank_at(j)),
                t == dtotal - count_prefix_total(*draw, i as int),
                t >= 0,
                rat_wf(acc),
                q_eq(
                    rat_q(acc),
                    Q {
                        n: prod_ff_prefix(*self, *draw, i as int),
                        d: ff(dtotal, count_prefix_total(*draw, i as int)),
                    },
                ),
                ff(dtotal, count_prefix_total(*draw, i as int)) >= 1,
                prod_ff_prefix(*self, *draw, i as int) >= 1,
            decreases 10 - i,
        {
            let rank = all[i];
            let dc = draw.count(rank);
            let sc = self.count(rank);
            if dc > 0 {
                if sc < dc {
                    let z = rat_from_i64(0);
                    proof {
                        assert(!deck_geq(*self, *draw));
                        assert(q_eq(rat_q(z), q_int(0)));
                    }
                    return z;
                }
                // the remaining total still covers this whole rank
                proof {
                    lemma_prefix_plus_count(*self, 10, i as int);
                    lemma_prefix_total_mono_upto(*self, *draw, i as int);
                }
                let mut m: usize = 0;
                while m < dc
                    invariant
                        0 <= m <= dc,
                        i < 10,
                        all@ == all_cards_seq(),
                        rank == rank_at(i as int),
                        dc == deck_count(*draw, rank_at(i as int)),
                        sc == deck_count(*self, rank_at(i as int)),
                        sc >= dc,
                        deck_total(*self) <= usize::MAX,
                        dtotal == deck_total(*self),
                        forall|j: int| 0 <= j < i ==> deck_count(*self, #[trigger] rank_at(j))
                            >= deck_count(*draw, rank_at(j)),
                        t == dtotal - count_prefix_total(*draw, i as int) - m,
                        t >= sc - dc + (dc - m),
                        rat_wf(acc),
                        q_eq(
                            rat_q(acc),
                            Q {
                                n: prod_ff_prefix(*self, *draw, i as int) * ff(sc - dc + m, m as int),
                                d: ff(dtotal, count_prefix_total(*draw, i as int) + m),
                            },
                        ),
                        ff(dtotal, count_prefix_total(*draw, i as int) + m) >= 1,
                        prod_ff_prefix(*self, *draw, i as int) * ff(sc - dc + m, m as int) >= 1,
                    decreases dc - m,
                {
                    let c: usize = sc - dc + 1 + m;
                    let factor = rat_from_usize(c, t);
                    let ghost oldacc = acc;
                    acc = rat_mul(&acc, &factor);
                    proof {
                        let p = prod_ff_prefix(*self, *draw, i as int);
                        let u = count_prefix_total(*draw, i as int);
                        lemma_prefix_total_nonneg(*draw, i as int);
                        let mid1 = Q { n: p * ff(sc - dc + m, m as int), d: ff(dtotal, u + m) };
                        let step = Q { n: c as int, d: t as int };
                        lemma_q_mul_congr(rat_q(oldacc), mid1, rat_q(factor), step);
                        lemma_q_eq_trans(rat_q(acc), q_mul(rat_q(oldacc), rat_q(factor)), q_mul(mid1, step));
                        // tail-extend numerator and denominator factorials
                        assert(ff(sc - dc + m + 1, m + 1) == (sc - dc + m + 1) * ff(sc - dc + m, m as int));
                        lemma_ff_snoc(dtotal, u + m);
                        assert(q_mul(mid1, step).n == (p * ff(sc - dc + m, m as int)) * c);
                        assert((p * ff(sc - dc + m, m as int)) * c == p * (ff(sc - dc + m, m as int) * c))
                            by (nonlinear_arith);
                        assert(ff(sc - dc + m, m as int) * c == c * ff(sc - dc + m, m as int))
                            by (nonlinear_arith);
                        assert(p * ff(sc - dc + m + 1, m + 1) == q_mul(mid1, step).n);
                        assert(t == dtotal - (u + m));
                        assert(ff(dtotal, u + m + 1) == ff(dtotal, u + m) * t);
                        assert(ff(dtotal, u + m) * t == q_mul(mid1, step).d);
                        let mid2 = Q { n: p * ff(sc - dc + m + 1, m + 1), d: ff(dtotal, u + m + 1) };
                        assert(q_mul(mid1, step) == mid2);
                        assert(mid2.d >= 1) by {
                            assert(ff(dtotal, u + m) >= 1);
                            assert(t >= 1);
                            assert(ff(dtotal, u + m) * t >= 1) by (nonlinear_arith)
                                requires
                                    ff(dtotal, u + m) >= 1,
                                    t >= 1,
                            {
                            }
                        }
                        assert(mid2.n >= 1) by {
                            lemma_ff_pos(sc - dc + m + 1, m + 1);
                            assert(p >= 1) by {
                                assert(p * ff(sc - dc + m, m as int) >= 1);
                                assert(ff(sc - dc + m, m as int) >= 1) by {
                                    lemma_ff_pos(sc - dc + m, m as int);
                                }
                                assert(p * ff(sc - dc + m, m as int) >= 1 && ff(sc - dc + m, m as int) >= 1
                                    ==> p >= 1) by (nonlinear_arith);
                            }
                            assert(p * ff(sc - dc + m + 1, m + 1) >= 1) by (nonlinear_arith)
                                requires
                                    p >= 1,
                                    ff(sc - dc + m + 1, m + 1) >= 1,
                            {
                            }
                        }
                    }
                    t = t - 1;
                    m = m + 1;
                }
            }
            proof {
                assert(prod_ff_prefix(*self, *draw, i + 1) == prod_ff_prefix(*self, *draw, i as int)
                    * ff(deck_count(*self, rank_at(i as int)), deck_count(*draw, rank_at(i as int))));
                if dc == 0 {
                    assert(ff(deck_count(*self, rank_at(i as int)), 0) == 1);
                    assert(prod_ff_prefix(*self, *draw, i + 1) == prod_ff_prefix(*self, *draw, i as int)
                        * 1);
                }
                assert(count_prefix_total(*draw, i + 1) == count_prefix_total(*draw, i as int)
                    + deck_count(*draw, rank_at(i as int)));
            }
            i = i + 1;
        }
        proof {
            assert(deck_geq(*self, *draw)) by {
                assert forall|c: Card| #[trigger] deck_count(*self, c) >= deck_count(*draw, c) by {
                    lemma_rank_at_covers(c);
                }
            }
        }
        acc
    }
}

/// Every rank occurs somewhere in the enumeration.
pub proof fn lemma_rank_at_covers(c: Card)
    ensures
        exists|i: int| 0 <= i < 10 && rank_at(i) == c,
{
    match c {
        Card::Ace => assert(rank_at(0) == c),
        Card::N2 => assert(rank_at(1) == c),
        Card::N3 => assert(rank_at(2) == c),
        Card::N4 => assert(rank_at(3) == c),
        Card::N5 => assert(rank_at(4) == c),
        Card::N6 => assert(rank_at(5) == c),
        Card::N7 => assert(rank_at(6) == c),
        Card::N8 => assert(rank_at(7) == c),
        Card::N9 => assert(rank_at(8) == c),
        Card::Face => assert(rank_at(9) == c),
    }
}

/// How many times a rank occurs in a card sequence.
pub open spec fn card_occurrences(s: Seq<Card>, c: Card) -> int
    decreases s.len(),
{
    if s.len() == 0 {
        0
    } else {
        card_occurrences(s.drop_last(), c) + if s.last() == c {
            1int
        } else {
            0int
        }
    }
}

proof fn lemma_card_occurrences_le(s: Seq<Card>)
    ensures
        forall|x: Card| 0 <= #[trigger] card_occurrences(s, x) <= s.len(),
    decreases s.len(),
{
    if s.len() > 0 {
        lemma_card_occurrences_le(s.drop_last());
        assert forall|x: Card| 0 <= #[trigger] card_occurrences(s, x) <= s.len() by {
            assert(card_occurrences(s, x) == card_occurrences(s.drop_last(), x) + if s.last() == x {
                1int
            } else {
                0int
            });
        }
    }
}

/// How many entries of a list of names decode to the given rank.
pub open spec fn parsed_occurrences(s: Seq<&str>, c: Card) -> int
    decreases s.len(),
{
    if s.len() == 0 {
        0
    } else {
        parsed_occurrences(s.drop_last(), c) + if spec_card_from_bytes(s.last().spec_bytes())
            == Some(c) {
            1int
        } else {
            0int
        }
    }
}

proof fn lemma_parsed_occurrences_le(s: Seq<&str>)
    ensures
        forall|x: Card| 0 <= #[trigger] parsed_occurrences(s, x) <= s.len(),
    decreases s.len(),
{
    if s.len() > 0 {
        lemma_parsed_occurrences_le(s.drop_last());
        assert forall|x: Card| 0 <= #[trigger] parsed_occurrences(s, x) <= s.len() by {
            assert(parsed_occurrences(s, x) == parsed_occurrences(s.drop_last(), x) + if
                spec_card_from_bytes(s.last().spec_bytes()) == Some(x) {
                1int
            } else {
                0int
            });
        }
    }
}

pub proof fn lemma_deck_zero_total()
    ensures
        deck_total(deck_zero_spec()) == 0,
{
    lemma_zero_prefix(10);
}

proof fn lemma_zero_prefix(k: int)
    ensures
        count_prefix_total(deck_zero_spec(), k) == 0,
    decreases k,
{
    if k > 0 {
        lemma_zero_prefix(k - 1);
    }
}

/// At most one entry per rank covered.
pub proof fn lemma_remaining_len(d: Deck, k: int)
    ensures
        remaining_prefix(d, k).len() <= if k >= 0 {
            k
        } else {
            0int
        },
    decreases k,
{
    if k > 0 {
        lemma_remaining_len(d, k - 1);
    }
}

/// Members of the remaining-ranks list really have a card left.
pub proof fn lemma_remaining_mem(d: Deck, k: int)
    ensures
        forall|j: int| 0 <= j < remaining_prefix(d, k).len() ==> deck_count(
            d,
            #[trigger] remaining_prefix(d, k)[j],
        ) > 0,
    decreases k,
{
    if k > 0 {
        lemma_remaining_mem(d, k - 1);
        let prev = remaining_prefix(d, k - 1);
        let cur = remaining_prefix(d, k);
        assert forall|j: int| 0 <= j < cur.len() implies deck_count(d, #[trigger] cur[j]) > 0 by {
            if j < prev.len() {
                assert(cur[j] == prev[j]);
            } else {
                assert(deck_count(d, rank_at(k - 1)) > 0);
                assert(cur[j] == rank_at(k - 1));
            }
        }
    }
}

} // verus!
