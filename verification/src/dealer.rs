use vstd::prelude::*;
use crate::card::{Card, card_value, all_cards_seq};
use crate::hand::{HandTotal, settle};
use crate::deck::{
    Deck, deck_count, deck_total, rank_at, rank_index, count_prefix_total, deck_add_spec,
    deck_remove_spec, spec_draw_prob, lemma_spec_draw_prob_wf, lemma_deck_add_count,
    lemma_deck_remove_count, lemma_remove_total, lemma_prefix_total_nonneg, lemma_rank_at_index,
};
use crate::rational::{
    Q, q_wf, q_eq, q_int, q_add, q_mul, lemma_q_add_congr, lemma_q_mul_congr, lemma_q_eq_trans,
};
use crate::bigrat::{BigRational, rat_q, rat_wf, rat_from_i64, rat_from_u64, rat_add, rat_mul};

verus! {

/// Per terminal category, the deltas a dealer round can draw and how many
/// draw orders reach each delta: the dealer-outcome table for one upcard.
pub struct DealerHandDeckMap {
    pub value_17: Vec<(Deck, u64)>,
    pub value_18: Vec<(Deck, u64)>,
    pub value_19: Vec<(Deck, u64)>,
    pub value_20: Vec<(Deck, u64)>,
    pub value_21: Vec<(Deck, u64)>,
    pub burst: Vec<(Deck, u64)>,
    pub blackjack: Vec<(Deck, u64)>,
}

/// The dealer-outcome tables for all ten upcards.
pub struct DealerTables {
    pub ace: DealerHandDeckMap,
    pub n2: DealerHandDeckMap,
    pub n3: DealerHandDeckMap,
    pub n4: DealerHandDeckMap,
    pub n5: DealerHandDeckMap,
    pub n6: DealerHandDeckMap,
    pub n7: DealerHandDeckMap,
    pub n8: DealerHandDeckMap,
    pub n9: DealerHandDeckMap,
    pub face: DealerHandDeckMap,
}

/// The seven terminal categories of a dealer round, in the order the
/// distribution is walked.
pub open spec fn cat_seq() -> Seq<HandTotal> {
    seq![
        HandTotal::Value(17),
        HandTotal::Value(18),
        HandTotal::Value(19),
        HandTotal::Value(20),
        HandTotal::Value(21),
        HandTotal::BlackJack,
        HandTotal::Burst,
    ]
}

pub open spec fn is_dealer_cat(cat: HandTotal) -> bool {
    cat == HandTotal::Value(17) || cat == HandTotal::Value(18) || cat == HandTotal::Value(19)
        || cat == HandTotal::Value(20) || cat == HandTotal::Value(21) || cat
        == HandTotal::BlackJack || cat == HandTotal::Burst
}

pub open spec fn map_entries(m: DealerHandDeckMap, cat: HandTotal) -> Seq<(Deck, u64)> {
    if cat == HandTotal::Value(17) {
        m.value_17@
    } else if cat == HandTotal::Value(18) {
        m.value_18@
    } else if cat == HandTotal::Value(19) {
        m.value_19@
    } else if cat == HandTotal::Value(20) {
        m.value_20@
    } else if cat == HandTotal::Value(21) {
        m.value_21@
    } else if cat == HandTotal::BlackJack {
        m.blackjack@
    } else {
        m.burst@
    }
}

pub open spec fn table_get(t: DealerTables, up: Card) -> DealerHandDeckMap {
    match up {
        Card::Ace => t.ace,
        Card::N2 => t.n2,
        Card::N3 => t.n3,
        Card::N4 => t.n4,
        Card::N5 => t.n5,
        Card::N6 => t.n6,
        Card::N7 => t.n7,
        Card::N8 => t.n8,
        Card::N9 => t.n9,
        Card::Face => t.face,
    }
}

pub open spec fn table_entries(t: DealerTables, up: Card, cat: HandTotal) -> Seq<(Deck, u64)> {
    map_entries(table_get(t, up), cat)
}

/// Sum over table entries of draw probability times multiplicity: the exact
/// chance that a dealer round from this deck ends in the entries' category.
pub open spec fn entries_sum(deck: Deck, es: Seq<(Deck, u64)>) -> Q
    decreases es.len(),
{
    if es.len() == 0 {
        q_int(0)
    } else {
        q_add(
            entries_sum(deck, es.drop_last()),
            q_mul(spec_draw_prob(deck, es.last().0), q_int(es.last().1 as int)),
        )
    }
}

/// The exact probability of one dealer-outcome category for a deck and an
/// upcard, as the table gives it.
pub open spec fn spec_dist(t: DealerTables, deck: Deck, up: Card, cat: HandTotal) -> Q {
    entries_sum(deck, table_entries(t, up, cat))
}

/// A recorded table row: at least one drawn card, a settled total the
/// dealer stops on, and at least one draw order reaching it.
pub open spec fn entry_terminal(up: Card, e: (Deck, u64)) -> bool {
    e.1 >= 1 && deck_total(e.0) >= 1 && dealer_total(up, e.0) >= 17
}

/// Every row is a terminal of the dealer round with a positive order
/// count, and only an ace or a face upcard can have natural-blackjack
/// outcomes.
pub open spec fn map_wf(m: DealerHandDeckMap, up: Card) -> bool {
    &&& (forall|i: int| 0 <= i < m.value_17@.len() ==> entry_terminal(up, #[trigger] m.value_17@[i]))
    &&& (forall|i: int| 0 <= i < m.value_18@.len() ==> entry_terminal(up, #[trigger] m.value_18@[i]))
    &&& (forall|i: int| 0 <= i < m.value_19@.len() ==> entry_terminal(up, #[trigger] m.value_19@[i]))
    &&& (forall|i: int| 0 <= i < m.value_20@.len() ==> entry_terminal(up, #[trigger] m.value_20@[i]))
    &&& (forall|i: int| 0 <= i < m.value_21@.len() ==> entry_terminal(up, #[trigger] m.value_21@[i]))
    &&& (forall|i: int| 0 <= i < m.burst@.len() ==> entry_terminal(up, #[trigger] m.burst@[i]))
    &&& (forall|i: int| 0 <= i < m.blackjack@.len() ==> entry_terminal(up, #[trigger] m.blackjack@[i]))
    &&& (up != Card::Ace && up != Card::Face ==> m.blackjack@.len() == 0)
}

pub open spec fn tables_wf(t: DealerTables) -> bool {
    &&& map_wf(t.ace, Card::Ace)
    &&& map_wf(t.n2, Card::N2)
    &&& map_wf(t.n3, Card::N3)
    &&& map_wf(t.n4, Card::N4)
    &&& map_wf(t.n5, Card::N5)
    &&& map_wf(t.n6, Card::N6)
    &&& map_wf(t.n7, Card::N7)
    &&& map_wf(t.n8, Card::N8)
    &&& map_wf(t.n9, Card::N9)
    &&& map_wf(t.face, Card::Face)
}

/// An entries sum is a well-formed rational.
pub proof fn lemma_entries_sum_wf(deck: Deck, es: Seq<(Deck, u64)>)
    ensures
        q_wf(entries_sum(deck, es)),
    decreases es.len(),
{
    if es.len() > 0 {
        lemma_entries_sum_wf(deck, es.drop_last());
        lemma_spec_draw_prob_wf(deck, es.last().0);
        let a = entries_sum(deck, es.drop_last());
        let b = q_mul(spec_draw_prob(deck, es.last().0), q_int(es.last().1 as int));
        assert(b.d > 0) by (nonlinear_arith)
            requires
                spec_draw_prob(deck, es.last().0).d > 0,
                b.d == spec_draw_prob(deck, es.last().0).d * 1,
        {
        }
        assert(q_add(a, b).d == a.d * b.d);
        assert(a.d * b.d > 0) by (nonlinear_arith)
            requires
                a.d > 0,
                b.d > 0,
        {
        }
    }
}

// ---------------------------------------------------------------------------
// The dealer round itself: totals over a delta plus the upcard.
// ---------------------------------------------------------------------------

/// Sum of counter times point value over the first k enumerated ranks.
pub open spec fn raw_prefix(d: Deck, k: int) -> int
    decreases k,
{
    if k <= 0 {
        0
    } else {
        raw_prefix(d, k - 1) + deck_count(d, rank_at(k - 1)) * card_value(rank_at(k - 1))
    }
}

/// Raw point sum of the upcard and the drawn delta, aces counted eleven.
pub open spec fn dealer_raw(up: Card, d: Deck) -> int {
    card_value(up) + raw_prefix(d, 10)
}

pub open spec fn dealer_aces(up: Card, d: Deck) -> int {
    deck_count(d, Card::Ace) + if up == Card::Ace {
        1int
    } else {
        0int
    }
}

/// The settled total of the dealer's upcard plus the delta.
pub open spec fn dealer_total(up: Card, d: Deck) -> int {
    settle(dealer_raw(up, d), dealer_aces(up, d)).0
}

/// The total with every ace counted one: a floor for the settled total.
pub open spec fn dealer_hard_min(up: Card, d: Deck) -> int {
    dealer_raw(up, d) - 10 * dealer_aces(up, d)
}

proof fn lemma_raw_prefix_min(d: Deck, k: int)
    requires
        1 <= k <= 10,
    ensures
        raw_prefix(d, k) - 10 * deck_count(d, Card::Ace) >= count_prefix_total(d, k),
    decreases k,
{
    assert(rank_at(0) == Card::Ace);
    if k == 1 {
        assert(raw_prefix(d, 1) == raw_prefix(d, 0) + deck_count(d, Card::Ace) * card_value(
            Card::Ace,
        ));
        assert(count_prefix_total(d, 1) == count_prefix_total(d, 0) + deck_count(d, Card::Ace));
        assert(deck_count(d, Card::Ace) * 11 - 10 * deck_count(d, Card::Ace) == deck_count(
            d,
            Card::Ace,
        )) by (nonlinear_arith);
    } else {
        lemma_raw_prefix_min(d, k - 1);
        lemma_rank_at_index(Card::Ace, k - 1);
        assert(rank_at(k - 1) != Card::Ace);
        assert(card_value(rank_at(k - 1)) >= 2);
        assert(deck_count(d, rank_at(k - 1)) * card_value(rank_at(k - 1)) >= deck_count(
            d,
            rank_at(k - 1),
        )) by (nonlinear_arith)
            requires
                deck_count(d, rank_at(k - 1)) >= 0,
                card_value(rank_at(k - 1)) >= 2,
        {
        }
    }
}

/// The hard floor, and so the settled total, always exceeds the number of
/// drawn cards.
pub proof fn lemma_dealer_total_floor(up: Card, d: Deck)
    ensures
        dealer_hard_min(up, d) >= 1 + deck_total(d),
        dealer_total(up, d) >= dealer_hard_min(up, d),
{
    lemma_raw_prefix_min(d, 10);
    assert(card_value(up) - 10 * if up == Card::Ace {
        1int
    } else {
        0int
    } >= 1);
    let raw = dealer_raw(up, d);
    let aces = dealer_aces(up, d);
    crate::hand::lemma_settle_props(raw, aces);
    assert(10 * (aces - settle(raw, aces).1) <= 10 * aces) by (nonlinear_arith)
        requires
            settle(raw, aces).1 >= 0,
    {
    }
}

/// Adding one card shifts the raw prefix sums by its value.
proof fn lemma_add_raw_prefix(d: Deck, c: Card, k: int)
    requires
        deck_count(d, c) < usize::MAX,
        k <= 10,
    ensures
        raw_prefix(deck_add_spec(d, c), k) == raw_prefix(d, k) + if rank_index(c) < k {
            card_value(c)
        } else {
            0int
        },
    decreases k,
{
    lemma_deck_add_count(d, c);
    if k > 0 {
        lemma_add_raw_prefix(d, c, k - 1);
        lemma_rank_at_index(c, k - 1);
        if rank_at(k - 1) == c {
            assert((deck_count(d, c) + 1) * card_value(c) == deck_count(d, c) * card_value(c)
                + card_value(c)) by (nonlinear_arith);
        }
    }
}

/// Removing one card shifts the raw prefix sums by its value.
proof fn lemma_remove_raw_prefix(d: Deck, c: Card, k: int)
    requires
        deck_count(d, c) >= 1,
        k <= 10,
    ensures
        raw_prefix(deck_remove_spec(d, c), k) == raw_prefix(d, k) - if rank_index(c) < k {
            card_value(c)
        } else {
            0int
        },
    decreases k,
{
    lemma_deck_remove_count(d, c);
    if k > 0 {
        lemma_remove_raw_prefix(d, c, k - 1);
        lemma_rank_at_index(c, k - 1);
        if rank_at(k - 1) == c {
            assert((deck_count(d, c) - 1) * card_value(c) == deck_count(d, c) * card_value(c)
                - card_value(c)) by (nonlinear_arith);
        }
    }
}

/// Adding a card raises the hard floor by at least one.
pub proof fn lemma_hard_min_add(up: Card, d: Deck, c: Card)
    requires
        deck_count(d, c) < usize::MAX,
    ensures
        dealer_hard_min(up, deck_add_spec(d, c)) == dealer_hard_min(up, d) + if c == Card::Ace {
            1int
        } else {
            card_value(c)
        },
{
    lemma_add_raw_prefix(d, c, 10);
    lemma_deck_add_count(d, c);
    assert(0 <= rank_index(c) < 10);
}

// ---------------------------------------------------------------------------
// Executable total, ordering counts, and table generation.
// ---------------------------------------------------------------------------

/// The settled dealer total of upcard plus delta.
fn dealer_total_exec(up: Card, d: &Deck) -> (r: usize)
    requires
        deck_total(*d) <= 40,
    ensures
        r == dealer_total(up, *d),
{
    let all = Card::all();
    let mut raw: usize = up.value();
    let mut i: usize = 0;
    while i < 10
        invariant
            0 <= i <= 10,
            all@ == all_cards_seq(),
            deck_total(*d) <= 40,
            raw == card_value(up) + raw_prefix(*d, i as int),
            raw <= 11 + 11 * count_prefix_total(*d, i as int),
        decreases 10 - i,
    {
        proof {
            lemma_prefix_total_nonneg(*d, i as int);
            crate::deck::lemma_prefix_plus_count(*d, 10, i as int);
            assert(deck_count(*d, rank_at(i as int)) * card_value(rank_at(i as int)) <= 11
                * deck_count(*d, rank_at(i as int))) by (nonlinear_arith)
                requires
                    deck_count(*d, rank_at(i as int)) >= 0,
                    card_value(rank_at(i as int)) <= 11,
            {
            }
            assert(deck_count(*d, rank_at(i as int)) * card_value(rank_at(i as int)) >= 0)
                by (nonlinear_arith)
                requires
                    deck_count(*d, rank_at(i as int)) >= 0,
                    card_value(rank_at(i as int)) >= 0,
            {
            }
        }
        raw = raw + d.count(all[i]) * all[i].value();
        i = i + 1;
    }
    proof {
        crate::deck::lemma_count_le_total(*d, Card::Ace);
    }
    let mut aces: usize = d.count(Card::Ace);
    if up == Card::Ace {
        aces = aces + 1;
    }
    let ghost t0: int = raw as int;
    let ghost a0: int = aces as int;
    let mut total = raw;
    while total > 21 && aces > 0
        invariant
            aces >= 0,
            total >= 0,
            settle(t0, a0) == settle(total as int, aces as int),
        decreases aces,
    {
        total = total - 10;
        aces = aces - 1;
    }
    total
}

/// The hard floor of upcard plus delta, every ace counted one.
fn dealer_hard_min_exec(up: Card, d: &Deck) -> (r: usize)
    requires
        deck_total(*d) <= 40,
    ensures
        r == dealer_hard_min(up, *d),
{
    let all = Card::all();
    let mut hm: usize = if up == Card::Ace {
        1
    } else {
        up.value()
    };
    let mut i: usize = 0;
    while i < 10
        invariant
            0 <= i <= 10,
            all@ == all_cards_seq(),
            deck_total(*d) <= 40,
            hm == card_value(up) - 10 * (if up == Card::Ace {
                1int
            } else {
                0int
            }) + raw_prefix(*d, i as int) - 10 * (if i >= 1 {
                deck_count(*d, Card::Ace)
            } else {
                0int
            }),
            hm <= 11 + 11 * count_prefix_total(*d, i as int),
        decreases 10 - i,
    {
        proof {
            lemma_prefix_total_nonneg(*d, i as int);
            crate::deck::lemma_prefix_plus_count(*d, 10, i as int);
            lemma_rank_at_index(Card::Ace, i as int);
            if i >= 1 {
                assert(rank_at(i as int) != Card::Ace);
            } else {
                assert(rank_at(0) == Card::Ace);
            }
            assert(deck_count(*d, rank_at(i as int)) * card_value(rank_at(i as int)) <= 11
                * deck_count(*d, rank_at(i as int))) by (nonlinear_arith)
                requires
                    deck_count(*d, rank_at(i as int)) >= 0,
                    card_value(rank_at(i as int)) <= 11,
            {
            }
            assert(deck_count(*d, rank_at(i as int)) * card_value(rank_at(i as int)) >= 0)
                by (nonlinear_arith)
                requires
                    deck_count(*d, rank_at(i as int)) >= 0,
                    card_value(rank_at(i as int)) >= 0,
            {
            }
        }
        let rank = all[i];
        if rank == Card::Ace {
            hm = hm + d.count(rank);
            proof {
                assert(deck_count(*d, Card::Ace) * card_value(Card::Ace) == 11 * deck_count(
                    *d,
                    Card::Ace,
                )) by (nonlinear_arith);
            }
        } else {
            hm = hm + d.count(rank) * rank.value();
        }
        i = i + 1;
    }
    hm
}

/// Ten to the k-th power; a coarse but convenient bound for ordering counts.
pub open spec fn pow10(k: int) -> int
    decreases k,
{
    if k <= 0 {
        1
    } else {
        10 * pow10(k - 1)
    }
}

proof fn lemma_pow10_mono(j: int, k: int)
    requires
        j <= k,
    ensures
        1 <= pow10(j) <= pow10(k),
    decreases k,
{
    if k > 0 {
        if j == k {
            lemma_pow10_mono(j - 1, k - 1);
            assert(10 * pow10(k - 1) >= pow10(k - 1)) by (nonlinear_arith)
                requires
                    pow10(k - 1) >= 1,
            {
            }
        } else {
            lemma_pow10_mono(j, k - 1);
            assert(10 * pow10(k - 1) >= pow10(k - 1)) by (nonlinear_arith)
                requires
                    pow10(k - 1) >= 1,
            {
            }
        }
    }
}

proof fn lemma_pow10_16()
    ensures
        pow10(16) == 0x2386f26fc10000,
{
    reveal_with_fuel(pow10, 17);
}

/// How many draw orders realize the delta as a still-running dealer prefix:
/// every prefix, with the upcard, stays under seventeen. Zero once the
/// settled total reaches seventeen.
fn valid_prefix_count(up: Card, delta: &Deck) -> (r: u64)
    requires
        deck_total(*delta) <= 27,
    ensures
        r <= pow10(deck_total(*delta)),
        dealer_total(up, *delta) >= 17 ==> r == 0,
    decreases deck_total(*delta),
{
    proof {
        lemma_prefix_total_nonneg(*delta, 10);
        lemma_pow10_mono(0, deck_total(*delta));
    }
    let t = dealer_total_exec(up, delta);
    if t >= 17 {
        return 0;
    }
    proof {
        lemma_dealer_total_floor(up, *delta);
        assert(deck_total(*delta) <= 15);
    }
    let total = delta.total_cards();
    if total == 0 {
        return 1;
    }
    let all = Card::all();
    let mut sum: u64 = 0;
    let mut i: usize = 0;
    while i < 10
        invariant
            0 <= i <= 10,
            all@ == all_cards_seq(),
            1 <= deck_total(*delta) <= 15,
            dealer_total(up, *delta) < 17,
            sum <= i * pow10(deck_total(*delta) - 1),
        decreases 10 - i,
    {
        let rank = all[i];
        if delta.count(rank) > 0 {
            let sub = delta.remove(rank);
            proof {
                lemma_remove_total(*delta, rank_at(i as int));
                lemma_pow10_mono(deck_total(sub), 14);
                lemma_pow10_16();
                lemma_pow10_mono(14, 16);
                assert(i * pow10(deck_total(*delta) - 1) <= 10 * pow10(14)) by (nonlinear_arith)
                    requires
                        0 <= i <= 10,
                        1 <= pow10(deck_total(*delta) - 1) <= pow10(14),
                {
                }
            }
            let c = valid_prefix_count(up, &sub);
            sum = sum + c;
            proof {
                assert(sum <= (i + 1) * pow10(deck_total(*delta) - 1)) by (nonlinear_arith)
                    requires
                        sum <= i * pow10(deck_total(*delta) - 1) + pow10(deck_total(*delta) - 1),
                {
                }
            }
        } else {
            proof {
                lemma_pow10_mono(0, deck_total(*delta) - 1);
                assert(i * pow10(deck_total(*delta) - 1) <= (i + 1) * pow10(
                    deck_total(*delta) - 1,
                )) by (nonlinear_arith)
                    requires
                        pow10(deck_total(*delta) - 1) >= 1,
                        i >= 0,
                {
                }
            }
        }
        i = i + 1;
    }
    proof {
        lemma_pow10_mono(deck_total(*delta) - 1, deck_total(*delta) - 1);
        assert(10 * pow10(deck_total(*delta) - 1) == pow10(deck_total(*delta)));
    }
    sum
}

/// How many dealer draw orders end exactly on this delta: orders whose
/// proper prefixes stay under seventeen.
fn ordering_count(up: Card, s: &Deck) -> (r: u64)
    requires
        1 <= deck_total(*s) <= 27,
{
    let all = Card::all();
    let mut sum: u64 = 0;
    let mut i: usize = 0;
    while i < 10
        invariant
            0 <= i <= 10,
            all@ == all_cards_seq(),
            1 <= deck_total(*s) <= 27,
            sum <= i * 0x2386f26fc10000,
        decreases 10 - i,
    {
        let rank = all[i];
        if s.count(rank) > 0 {
            let sub = s.remove(rank);
            proof {
                lemma_remove_total(*s, rank_at(i as int));
            }
            let c = valid_prefix_count(up, &sub);
            proof {
                lemma_pow10_16();
                if dealer_total(up, sub) >= 17 {
                } else {
                    lemma_dealer_total_floor(up, sub);
                    lemma_pow10_mono(deck_total(sub), 16);
                }
                assert(c <= 0x2386f26fc10000);
            }
            sum = sum + c;
        }
        proof {
            assert(sum <= (i + 1) * 0x2386f26fc10000) by (nonlinear_arith)
                requires
                    sum <= i * 0x2386f26fc10000 + 0x2386f26fc10000,
            {
            }
        }
        i = i + 1;
    }
    sum
}

impl DealerHandDeckMap {
    /// An empty table for one upcard.
    pub fn empty() -> (r: DealerHandDeckMap)
        ensures
            map_wf(r, Card::Ace),
            map_wf(r, Card::N2),
            map_wf(r, Card::N3),
            map_wf(r, Card::N4),
            map_wf(r, Card::N5),
            map_wf(r, Card::N6),
            map_wf(r, Card::N7),
            map_wf(r, Card::N8),
            map_wf(r, Card::N9),
            map_wf(r, Card::Face),
    {
        DealerHandDeckMap {
            value_17: Vec::new(),
            value_18: Vec::new(),
            value_19: Vec::new(),
            value_20: Vec::new(),
            value_21: Vec::new(),
            burst: Vec::new(),
            blackjack: Vec::new(),
        }
    }

    /// The table rows of one terminal category.
    pub fn find(&self, sum_number: &HandTotal) -> (r: &Vec<(Deck, u64)>)
        requires
            is_dealer_cat(*sum_number),
        ensures
            r@ == map_entries(*self, *sum_number),
    {
        match sum_number {
            HandTotal::Value(v) => {
                if *v == 17 {
                    &self.value_17
                } else if *v == 18 {
                    &self.value_18
                } else if *v == 19 {
                    &self.value_19
                } else if *v == 20 {
                    &self.value_20
                } else {
                    &self.value_21
                }
            },
            HandTotal::BlackJack => &self.blackjack,
            HandTotal::Burst => &self.burst,
        }
    }
}

/// Classifies one terminal delta and records it with its order count.
fn record_terminal(up: Card, s: &Deck, out: &mut DealerHandDeckMap)
    requires
        1 <= deck_total(*s) <= 26,
        map_wf(*old(out), up),
    ensures
        map_wf(*final(out), up),
{
    let t = dealer_total_exec(up, s);
    if t < 17 {
        return;
    }
    let m = ordering_count(up, s);
    if m == 0 {
        return;
    }
    let total = s.total_cards();
    if t > 21 {
        out.burst.push((*s, m));
    } else if t == 21 && total == 1 && (up == Card::Ace || up == Card::Face) {
        out.blackjack.push((*s, m));
    } else if t == 17 {
        out.value_17.push((*s, m));
    } else if t == 18 {
        out.value_18.push((*s, m));
    } else if t == 19 {
        out.value_19.push((*s, m));
    } else if t == 20 {
        out.value_20.push((*s, m));
    } else {
        out.value_21.push((*s, m));
    }
}

/// Walks every delta the dealer procedure can reach, rank by rank, and
/// records the terminal ones. The hard floor prunes the walk: a still
/// relevant delta keeps upcard plus delta within one card of seventeen
/// plus the largest single value.
fn enumerate_from(up: Card, idx: usize, partial: Deck, out: &mut DealerHandDeckMap)
    requires
        idx <= 10,
        dealer_hard_min(up, partial) <= 27,
        map_wf(*old(out), up),
    ensures
        map_wf(*final(out), up),
    decreases 10 - idx, 28 - dealer_hard_min(up, partial),
{
    proof {
        lemma_dealer_total_floor(up, partial);
    }
    if idx == 10 {
        let total = partial.total_cards();
        if total >= 1 {
            record_terminal(up, &partial, out);
        }
        return;
    }
    let all = Card::all();
    let rank = all[idx];
    enumerate_from(up, idx + 1, partial, out);
    proof {
        crate::deck::lemma_count_le_total(partial, rank_at(idx as int));
    }
    let p2 = partial.add(rank);
    proof {
        lemma_hard_min_add(up, partial, rank_at(idx as int));
        crate::deck::lemma_add_total(partial, rank_at(idx as int));
    }
    let hm = dealer_hard_min_exec(up, &p2);
    if hm <= 27 {
        enumerate_from(up, idx, p2, out);
    }
}

impl DealerTables {
    /// Builds the dealer-outcome tables for all ten upcards by exhausting
    /// the dealer's draw-to-seventeen procedure.
    pub fn generate() -> (r: DealerTables)
        ensures
            tables_wf(r),
    {
        let mut ace = DealerHandDeckMap::empty();
        let mut n2 = DealerHandDeckMap::empty();
        let mut n3 = DealerHandDeckMap::empty();
        let mut n4 = DealerHandDeckMap::empty();
        let mut n5 = DealerHandDeckMap::empty();
        let mut n6 = DealerHandDeckMap::empty();
        let mut n7 = DealerHandDeckMap::empty();
        let mut n8 = DealerHandDeckMap::empty();
        let mut n9 = DealerHandDeckMap::empty();
        let mut face = DealerHandDeckMap::empty();
        let zero = Deck::zero();
        proof {
            lemma_raw_zero(zero, 10);
        }
        enumerate_from(Card::Ace, 0, zero, &mut ace);
        enumerate_from(Card::N2, 0, zero, &mut n2);
        enumerate_from(Card::N3, 0, zero, &mut n3);
        enumerate_from(Card::N4, 0, zero, &mut n4);
        enumerate_from(Card::N5, 0, zero, &mut n5);
        enumerate_from(Card::N6, 0, zero, &mut n6);
        enumerate_from(Card::N7, 0, zero, &mut n7);
        enumerate_from(Card::N8, 0, zero, &mut n8);
        enumerate_from(Card::N9, 0, zero, &mut n9);
        enumerate_from(Card::Face, 0, zero, &mut face);
        DealerTables { ace, n2, n3, n4, n5, n6, n7, n8, n9, face }
    }

    /// The table of one upcard.
    pub fn get(&self, card: Card) -> (r: &DealerHandDeckMap)
        ensures
            *r == table_get(*self, card),
    {
        match card {
            Card::Ace => &self.ace,
            Card::N2 => &self.n2,
            Card::N3 => &self.n3,
            Card::N4 => &self.n4,
            Card::N5 => &self.n5,
            Card::N6 => &self.n6,
            Card::N7 => &self.n7,
            Card::N8 => &self.n8,
            Card::N9 => &self.n9,
            Card::Face => &self.face,
        }
    }

    /// The table rows of one upcard and one terminal category.
    pub fn find(&self, first_rank: Card, sum_number: &HandTotal) -> (r: &Vec<(Deck, u64)>)
        requires
            is_dealer_cat(*sum_number),
        ensures
            r@ == table_entries(*self, first_rank, *sum_number),
    {
        self.get(first_rank).find(sum_number)
    }
}

proof fn lemma_raw_zero(d: Deck, k: int)
    requires
        forall|c: Card| #[trigger] deck_count(d, c) == 0,
    ensures
        raw_prefix(d, k) == 0,
        count_prefix_total(d, k) == 0,
    decreases k,
{
    if k > 0 {
        lemma_raw_zero(d, k - 1);
        assert(deck_count(d, rank_at(k - 1)) * card_value(rank_at(k - 1)) == 0) by (nonlinear_arith)
            requires
                deck_count(d, rank_at(k - 1)) == 0,
        {
        }
    }
}

// ---------------------------------------------------------------------------
// The seven-category distribution for a deck and an upcard.
// ---------------------------------------------------------------------------

/// The seven exact category probabilities for one upcard.
pub struct DealerTotalProb {
    pub s17: BigRational,
    pub s18: BigRational,
    pub s19: BigRational,
    pub s20: BigRational,
    pub s21: BigRational,
    pub black_jack: BigRational,
    pub bust: BigRational,
}

pub open spec fn dtp_get(p: DealerTotalProb, cat: HandTotal) -> BigRational {
    if cat == HandTotal::Value(17) {
        p.s17
    } else if cat == HandTotal::Value(18) {
        p.s18
    } else if cat == HandTotal::Value(19) {
        p.s19
    } else if cat == HandTotal::Value(20) {
        p.s20
    } else if cat == HandTotal::Value(21) {
        p.s21
    } else if cat == HandTotal::BlackJack {
        p.black_jack
    } else {
        p.bust
    }
}

/// Each stored probability is the table's exact category probability.
pub open spec fn dtp_wf(p: DealerTotalProb, t: DealerTables, deck: Deck, up: Card) -> bool {
    forall|cat: HandTotal| is_dealer_cat(cat) ==> rat_wf(#[trigger] dtp_get(p, cat)) && q_eq(
        rat_q(dtp_get(p, cat)),
        spec_dist(t, deck, up, cat),
    )
}

impl DealerTotalProb {
    /// The stored probability of one terminal category.
    pub fn get(&self, total: &HandTotal) -> (r: &BigRational)
        requires
            is_dealer_cat(*total),
        ensures
            *r == dtp_get(*self, *total),
    {
        match total {
            HandTotal::Value(v) => {
                if *v == 17 {
                    &self.s17
                } else if *v == 18 {
                    &self.s18
                } else if *v == 19 {
                    &self.s19
                } else if *v == 20 {
                    &self.s20
                } else {
                    &self.s21
                }
            },
            HandTotal::BlackJack => &self.black_jack,
            HandTotal::Burst => &self.bust,
        }
    }
}

/// The exact distributions of all ten upcards for one deck.
pub struct DealerHandProb {
    pub ace: DealerTotalProb,
    pub n2: DealerTotalProb,
    pub n3: DealerTotalProb,
    pub n4: DealerTotalProb,
    pub n5: DealerTotalProb,
    pub n6: DealerTotalProb,
    pub n7: DealerTotalProb,
    pub n8: DealerTotalProb,
    pub n9: DealerTotalProb,
    pub face: DealerTotalProb,
}

pub open spec fn dhp_get(p: DealerHandProb, card: Card) -> DealerTotalProb {
    match card {
        Card::Ace => p.ace,
        Card::N2 => p.n2,
        Card::N3 => p.n3,
        Card::N4 => p.n4,
        Card::N5 => p.n5,
        Card::N6 => p.n6,
        Card::N7 => p.n7,
        Card::N8 => p.n8,
        Card::N9 => p.n9,
        Card::Face => p.face,
    }
}

pub open spec fn dhp_wf(p: DealerHandProb, t: DealerTables, deck: Deck) -> bool {
    forall|c: Card| dtp_wf(#[trigger] dhp_get(p, c), t, deck, c)
}

impl DealerHandProb {
    pub fn get(&self, card: Card) -> (r: &DealerTotalProb)
        ensures
            *r == dhp_get(*self, card),
    {
        match card {
            Card::Ace => &self.ace,
            Card::N2 => &self.n2,
            Card::N3 => &self.n3,
            Card::N4 => &self.n4,
            Card::N5 => &self.n5,
            Card::N6 => &self.n6,
            Card::N7 => &self.n7,
            Card::N8 => &self.n8,
            Card::N9 => &self.n9,
            Card::Face => &self.face,
        }
    }
}

/// The exact probability of one category: the weighted sum over the table
/// rows of that upcard and category.
fn category_probability(t: &DealerTables, deck: &Deck, up: Card, cat: HandTotal) -> (r:
    BigRational)
    requires
        deck_total(*deck) <= usize::MAX,
        is_dealer_cat(cat),
    ensures
        rat_wf(r),
        q_eq(rat_q(r), spec_dist(*t, *deck, up, cat)),
{
    let es = t.find(up, &cat);
    let mut acc = rat_from_i64(0);
    let mut i: usize = 0;
    while i < es.len()
        invariant
            0 <= i <= es@.len(),
            es@ == table_entries(*t, up, cat),
            deck_total(*deck) <= usize::MAX,
            rat_wf(acc),
            q_eq(rat_q(acc), entries_sum(*deck, es@.subrange(0, i as int))),
        decreases es@.len() - i,
    {
        let prob = deck.deck_draw_probability(&es[i].0);
        let weight = rat_from_u64(es[i].1);
        let term = rat_mul(&prob, &weight);
        let ghost acc0 = acc;
        acc = rat_add(&acc, &term);
        proof {
            let pre = es@.subrange(0, i as int);
            let cur = es@.subrange(0, i + 1);
            assert(cur.drop_last() =~= pre);
            assert(cur.last() == es@[i as int]);
            lemma_entries_sum_wf(*deck, pre);
            lemma_spec_draw_prob_wf(*deck, es@[i as int].0);
            let sterm = q_mul(spec_draw_prob(*deck, es@[i as int].0), q_int(es@[i as int].1 as int));
            lemma_q_mul_congr(
                rat_q(prob),
                spec_draw_prob(*deck, es@[i as int].0),
                rat_q(weight),
                q_int(es@[i as int].1 as int),
            );
            lemma_q_eq_trans(rat_q(term), q_mul(rat_q(prob), rat_q(weight)), sterm);
            lemma_q_add_congr(rat_q(acc0), entries_sum(*deck, pre), rat_q(term), sterm);
            lemma_q_eq_trans(
                rat_q(acc),
                q_add(rat_q(acc0), rat_q(term)),
                q_add(entries_sum(*deck, pre), sterm),
            );
            assert(entries_sum(*deck, cur) == q_add(entries_sum(*deck, pre), sterm));
        }
        i = i + 1;
    }
    proof {
        assert(es@.subrange(0, es@.len() as int) =~= es@);
    }
    acc
}

/// One upcard's seven-category distribution.
pub(crate) fn upcard_distribution(t: &DealerTables, deck: &Deck, up: Card) -> (r: DealerTotalProb)
    requires
        deck_total(*deck) <= usize::MAX,
    ensures
        dtp_wf(r, *t, *deck, up),
{
    DealerTotalProb {
        s17: category_probability(t, deck, up, HandTotal::Value(17)),
        s18: category_probability(t, deck, up, HandTotal::Value(18)),
        s19: category_probability(t, deck, up, HandTotal::Value(19)),
        s20: category_probability(t, deck, up, HandTotal::Value(20)),
        s21: category_probability(t, deck, up, HandTotal::Value(21)),
        black_jack: category_probability(t, deck, up, HandTotal::BlackJack),
        bust: category_probability(t, deck, up, HandTotal::Burst),
    }
}

// ---------------------------------------------------------------------------
// The distribution law: the seven category probabilities sum to one
// wherever the tables cover the deck.
// ---------------------------------------------------------------------------

/// Sum of the first k category probabilities, in walking order.
pub open spec fn dist_sum(t: DealerTables, deck: Deck, up: Card, k: int) -> Q
    decreases k,
{
    if k <= 0 {
        q_int(0)
    } else {
        q_add(dist_sum(t, deck, up, k - 1), spec_dist(t, deck, up, cat_seq()[k - 1]))
    }
}

/// The data asset's contract for one deck and upcard: the union of the
/// seven categories, weighted by multiplicity and draw probability, carries
/// exactly all the probability. It holds of every deck the dealer procedure
/// can finish from; a deck with too few cards to reach seventeen keeps some
/// probability mass unreachable and breaks it.
pub open spec fn table_covers(t: DealerTables, deck: Deck, up: Card) -> bool {
    q_eq(dist_sum(t, deck, up, 7), q_int(1))
}

/// Sum of the first k stored probabilities of a distribution row.
pub open spec fn dtp_partial(p: DealerTotalProb, k: int) -> Q
    decreases k,
{
    if k <= 0 {
        q_int(0)
    } else {
        q_add(dtp_partial(p, k - 1), rat_q(dtp_get(p, cat_seq()[k - 1])))
    }
}

/// Sum of all seven stored probabilities of a distribution row.
pub open spec fn dtp_total(p: DealerTotalProb) -> Q {
    dtp_partial(p, 7)
}

pub proof fn lemma_dist_sum_wf(t: DealerTables, deck: Deck, up: Card, k: int)
    ensures
        q_wf(dist_sum(t, deck, up, k)),
    decreases k,
{
    if k > 0 {
        lemma_dist_sum_wf(t, deck, up, k - 1);
        lemma_entries_sum_wf(deck, table_entries(t, up, cat_seq()[k - 1]));
        let a = dist_sum(t, deck, up, k - 1);
        let b = spec_dist(t, deck, up, cat_seq()[k - 1]);
        assert(a.d * b.d > 0) by (nonlinear_arith)
            requires
                a.d > 0,
                b.d > 0,
        {
        }
    }
}

proof fn lemma_dtp_partial_matches(
    p: DealerTotalProb,
    t: DealerTables,
    deck: Deck,
    up: Card,
    k: int,
)
    requires
        dtp_wf(p, t, deck, up),
        k <= 7,
    ensures
        q_wf(dtp_partial(p, k)),
        q_eq(dtp_partial(p, k), dist_sum(t, deck, up, k)),
    decreases k,
{
    assert(cat_seq()[0] == HandTotal::Value(17));
    assert(cat_seq()[1] == HandTotal::Value(18));
    assert(cat_seq()[2] == HandTotal::Value(19));
    assert(cat_seq()[3] == HandTotal::Value(20));
    assert(cat_seq()[4] == HandTotal::Value(21));
    assert(cat_seq()[5] == HandTotal::BlackJack);
    assert(cat_seq()[6] == HandTotal::Burst);
    if k > 0 {
        lemma_dtp_partial_matches(p, t, deck, up, k - 1);
        let cat = cat_seq()[k - 1];
        assert(is_dealer_cat(cat));
        lemma_dist_sum_wf(t, deck, up, k - 1);
        lemma_entries_sum_wf(deck, table_entries(t, up, cat));
        lemma_q_add_congr(
            dtp_partial(p, k - 1),
            dist_sum(t, deck, up, k - 1),
            rat_q(dtp_get(p, cat)),
            spec_dist(t, deck, up, cat),
        );
    }
}

/// For any deck and upcard whose tables cover the deck, the seven stored
/// category probabilities of the engine's distribution row sum to exactly
/// one: a rational equality, never a tolerance.
pub proof fn lemma_distribution_sums_to_one(
    p: DealerTotalProb,
    t: DealerTables,
    deck: Deck,
    up: Card,
)
    requires
        dtp_wf(p, t, deck, up),
        table_covers(t, deck, up),
    ensures
        q_eq(dtp_total(p), q_int(1)),
{
    lemma_dtp_partial_matches(p, t, deck, up, 7);
    lemma_dist_sum_wf(t, deck, up, 7);
    lemma_q_eq_trans(dtp_total(p), dist_sum(t, deck, up, 7), q_int(1));
}

} // verus!
