use vstd::prelude::*;
use crate::card::Card;
use crate::hand::{
    Hand, HandTotal, hand_wf, hand_addable, hand_is_burst, hand_is_blackjack, hand_is_21,
    hand_is_lteq_11, spec_hand_add, spec_hand_total, hand_of_seq, Cards,
};
use crate::deck::{
    Deck, deck_count, deck_total, deck_remove_spec, remaining_seq, lemma_remaining_mem,
    lemma_remaining_len, lemma_remove_total, lemma_count_le_total, lemma_prefix_total_nonneg,
};
use crate::rule::{Rule, rule_wf};
use crate::dealer::{
    DealerTables, DealerHandProb, DealerTotalProb, dhp_wf, dtp_wf, dhp_get, dtp_get, cat_seq,
    is_dealer_cat, spec_dist, tables_wf, lemma_entries_sum_wf,
    table_entries,
};
use crate::rational::{
    Q, q_wf, q_eq, q_lt, q_int, q_frac, q_add, q_sub, q_mul, q_neg, lemma_q_add_congr,
    lemma_q_mul_congr, lemma_q_sub_congr, lemma_q_eq_trans, lemma_q_lt_congr,
};
use crate::bigrat::{
    BigRational, rat_q, rat_wf, rat_from_i64, rat_from_usize, rat_add, rat_mul, rat_lt, rat_clone,
};
use crate::cancel::is_cancelled_opt;
use tokio_util::sync::CancellationToken;

verus! {

/// One decision node: ruleset, dealer upcard, player hand, remaining shoe,
/// and how many cards the player holds. Equal fields mean the same node.
#[derive(Clone, Copy, Debug, PartialEq, Eq, Hash, Structural)]
pub struct BlackJackGame {
    pub rule: Rule,
    pub dealer_card: Card,
    pub player_hand: Hand,
    pub deck_cards: Deck,
    pub player_card_count: usize,
}

/// A valid decision node: valid rule and hand, and enough headroom to count
/// every card the shoe could still deal.
pub open spec fn game_wf(g: BlackJackGame) -> bool {
    &&& rule_wf(g.rule)
    &&& hand_wf(g.player_hand)
    &&& g.player_card_count + deck_total(g.deck_cards) <= usize::MAX
}

/// The node after the player draws one card of rank c.
pub open spec fn spec_advance(g: BlackJackGame, c: Card) -> BlackJackGame {
    BlackJackGame {
        player_hand: spec_hand_add(g.player_hand, c),
        deck_cards: deck_remove_spec(g.deck_cards, c),
        player_card_count: (g.player_card_count + 1) as usize,
        ..g
    }
}

/// The split child: a fresh two-card hand of the kept pair card and the
/// drawn rank, counted as one player card.
pub open spec fn spec_split_child(g: BlackJackGame, p: Card, c: Card) -> BlackJackGame {
    BlackJackGame {
        player_hand: hand_of_seq(seq![p, c]),
        deck_cards: deck_remove_spec(g.deck_cards, c),
        player_card_count: 1,
        ..g
    }
}

/// Whether hitting (and doubling) is still offered: not on a settled
/// twenty-one, a natural, or a bust.
pub open spec fn hit_unavailable(h: Hand) -> bool {
    hand_is_21(h) || hand_is_blackjack(h) || hand_is_burst(h)
}

/// The stand payout coefficient of one dealer category. A natural player
/// hand wins its configured multiplier against every non-natural dealer
/// outcome and pushes against a dealer natural; otherwise a dealer natural
/// loses the stake, a dealer bust wins it, and equal totals push.
pub open spec fn stand_coef(rule: Rule, hand: Hand, cat: HandTotal) -> Q {
    if hand_is_blackjack(hand) {
        if cat == HandTotal::BlackJack {
            q_int(0)
        } else {
            q_frac(rule.multiplier_black_jack.numer as int, rule.multiplier_black_jack.denom as int)
        }
    } else if cat == HandTotal::BlackJack {
        q_int(-1)
    } else if cat == HandTotal::Burst {
        q_int(1)
    } else {
        let u = spec_hand_total(hand);
        match (cat, u) {
            (HandTotal::Value(v), HandTotal::Value(uv)) => if v < uv {
                q_int(1)
            } else if v > uv {
                q_int(-1)
            } else {
                q_int(0)
            },
            _ => q_int(0),
        }
    }
}

/// Partial stand sum over the first k dealer categories.
pub open spec fn spec_stand_sum(t: DealerTables, g: BlackJackGame, k: int) -> Q
    decreases k,
{
    if k <= 0 {
        q_int(0)
    } else {
        q_add(
            spec_stand_sum(t, g, k - 1),
            q_mul(
                stand_coef(g.rule, g.player_hand, cat_seq()[k - 1]),
                spec_dist(t, g.deck_cards, g.dealer_card, cat_seq()[k - 1]),
            ),
        )
    }
}

/// Exact stand expected value: an automatic charlie win pays one, a busted
/// hand loses one, and otherwise the seven dealer categories are resolved
/// against the hand with their exact probabilities.
pub open spec fn spec_stand_ev(t: DealerTables, g: BlackJackGame) -> Q {
    if g.rule.six_card_charlie && g.player_card_count >= 6 {
        q_int(1)
    } else if hand_is_burst(g.player_hand) {
        q_int(-1)
    } else {
        spec_stand_sum(t, g, 7)
    }
}

/// Stand value as the memoized entry point reports it: a bust or a total of
/// eleven or less stands at exactly minus one.
pub open spec fn spec_get_stand_ev(t: DealerTables, g: BlackJackGame) -> Q {
    if hand_is_lteq_11(g.player_hand) || hand_is_burst(g.player_hand) {
        q_int(-1)
    } else {
        spec_stand_ev(t, g)
    }
}

// The hit/hit-or-stand recursion terminates because every drawn card
// shrinks the shoe; the via functions discharge that measure.

/// Partial hit sum over the first k remaining ranks: draw the rank, then
/// play the better of hit and stand, weighted by the exact draw chance.
pub open spec fn spec_hit_sum(t: DealerTables, g: BlackJackGame, k: int) -> Q
    decreases deck_total(g.deck_cards), 0int, k,
        when 0 <= k <= remaining_seq(g.deck_cards).len()
    via spec_hit_sum_decreases
{
    if k <= 0 {
        q_int(0)
    } else {
        let c = remaining_seq(g.deck_cards)[k - 1];
        q_add(
            spec_hit_sum(t, g, k - 1),
            q_mul(
                spec_hos_ev(t, spec_advance(g, c)),
                q_frac(deck_count(g.deck_cards, c), deck_total(g.deck_cards)),
            ),
        )
    }
}

#[via_fn]
proof fn spec_hit_sum_decreases(t: DealerTables, g: BlackJackGame, k: int) {
    lemma_prefix_total_nonneg(g.deck_cards, 10);
    if k > 0 {
        lemma_remaining_mem(g.deck_cards, 10);
        let c = remaining_seq(g.deck_cards)[k - 1];
        lemma_remove_total(g.deck_cards, c);
        lemma_prefix_total_nonneg(deck_remove_spec(g.deck_cards, c), 10);
    }
}

/// Exact hit expected value: the weighted sum over every remaining rank.
pub open spec fn spec_hit_ev(t: DealerTables, g: BlackJackGame) -> Q
    decreases deck_total(g.deck_cards), 0int, 11int,
        when deck_total(g.deck_cards) >= 0
    via spec_hit_ev_decreases
{
    spec_hit_sum(t, g, remaining_seq(g.deck_cards).len() as int)
}

#[via_fn]
proof fn spec_hit_ev_decreases(t: DealerTables, g: BlackJackGame) {
    lemma_remaining_len(g.deck_cards, 10);
}

/// Exact value of playing on: the better of standing and hitting, ties in
/// favor of standing; hitting only where it is still offered.
pub open spec fn spec_hos_ev(t: DealerTables, g: BlackJackGame) -> Q
    decreases deck_total(g.deck_cards), 1int, 0int,
        when deck_total(g.deck_cards) >= 0
    via spec_hos_ev_decreases
{
    let s = spec_get_stand_ev(t, g);
    if hit_unavailable(g.player_hand) {
        s
    } else {
        let h = spec_hit_ev(t, g);
        if q_lt(s, h) {
            h
        } else {
            s
        }
    }
}

#[via_fn]
proof fn spec_hos_ev_decreases(t: DealerTables, g: BlackJackGame) {
    lemma_prefix_total_nonneg(g.deck_cards, 10);
}

/// Partial double sum: one forced card, then stand, at doubled stake.
pub open spec fn spec_double_sum(t: DealerTables, g: BlackJackGame, k: int) -> Q
    decreases k,
{
    if k <= 0 {
        q_int(0)
    } else {
        let c = remaining_seq(g.deck_cards)[k - 1];
        q_add(
            spec_double_sum(t, g, k - 1),
            q_mul(
                q_mul(
                    spec_stand_ev(t, spec_advance(g, c)),
                    q_frac(deck_count(g.deck_cards, c), deck_total(g.deck_cards)),
                ),
                q_int(2),
            ),
        )
    }
}

/// Exact double expected value: exactly one more card, committed to stand,
/// at twice the stake.
pub open spec fn spec_double_ev(t: DealerTables, g: BlackJackGame) -> Q {
    spec_double_sum(t, g, remaining_seq(g.deck_cards).len() as int)
}

/// Partial split sum: each drawn rank starts a fresh two-card hand; split
/// aces take exactly one card and stand, other pairs play on; both hands
/// double the weight.
pub open spec fn spec_split_sum(t: DealerTables, g: BlackJackGame, p: Card, k: int) -> Q
    decreases deck_total(g.deck_cards), 0int, k,
        when 0 <= k <= remaining_seq(g.deck_cards).len()
    via spec_split_sum_decreases
{
    if k <= 0 {
        q_int(0)
    } else {
        let c = remaining_seq(g.deck_cards)[k - 1];
        let child = spec_split_child(g, p, c);
        let x = if p == Card::Ace {
            spec_get_stand_ev(t, child)
        } else {
            spec_hos_ev(t, child)
        };
        q_add(
            spec_split_sum(t, g, p, k - 1),
            q_mul(
                q_mul(x, q_int(2)),
                q_frac(deck_count(g.deck_cards, c), deck_total(g.deck_cards)),
            ),
        )
    }
}

#[via_fn]
proof fn spec_split_sum_decreases(t: DealerTables, g: BlackJackGame, p: Card, k: int) {
    lemma_prefix_total_nonneg(g.deck_cards, 10);
    if k > 0 {
        lemma_remaining_mem(g.deck_cards, 10);
        let c = remaining_seq(g.deck_cards)[k - 1];
        lemma_remove_total(g.deck_cards, c);
        lemma_prefix_total_nonneg(deck_remove_spec(g.deck_cards, c), 10);
    }
}

/// Exact split expected value, defined for pair hands.
pub open spec fn spec_split_ev(t: DealerTables, g: BlackJackGame, p: Card) -> Q {
    spec_split_sum(t, g, p, remaining_seq(g.deck_cards).len() as int)
}

/// One maximum step: a missing action changes nothing, a present one
/// replaces the best so far only when strictly greater.
pub open spec fn q_max_step(acc: Q, o: Option<Q>) -> Q {
    match o {
        None => acc,
        Some(v) => if q_lt(acc, v) {
            v
        } else {
            acc
        },
    }
}

pub open spec fn spec_hit_opt(t: DealerTables, g: BlackJackGame) -> Option<Q> {
    if hit_unavailable(g.player_hand) {
        None
    } else {
        Some(spec_hit_ev(t, g))
    }
}

pub open spec fn spec_double_opt(t: DealerTables, g: BlackJackGame) -> Option<Q> {
    if hit_unavailable(g.player_hand) {
        None
    } else {
        Some(spec_double_ev(t, g))
    }
}

pub open spec fn spec_split_opt(t: DealerTables, g: BlackJackGame) -> Option<Q> {
    match g.player_hand {
        Hand::Pair(p) => Some(spec_split_ev(t, g, p)),
        _ => None,
    }
}

/// The exact value of the best available action, ties resolved toward the
/// earlier of stand, hit, double, split.
pub open spec fn spec_ev(t: DealerTables, g: BlackJackGame) -> Q {
    q_max_step(
        q_max_step(
            q_max_step(spec_get_stand_ev(t, g), spec_hit_opt(t, g)),
            spec_double_opt(t, g),
        ),
        spec_split_opt(t, g),
    )
}

// ---------------------------------------------------------------------------
// Well-formedness of the spec values: every denominator stays positive.
// ---------------------------------------------------------------------------

proof fn lemma_q_ops_wf(a: Q, b: Q)
    requires
        q_wf(a),
        q_wf(b),
    ensures
        q_wf(q_add(a, b)),
        q_wf(q_sub(a, b)),
        q_wf(q_mul(a, b)),
{
    assert(a.d * b.d > 0) by (nonlinear_arith)
        requires
            a.d > 0,
            b.d > 0,
    {
    }
}

pub proof fn lemma_stand_sum_wf(t: DealerTables, g: BlackJackGame, k: int)
    requires
        rule_wf(g.rule),
    ensures
        q_wf(spec_stand_sum(t, g, k)),
    decreases k,
{
    if k > 0 {
        lemma_stand_sum_wf(t, g, k - 1);
        lemma_entries_sum_wf(
            g.deck_cards,
            table_entries(t, g.dealer_card, cat_seq()[k - 1]),
        );
        lemma_q_ops_wf(
            stand_coef(g.rule, g.player_hand, cat_seq()[k - 1]),
            spec_dist(t, g.deck_cards, g.dealer_card, cat_seq()[k - 1]),
        );
        lemma_q_ops_wf(
            spec_stand_sum(t, g, k - 1),
            q_mul(
                stand_coef(g.rule, g.player_hand, cat_seq()[k - 1]),
                spec_dist(t, g.deck_cards, g.dealer_card, cat_seq()[k - 1]),
            ),
        );
    }
}

pub proof fn lemma_stand_ev_wf(t: DealerTables, g: BlackJackGame)
    requires
        rule_wf(g.rule),
    ensures
        q_wf(spec_stand_ev(t, g)),
        q_wf(spec_get_stand_ev(t, g)),
{
    lemma_stand_sum_wf(t, g, 7);
}

pub proof fn lemma_hit_sum_wf(t: DealerTables, g: BlackJackGame, k: int)
    requires
        rule_wf(g.rule),
        0 <= k <= remaining_seq(g.deck_cards).len(),
    ensures
        q_wf(spec_hit_sum(t, g, k)),
    decreases deck_total(g.deck_cards), 0int, k,
{
    lemma_prefix_total_nonneg(g.deck_cards, 10);
    if k > 0 {
        lemma_hit_sum_wf(t, g, k - 1);
        lemma_remaining_mem(g.deck_cards, 10);
        let c = remaining_seq(g.deck_cards)[k - 1];
        lemma_remove_total(g.deck_cards, c);
        lemma_count_le_total(g.deck_cards, c);
        lemma_hos_ev_wf(t, spec_advance(g, c));
        let term = q_mul(
            spec_hos_ev(t, spec_advance(g, c)),
            q_frac(deck_count(g.deck_cards, c), deck_total(g.deck_cards)),
        );
        lemma_q_ops_wf(
            spec_hos_ev(t, spec_advance(g, c)),
            q_frac(deck_count(g.deck_cards, c), deck_total(g.deck_cards)),
        );
        lemma_q_ops_wf(spec_hit_sum(t, g, k - 1), term);
    }
}

pub proof fn lemma_hit_ev_wf(t: DealerTables, g: BlackJackGame)
    requires
        rule_wf(g.rule),
    ensures
        q_wf(spec_hit_ev(t, g)),
    decreases deck_total(g.deck_cards), 0int, 11int,
{
    lemma_prefix_total_nonneg(g.deck_cards, 10);
    lemma_remaining_len(g.deck_cards, 10);
    lemma_hit_sum_wf(t, g, remaining_seq(g.deck_cards).len() as int);
}

pub proof fn lemma_hos_ev_wf(t: DealerTables, g: BlackJackGame)
    requires
        rule_wf(g.rule),
    ensures
        q_wf(spec_hos_ev(t, g)),
    decreases deck_total(g.deck_cards), 1int, 0int,
{
    lemma_prefix_total_nonneg(g.deck_cards, 10);
    lemma_stand_ev_wf(t, g);
    if !hit_unavailable(g.player_hand) {
        lemma_hit_ev_wf(t, g);
    }
}

pub proof fn lemma_double_sum_wf(t: DealerTables, g: BlackJackGame, k: int)
    requires
        rule_wf(g.rule),
        0 <= k <= remaining_seq(g.deck_cards).len(),
    ensures
        q_wf(spec_double_sum(t, g, k)),
    decreases k,
{
    lemma_prefix_total_nonneg(g.deck_cards, 10);
    if k > 0 {
        lemma_double_sum_wf(t, g, k - 1);
        lemma_remaining_mem(g.deck_cards, 10);
        let c = remaining_seq(g.deck_cards)[k - 1];
        lemma_count_le_total(g.deck_cards, c);
        lemma_stand_ev_wf(t, spec_advance(g, c));
        let inner = q_mul(
            spec_stand_ev(t, spec_advance(g, c)),
            q_frac(deck_count(g.deck_cards, c), deck_total(g.deck_cards)),
        );
        lemma_q_ops_wf(
            spec_stand_ev(t, spec_advance(g, c)),
            q_frac(deck_count(g.deck_cards, c), deck_total(g.deck_cards)),
        );
        lemma_q_ops_wf(inner, q_int(2));
        lemma_q_ops_wf(spec_double_sum(t, g, k - 1), q_mul(inner, q_int(2)));
    }
}

pub proof fn lemma_split_sum_wf(t: DealerTables, g: BlackJackGame, p: Card, k: int)
    requires
        rule_wf(g.rule),
        0 <= k <= remaining_seq(g.deck_cards).len(),
    ensures
        q_wf(spec_split_sum(t, g, p, k)),
    decreases deck_total(g.deck_cards), 0int, k,
{
    lemma_prefix_total_nonneg(g.deck_cards, 10);
    if k > 0 {
        lemma_split_sum_wf(t, g, p, k - 1);
        lemma_remaining_mem(g.deck_cards, 10);
        let c = remaining_seq(g.deck_cards)[k - 1];
        lemma_remove_total(g.deck_cards, c);
        lemma_count_le_total(g.deck_cards, c);
        let child = spec_split_child(g, p, c);
        let x = if p == Card::Ace {
            spec_get_stand_ev(t, child)
        } else {
            spec_hos_ev(t, child)
        };
        if p == Card::Ace {
            lemma_stand_ev_wf(t, child);
        } else {
            lemma_hos_ev_wf(t, child);
        }
        lemma_q_ops_wf(x, q_int(2));
        lemma_q_ops_wf(
            q_mul(x, q_int(2)),
            q_frac(deck_count(g.deck_cards, c), deck_total(g.deck_cards)),
        );
        lemma_q_ops_wf(
            spec_split_sum(t, g, p, k - 1),
            q_mul(
                q_mul(x, q_int(2)),
                q_frac(deck_count(g.deck_cards, c), deck_total(g.deck_cards)),
            ),
        );
    }
}

pub proof fn lemma_spec_ev_wf(t: DealerTables, g: BlackJackGame)
    requires
        rule_wf(g.rule),
    ensures
        q_wf(spec_ev(t, g)),
{
    lemma_prefix_total_nonneg(g.deck_cards, 10);
    lemma_stand_ev_wf(t, g);
    if !hit_unavailable(g.player_hand) {
        lemma_hit_ev_wf(t, g);
        lemma_double_sum_wf(t, g, remaining_seq(g.deck_cards).len() as int);
    }
    match g.player_hand {
        Hand::Pair(p) => {
            lemma_split_sum_wf(t, g, p, remaining_seq(g.deck_cards).len() as int);
        },
        _ => {},
    }
}

// ---------------------------------------------------------------------------
// Memo caches: flat hash buckets whose every entry is pinned to its spec
// value, so a hit can never differ from a recomputation.
// ---------------------------------------------------------------------------

/// A stored expected value is exactly the spec value of its key.
pub open spec fn entry_ok(t: DealerTables, is_hit: bool, e: (BlackJackGame, BigRational)) -> bool {
    rat_wf(e.1) && q_eq(
        rat_q(e.1),
        if is_hit {
            spec_hit_ev(t, e.0)
        } else {
            spec_stand_ev(t, e.0)
        },
    )
}

/// A memo table for one of the two recursive caches.
pub struct EvCache {
    pub buckets: Vec<Vec<(BlackJackGame, BigRational)>>,
}

pub open spec fn ev_cache_wf(c: EvCache, t: DealerTables, is_hit: bool) -> bool {
    c.buckets@.len() > 0 && forall|b: int, i: int|
        0 <= b < c.buckets@.len() && 0 <= i < c.buckets@[b]@.len() ==> entry_ok(
            t,
            is_hit,
            #[trigger] c.buckets@[b]@[i],
        )
}

/// The read-through cache of dealer distribution rows, one entry per deck
/// and upcard.
pub struct DistCache {
    pub buckets: Vec<Vec<(Deck, Card, DealerTotalProb)>>,
}

pub open spec fn dist_cache_wf(c: DistCache, t: DealerTables) -> bool {
    c.buckets@.len() > 0 && forall|b: int, i: int|
        0 <= b < c.buckets@.len() && 0 <= i < c.buckets@[b]@.len() ==> dtp_wf(
            (#[trigger] c.buckets@[b]@[i]).2,
            t,
            c.buckets@[b]@[i].0,
            c.buckets@[b]@[i].1,
        )
}

/// A small arithmetic mix step, kept well under any overflow.
fn mix(h: u64, x: u64) -> u64 {
    (h % 0x1000000) * 31 + (x % 0x10000)
}

fn rank_idx(c: Card) -> (r: usize)
    ensures
        r <= 9,
{
    match c {
        Card::Ace => 0,
        Card::N2 => 1,
        Card::N3 => 2,
        Card::N4 => 3,
        Card::N5 => 4,
        Card::N6 => 5,
        Card::N7 => 6,
        Card::N8 => 7,
        Card::N9 => 8,
        Card::Face => 9,
    }
}

fn hand_code(h: &Hand) -> u64 {
    match h {
        Hand::Empty => 0,
        Hand::Pair(c) => 1 + rank_idx(*c) as u64,
        Hand::Soft(HandTotal::Value(v)) => 20 + (*v % 256) as u64,
        Hand::Soft(HandTotal::BlackJack) => 300,
        Hand::Soft(HandTotal::Burst) => 301,
        Hand::Hard(HandTotal::Value(v)) => 400 + (*v % 256) as u64,
        Hand::Hard(HandTotal::Burst) => 700,
        Hand::Hard(HandTotal::BlackJack) => 701,
    }
}

fn deck_mix(h0: u64, d: &Deck) -> u64 {
    let mut h = h0;
    h = mix(h, d.ace as u64);
    h = mix(h, d.n2 as u64);
    h = mix(h, d.n3 as u64);
    h = mix(h, d.n4 as u64);
    h = mix(h, d.n5 as u64);
    h = mix(h, d.n6 as u64);
    h = mix(h, d.n7 as u64);
    h = mix(h, d.n8 as u64);
    h = mix(h, d.n9 as u64);
    h = mix(h, d.face as u64);
    h
}

fn game_bucket(g: &BlackJackGame, n: usize) -> (r: usize)
    requires
        n > 0,
    ensures
        r < n,
{
    let mut h: u64 = mix(0, rank_idx(g.dealer_card) as u64);
    h = mix(h, hand_code(&g.player_hand));
    h = mix(h, g.player_card_count as u64);
    h = deck_mix(h, &g.deck_cards);
    (h % (n as u64)) as usize
}

fn deck_bucket(d: &Deck, n: usize) -> (r: usize)
    requires
        n > 0,
    ensures
        r < n,
{
    let h = deck_mix(7, d);
    (h % (n as u64)) as usize
}

fn fresh_buckets<T>() -> (r: Vec<Vec<(T, BigRational)>>)
    ensures
        r@.len() == 1024,
        forall|b: int| 0 <= b < r@.len() ==> (#[trigger] r@[b])@.len() == 0,
{
    let mut v: Vec<Vec<(T, BigRational)>> = Vec::new();
    let mut i: usize = 0;
    while i < 1024
        invariant
            0 <= i <= 1024,
            v@.len() == i,
            forall|b: int| 0 <= b < v@.len() ==> (#[trigger] v@[b])@.len() == 0,
        decreases 1024 - i,
    {
        let e: Vec<(T, BigRational)> = Vec::new();
        v.push(e);
        i = i + 1;
    }
    v
}

fn fresh_dist_buckets() -> (r: Vec<Vec<(Deck, Card, DealerTotalProb)>>)
    ensures
        r@.len() == 1024,
        forall|b: int| 0 <= b < r@.len() ==> (#[trigger] r@[b])@.len() == 0,
{
    let mut v: Vec<Vec<(Deck, Card, DealerTotalProb)>> = Vec::new();
    let mut i: usize = 0;
    while i < 1024
        invariant
            0 <= i <= 1024,
            v@.len() == i,
            forall|b: int| 0 <= b < v@.len() ==> (#[trigger] v@[b])@.len() == 0,
        decreases 1024 - i,
    {
        let e: Vec<(Deck, Card, DealerTotalProb)> = Vec::new();
        v.push(e);
        i = i + 1;
    }
    v
}

impl EvCache {
    fn empty() -> (r: EvCache)
        ensures
            forall|t: DealerTables, is_hit: bool| ev_cache_wf(r, t, is_hit),
    {
        EvCache { buckets: fresh_buckets() }
    }

    fn lookup(
        &self,
        g: &BlackJackGame,
        Ghost(t): Ghost<DealerTables>,
        Ghost(is_hit): Ghost<bool>,
    ) -> (r: Option<BigRational>)
        requires
            ev_cache_wf(*self, t, is_hit),
        ensures
            match r {
                Some(v) => rat_wf(v) && q_eq(
                    rat_q(v),
                    if is_hit {
                        spec_hit_ev(t, *g)
                    } else {
                        spec_stand_ev(t, *g)
                    },
                ),
                None => true,
            },
    {
        let b = game_bucket(g, self.buckets.len());
        let bucket = &self.buckets[b];
        let mut i: usize = 0;
        while i < bucket.len()
            invariant
                ev_cache_wf(*self, t, is_hit),
                0 <= b < self.buckets@.len(),
                bucket == &self.buckets@[b as int],
            decreases bucket@.len() - i,
        {
            let e = &bucket[i];
            if e.0 == *g {
                return Some(rat_clone(&e.1));
            }
            i = i + 1;
        }
        None
    }

    fn insert(
        &mut self,
        g: &BlackJackGame,
        v: &BigRational,
        Ghost(t): Ghost<DealerTables>,
        Ghost(is_hit): Ghost<bool>,
    )
        requires
            ev_cache_wf(*old(self), t, is_hit),
            entry_ok(t, is_hit, (*g, *v)),
        ensures
            ev_cache_wf(*final(self), t, is_hit),
    {
        let b = game_bucket(g, self.buckets.len());
        let entry = (*g, rat_clone(v));
        proof {
            assert(entry_ok(t, is_hit, entry));
        }
        self.buckets[b].push(entry);
        proof {
            assert forall|bb: int, i: int|
                0 <= bb < self.buckets@.len() && 0 <= i < self.buckets@[bb]@.len() implies entry_ok(
                t,
                is_hit,
                #[trigger] self.buckets@[bb]@[i],
            ) by {
                if bb == b as int && i == self.buckets@[bb]@.len() - 1 {
                } else {
                    assert(entry_ok(t, is_hit, old(self).buckets@[bb]@[i]));
                }
            }
        }
    }
}

/// Copies the seven probabilities of one upcard row; the copy stands for
/// the same rationals.
fn dtp_clone(p: &DealerTotalProb) -> (r: DealerTotalProb)
    ensures
        rat_q(r.s17) == rat_q(p.s17),
        rat_q(r.s18) == rat_q(p.s18),
        rat_q(r.s19) == rat_q(p.s19),
        rat_q(r.s20) == rat_q(p.s20),
        rat_q(r.s21) == rat_q(p.s21),
        rat_q(r.black_jack) == rat_q(p.black_jack),
        rat_q(r.bust) == rat_q(p.bust),
        forall|cat: HandTotal| rat_q(#[trigger] dtp_get(r, cat)) == rat_q(dtp_get(*p, cat)),
{
    let r = DealerTotalProb {
        s17: rat_clone(&p.s17),
        s18: rat_clone(&p.s18),
        s19: rat_clone(&p.s19),
        s20: rat_clone(&p.s20),
        s21: rat_clone(&p.s21),
        black_jack: rat_clone(&p.black_jack),
        bust: rat_clone(&p.bust),
    };
    r
}

fn dhp_clone(p: &DealerHandProb) -> (r: DealerHandProb)
    ensures
        forall|c: Card, cat: HandTotal| rat_q(#[trigger] dtp_get(dhp_get(r, c), cat)) == rat_q(
            dtp_get(dhp_get(*p, c), cat),
        ),
{
    let r = DealerHandProb {
        ace: dtp_clone(&p.ace),
        n2: dtp_clone(&p.n2),
        n3: dtp_clone(&p.n3),
        n4: dtp_clone(&p.n4),
        n5: dtp_clone(&p.n5),
        n6: dtp_clone(&p.n6),
        n7: dtp_clone(&p.n7),
        n8: dtp_clone(&p.n8),
        n9: dtp_clone(&p.n9),
        face: dtp_clone(&p.face),
    };
    r
}

impl DistCache {
    fn empty() -> (r: DistCache)
        ensures
            forall|t: DealerTables| dist_cache_wf(r, t),
    {
        DistCache { buckets: fresh_dist_buckets() }
    }

    fn lookup(&self, deck: &Deck, up: Card, Ghost(t): Ghost<DealerTables>) -> (r: Option<
        DealerTotalProb,
    >)
        requires
            dist_cache_wf(*self, t),
        ensures
            match r {
                Some(p) => dtp_wf(p, t, *deck, up),
                None => true,
            },
    {
        let b = deck_bucket(deck, self.buckets.len());
        let bucket = &self.buckets[b];
        let mut i: usize = 0;
        while i < bucket.len()
            invariant
                dist_cache_wf(*self, t),
                0 <= b < self.buckets@.len(),
                bucket == &self.buckets@[b as int],
            decreases bucket@.len() - i,
        {
            let e = &bucket[i];
            if e.0 == *deck && e.1 == up {
                let p = dtp_clone(&e.2);
                proof {
                    assert(dtp_wf(e.2, t, *deck, up));
                    assert forall|cat: HandTotal| is_dealer_cat(cat) implies rat_wf(
                        #[trigger] dtp_get(p, cat),
                    ) && q_eq(rat_q(dtp_get(p, cat)), spec_dist(t, *deck, up, cat)) by {
                        assert(rat_q(dtp_get(p, cat)) == rat_q(dtp_get(e.2, cat)));
                    }
                }
                return Some(p);
            }
            i = i + 1;
        }
        None
    }

    fn insert(&mut self, deck: &Deck, up: Card, p: DealerTotalProb, Ghost(t): Ghost<DealerTables>)
        requires
            dist_cache_wf(*old(self), t),
            dtp_wf(p, t, *deck, up),
        ensures
            dist_cache_wf(*final(self), t),
    {
        let b = deck_bucket(deck, self.buckets.len());
        self.buckets[b].push((*deck, up, p));
        proof {
            assert forall|bb: int, i: int|
                0 <= bb < self.buckets@.len() && 0 <= i < self.buckets@[bb]@.len() implies dtp_wf(
                (#[trigger] self.buckets@[bb]@[i]).2,
                t,
                self.buckets@[bb]@[i].0,
                self.buckets@[bb]@[i].1,
            ) by {
                if bb == b as int && i == self.buckets@[bb]@.len() - 1 {
                } else {
                    assert(dtp_wf(
                        old(self).buckets@[bb]@[i].2,
                        t,
                        old(self).buckets@[bb]@[i].0,
                        old(self).buckets@[bb]@[i].1,
                    ));
                }
            }
        }
    }
}

/// The per-session state of the solver: the generated dealer tables and the
/// three memo caches. Every cache entry is pinned to its spec value, so any
/// sequence of operations answers with the same exact rationals.
pub struct EvContext {
    pub tables: DealerTables,
    pub stand_cache: EvCache,
    pub hit_cache: EvCache,
    pub dist_cache: DistCache,
}

pub open spec fn ctx_wf(ctx: EvContext) -> bool {
    &&& tables_wf(ctx.tables)
    &&& ev_cache_wf(ctx.stand_cache, ctx.tables, false)
    &&& ev_cache_wf(ctx.hit_cache, ctx.tables, true)
    &&& dist_cache_wf(ctx.dist_cache, ctx.tables)
}

impl EvContext {
    /// Generates the dealer tables and starts with empty caches.
    pub fn new() -> (r: EvContext)
        ensures
            ctx_wf(r),
    {
        EvContext {
            tables: DealerTables::generate(),
            stand_cache: EvCache::empty(),
            hit_cache: EvCache::empty(),
            dist_cache: DistCache::empty(),
        }
    }

    /// Resets the stand, hit and dealer-distribution caches together; the
    /// tables stay, so recomputation reproduces the same exact values.
    pub fn clear_cache(&mut self)
        requires
            ctx_wf(*old(self)),
        ensures
            ctx_wf(*final(self)),
            final(self).tables == old(self).tables,
    {
        self.stand_cache = EvCache::empty();
        self.hit_cache = EvCache::empty();
        self.dist_cache = DistCache::empty();
    }

    /// The exact seven-category dealer distributions of all ten upcards
    /// for this deck, through the read-through row cache.
    pub fn dealer_probs(&mut self, deck: &Deck) -> (r: DealerHandProb)
        requires
            ctx_wf(*old(self)),
            deck_total(*deck) <= usize::MAX,
        ensures
            ctx_wf(*final(self)),
            final(self).tables == old(self).tables,
            dhp_wf(r, old(self).tables, *deck),
    {
        let r = DealerHandProb {
            ace: self.dealer_row(deck, Card::Ace),
            n2: self.dealer_row(deck, Card::N2),
            n3: self.dealer_row(deck, Card::N3),
            n4: self.dealer_row(deck, Card::N4),
            n5: self.dealer_row(deck, Card::N5),
            n6: self.dealer_row(deck, Card::N6),
            n7: self.dealer_row(deck, Card::N7),
            n8: self.dealer_row(deck, Card::N8),
            n9: self.dealer_row(deck, Card::N9),
            face: self.dealer_row(deck, Card::Face),
        };
        proof {
            assert forall|c: Card| dtp_wf(#[trigger] dhp_get(r, c), old(self).tables, *deck, c) by {
            }
        }
        r
    }

    /// One upcard's exact distribution row for this deck, computed once
    /// and then answered from the cache.
    fn dealer_row(&mut self, deck: &Deck, up: Card) -> (r: DealerTotalProb)
        requires
            ctx_wf(*old(self)),
            deck_total(*deck) <= usize::MAX,
        ensures
            ctx_wf(*final(self)),
            final(self).tables == old(self).tables,
            dtp_wf(r, old(self).tables, *deck, up),
    {
        let ghost t = self.tables;
        if let Some(p) = self.dist_cache.lookup(deck, up, Ghost(t)) {
            return p;
        }
        let p = crate::dealer::upcard_distribution(&self.tables, deck, up);
        let copy = dtp_clone(&p);
        proof {
            assert forall|cat: HandTotal| is_dealer_cat(cat) implies rat_wf(
                #[trigger] dtp_get(copy, cat),
            ) && q_eq(rat_q(dtp_get(copy, cat)), spec_dist(t, *deck, up, cat)) by {
                assert(rat_q(dtp_get(copy, cat)) == rat_q(dtp_get(p, cat)));
            }
        }
        self.dist_cache.insert(deck, up, copy, Ghost(t));
        p
    }
}

// ---------------------------------------------------------------------------
// The solver.
// ---------------------------------------------------------------------------

/// Folds one dealer category into the running stand sum.
fn stand_accumulate(
    acc: BigRational,
    coef: &BigRational,
    dist: &BigRational,
    Ghost(t): Ghost<DealerTables>,
    Ghost(g): Ghost<BlackJackGame>,
    Ghost(k): Ghost<int>,
) -> (r: BigRational)
    requires
        0 <= k < 7,
        rule_wf(g.rule),
        rat_wf(acc),
        q_eq(rat_q(acc), spec_stand_sum(t, g, k)),
        rat_wf(*coef),
        q_eq(rat_q(*coef), stand_coef(g.rule, g.player_hand, cat_seq()[k])),
        rat_wf(*dist),
        q_eq(rat_q(*dist), spec_dist(t, g.deck_cards, g.dealer_card, cat_seq()[k])),
    ensures
        rat_wf(r),
        q_eq(rat_q(r), spec_stand_sum(t, g, k + 1)),
{
    let term = rat_mul(coef, dist);
    let r = rat_add(&acc, &term);
    proof {
        let scoef = stand_coef(g.rule, g.player_hand, cat_seq()[k]);
        let sdist = spec_dist(t, g.deck_cards, g.dealer_card, cat_seq()[k]);
        let sterm = q_mul(scoef, sdist);
        lemma_stand_coef_wf(g.rule, g.player_hand, cat_seq()[k]);
        lemma_entries_sum_wf(g.deck_cards, table_entries(t, g.dealer_card, cat_seq()[k]));
        lemma_stand_sum_wf(t, g, k);
        lemma_q_ops_wf(scoef, sdist);
        lemma_q_mul_congr(rat_q(*coef), scoef, rat_q(*dist), sdist);
        lemma_q_eq_trans(rat_q(term), q_mul(rat_q(*coef), rat_q(*dist)), sterm);
        lemma_q_add_congr(rat_q(acc), spec_stand_sum(t, g, k), rat_q(term), sterm);
        lemma_q_eq_trans(
            rat_q(r),
            q_add(rat_q(acc), rat_q(term)),
            q_add(spec_stand_sum(t, g, k), sterm),
        );
        assert(spec_stand_sum(t, g, k + 1) == q_add(spec_stand_sum(t, g, k), sterm));
    }
    r
}

/// A payout coefficient keeps a positive denominator.
pub proof fn lemma_stand_coef_wf(rule: Rule, hand: Hand, cat: HandTotal)
    requires
        rule_wf(rule),
    ensures
        q_wf(stand_coef(rule, hand, cat)),
{
}

impl BlackJackGame {
    /// Builds a decision node.
    pub fn new(
        rule: Rule,
        dealer_card: Card,
        player_hand: Hand,
        deck_cards: Deck,
        player_card_count: usize,
    ) -> (r: BlackJackGame)
        ensures
            r == (BlackJackGame { rule, dealer_card, player_hand, deck_cards, player_card_count }),
    {
        BlackJackGame { rule, dealer_card, player_hand, deck_cards, player_card_count }
    }

    /// The exec payout coefficient of one dealer category for this hand.
    fn coef_for(&self, cat: HandTotal) -> (r: BigRational)
        requires
            rule_wf(self.rule),
            hand_wf(self.player_hand),
            is_dealer_cat(cat),
        ensures
            rat_wf(r),
            q_eq(rat_q(r), stand_coef(self.rule, self.player_hand, cat)),
    {
        if self.player_hand.is_blackjack() {
            if cat.is_blackjack() {
                rat_from_i64(0)
            } else {
                rat_from_usize(
                    self.rule.multiplier_black_jack.numer,
                    self.rule.multiplier_black_jack.denom,
                )
            }
        } else if cat.is_blackjack() {
            rat_from_i64(-1)
        } else if cat.is_burst() {
            rat_from_i64(1)
        } else {
            let ut = self.player_hand.hand_total();
            match (cat, ut) {
                (HandTotal::Value(v), HandTotal::Value(u)) => {
                    if v < u {
                        rat_from_i64(1)
                    } else if v > u {
                        rat_from_i64(-1)
                    } else {
                        rat_from_i64(0)
                    }
                },
                _ => rat_from_i64(0),
            }
        }
    }

    /// Raw stand value: charlie pays one, a bust loses one, and otherwise
    /// the dealer distribution is resolved exactly against this hand.
    fn stand_ev_core(
        &self,
        ctx: &mut EvContext,
        token: Option<&CancellationToken>,
    ) -> (r: Result<BigRational, ()>)
        requires
            game_wf(*self),
            ctx_wf(*old(ctx)),
        ensures
            ctx_wf(*final(ctx)),
            final(ctx).tables == old(ctx).tables,
            token is None ==> r is Ok,
            r matches Ok(v) ==> rat_wf(v) && q_eq(rat_q(v), spec_stand_ev(old(ctx).tables, *self)),
    {
        let ghost t = ctx.tables;
        if self.rule.six_card_charlie && self.player_card_count >= 6 {
            return Ok(rat_from_i64(1));
        }
        if self.player_hand.is_burst() {
            return Ok(rat_from_i64(-1));
        }
        if is_cancelled_opt(token) {
            return Err(());
        }
        proof {
            lemma_count_le_total(self.deck_cards, Card::Ace);
        }
        let row = ctx.dealer_row(&self.deck_cards, self.dealer_card);
        let mut acc = rat_from_i64(0);
        proof {
            assert(rat_q(acc) == q_int(0));
            assert(cat_seq()[0] == HandTotal::Value(17));
            assert(cat_seq()[1] == HandTotal::Value(18));
            assert(cat_seq()[2] == HandTotal::Value(19));
            assert(cat_seq()[3] == HandTotal::Value(20));
            assert(cat_seq()[4] == HandTotal::Value(21));
            assert(cat_seq()[5] == HandTotal::BlackJack);
            assert(cat_seq()[6] == HandTotal::Burst);
        }
        acc = stand_accumulate(
            acc,
            &self.coef_for(HandTotal::Value(17)),
            row.get(&HandTotal::Value(17)),
            Ghost(t),
            Ghost(*self),
            Ghost(0),
        );
        acc = stand_accumulate(
            acc,
            &self.coef_for(HandTotal::Value(18)),
            row.get(&HandTotal::Value(18)),
            Ghost(t),
            Ghost(*self),
            Ghost(1),
        );
        acc = stand_accumulate(
            acc,
            &self.coef_for(HandTotal::Value(19)),
            row.get(&HandTotal::Value(19)),
            Ghost(t),
            Ghost(*self),
            Ghost(2),
        );
        acc = stand_accumulate(
            acc,
            &self.coef_for(HandTotal::Value(20)),
            row.get(&HandTotal::Value(20)),
            Ghost(t),
            Ghost(*self),
            Ghost(3),
        );
        acc = stand_accumulate(
            acc,
            &self.coef_for(HandTotal::Value(21)),
            row.get(&HandTotal::Value(21)),
            Ghost(t),
            Ghost(*self),
            Ghost(4),
        );
        acc = stand_accumulate(
            acc,
            &self.coef_for(HandTotal::BlackJack),
            row.get(&HandTotal::BlackJack),
            Ghost(t),
            Ghost(*self),
            Ghost(5),
        );
        acc = stand_accumulate(
            acc,
            &self.coef_for(HandTotal::Burst),
            row.get(&HandTotal::Burst),
            Ghost(t),
            Ghost(*self),
            Ghost(6),
        );
        Ok(acc)
    }

    /// Memoized stand value: a bust or an eleven-or-less total stands at
    /// exactly minus one; anything else goes through the stand cache.
    fn get_stand_ev_core(
        &self,
        ctx: &mut EvContext,
        token: Option<&CancellationToken>,
    ) -> (r: Result<BigRational, ()>)
        requires
            game_wf(*self),
            ctx_wf(*old(ctx)),
        ensures
            ctx_wf(*final(ctx)),
            final(ctx).tables == old(ctx).tables,
            token is None ==> r is Ok,
            r matches Ok(v) ==> rat_wf(v) && q_eq(
                rat_q(v),
                spec_get_stand_ev(old(ctx).tables, *self),
            ),
    {
        let ghost t = ctx.tables;
        if self.player_hand.is_lteq_11() || self.player_hand.is_burst() {
            return Ok(rat_from_i64(-1));
        }
        if let Some(v) = ctx.stand_cache.lookup(self, Ghost(t), Ghost(false)) {
            return Ok(v);
        }
        let ev = match self.stand_ev_core(ctx, token) {
            Ok(v) => v,
            Err(e) => {
                return Err(e);
            },
        };
        ctx.stand_cache.insert(self, &ev, Ghost(t), Ghost(false));
        Ok(ev)
    }

    /// Raw hit value: for every remaining rank, draw it, play the better of
    /// hit and stand from there, and weight by the exact draw chance.
    fn hit_ev_core(
        &self,
        ctx: &mut EvContext,
        token: Option<&CancellationToken>,
    ) -> (r: Result<BigRational, ()>)
        requires
            game_wf(*self),
            hand_addable(self.player_hand),
            ctx_wf(*old(ctx)),
        ensures
            ctx_wf(*final(ctx)),
            final(ctx).tables == old(ctx).tables,
            token is None ==> r is Ok,
            r matches Ok(v) ==> rat_wf(v) && q_eq(rat_q(v), spec_hit_ev(old(ctx).tables, *self)),
        decreases deck_total(self.deck_cards), 1int,
    {
        let ghost t = ctx.tables;
        if is_cancelled_opt(token) {
            return Err(());
        }
        let ranks = self.deck_cards.remaining_ranks();
        let mut acc = rat_from_i64(0);
        let mut k: usize = 0;
        proof {
            lemma_remaining_len(self.deck_cards, 10);
            lemma_remaining_mem(self.deck_cards, 10);
            lemma_prefix_total_nonneg(self.deck_cards, 10);
        }
        while k < ranks.len()
            invariant
                0 <= k <= ranks@.len(),
                ranks@ == remaining_seq(self.deck_cards),
                ranks@.len() <= 10,
                game_wf(*self),
                hand_addable(self.player_hand),
                ctx_wf(*ctx),
                ctx.tables == t,
                t == old(ctx).tables,
                rat_wf(acc),
                q_eq(rat_q(acc), spec_hit_sum(t, *self, k as int)),
            decreases ranks@.len() - k,
        {
            if is_cancelled_opt(token) {
                return Err(());
            }
            let c = ranks[k];
            proof {
                lemma_remaining_mem(self.deck_cards, 10);
                assert(deck_count(self.deck_cards, c) > 0);
                lemma_count_le_total(self.deck_cards, c);
                lemma_remove_total(self.deck_cards, c);
            }
            let child = BlackJackGame {
                rule: self.rule,
                dealer_card: self.dealer_card,
                player_hand: self.player_hand.add(c),
                deck_cards: self.deck_cards.remove(c),
                player_card_count: self.player_card_count + 1,
            };
            proof {
                assert(child == spec_advance(*self, c));
                lemma_prefix_total_nonneg(child.deck_cards, 10);
            }
            let hos = match child.hit_or_stand_ev_core(ctx, token) {
                Ok(v) => v,
                Err(e) => {
                    return Err(e);
                },
            };
            let p = self.deck_cards.draw_probability(c);
            let term = rat_mul(&hos, &p);
            let ghost acc0 = acc;
            acc = rat_add(&acc, &term);
            proof {
                let shos = spec_hos_ev(t, spec_advance(*self, c));
                let sfrac = q_frac(deck_count(self.deck_cards, c), deck_total(self.deck_cards));
                let sterm = q_mul(shos, sfrac);
                lemma_hos_ev_wf(t, spec_advance(*self, c));
                lemma_hit_sum_wf(t, *self, k as int);
                lemma_q_ops_wf(shos, sfrac);
                lemma_q_mul_congr(rat_q(hos), shos, rat_q(p), sfrac);
                lemma_q_eq_trans(rat_q(term), q_mul(rat_q(hos), rat_q(p)), sterm);
                lemma_q_add_congr(rat_q(acc0), spec_hit_sum(t, *self, k as int), rat_q(term), sterm);
                lemma_q_eq_trans(
                    rat_q(acc),
                    q_add(rat_q(acc0), rat_q(term)),
                    q_add(spec_hit_sum(t, *self, k as int), sterm),
                );
                assert(spec_hit_sum(t, *self, k + 1) == q_add(
                    spec_hit_sum(t, *self, k as int),
                    sterm,
                ));
            }
            k = k + 1;
        }
        proof {
            assert(spec_hit_ev(t, *self) == spec_hit_sum(
                t,
                *self,
                remaining_seq(self.deck_cards).len() as int,
            ));
        }
        Ok(acc)
    }

    /// Memoized hit value; absent once the hand stands at twenty-one, is a
    /// natural, or is busted.
    fn get_hit_ev_core(
        &self,
        ctx: &mut EvContext,
        token: Option<&CancellationToken>,
    ) -> (r: Result<Option<BigRational>, ()>)
        requires
            game_wf(*self),
            ctx_wf(*old(ctx)),
        ensures
            ctx_wf(*final(ctx)),
            final(ctx).tables == old(ctx).tables,
            token is None ==> r is Ok,
            r matches Ok(o) ==> (o is Some <==> !hit_unavailable(self.player_hand)),
            r matches Ok(o) ==> (o matches Some(v) ==> rat_wf(v) && q_eq(
                rat_q(v),
                spec_hit_ev(old(ctx).tables, *self),
            )),
        decreases deck_total(self.deck_cards), 2int,
    {
        let ghost t = ctx.tables;
        if self.player_hand.is_21() || self.player_hand.is_blackjack()
            || self.player_hand.is_burst() {
            return Ok(None);
        }
        if let Some(v) = ctx.hit_cache.lookup(self, Ghost(t), Ghost(true)) {
            return Ok(Some(v));
        }
        proof {
            lemma_prefix_total_nonneg(self.deck_cards, 10);
        }
        let ev = match self.hit_ev_core(ctx, token) {
            Ok(v) => v,
            Err(e) => {
                return Err(e);
            },
        };
        ctx.hit_cache.insert(self, &ev, Ghost(t), Ghost(true));
        Ok(Some(ev))
    }

    /// The better of standing and hitting, ties toward standing.
    fn hit_or_stand_ev_core(
        &self,
        ctx: &mut EvContext,
        token: Option<&CancellationToken>,
    ) -> (r: Result<BigRational, ()>)
        requires
            game_wf(*self),
            ctx_wf(*old(ctx)),
        ensures
            ctx_wf(*final(ctx)),
            final(ctx).tables == old(ctx).tables,
            token is None ==> r is Ok,
            r matches Ok(v) ==> rat_wf(v) && q_eq(rat_q(v), spec_hos_ev(old(ctx).tables, *self)),
        decreases deck_total(self.deck_cards), 3int,
    {
        let ghost t = ctx.tables;
        proof {
            lemma_prefix_total_nonneg(self.deck_cards, 10);
        }
        let stand = match self.get_stand_ev_core(ctx, token) {
            Ok(v) => v,
            Err(e) => {
                return Err(e);
            },
        };
        let hit = match self.get_hit_ev_core(ctx, token) {
            Ok(v) => v,
            Err(e) => {
                return Err(e);
            },
        };
        proof {
            lemma_stand_ev_wf(t, *self);
            if !hit_unavailable(self.player_hand) {
                lemma_hit_ev_wf(t, *self);
            }
        }
        if let Some(h) = hit {
            proof {
                lemma_q_lt_congr(
                    rat_q(stand),
                    spec_get_stand_ev(t, *self),
                    rat_q(h),
                    spec_hit_ev(t, *self),
                );
            }
            if rat_lt(&stand, &h) {
                return Ok(h);
            }
        }
        Ok(stand)
    }
}

/// The values of the four actions at one node; an action that the state
/// rules out is absent.
pub struct ActionEV {
    pub stand: BigRational,
    pub hit: Option<BigRational>,
    pub double: Option<BigRational>,
    pub split: Option<BigRational>,
}

pub open spec fn opt_q(o: Option<BigRational>) -> Option<Q> {
    match o {
        None => None,
        Some(v) => Some(rat_q(v)),
    }
}

pub open spec fn action_wf(a: ActionEV) -> bool {
    &&& rat_wf(a.stand)
    &&& (a.hit matches Some(v) ==> rat_wf(v))
    &&& (a.double matches Some(v) ==> rat_wf(v))
    &&& (a.split matches Some(v) ==> rat_wf(v))
}

/// The best of the recorded actions, ties toward the earlier of stand,
/// hit, double, split.
pub open spec fn action_max_q(a: ActionEV) -> Q {
    q_max_step(
        q_max_step(q_max_step(rat_q(a.stand), opt_q(a.hit)), opt_q(a.double)),
        opt_q(a.split),
    )
}

/// The four fields are exactly the four spec action values of g.
pub open spec fn action_matches(a: ActionEV, t: DealerTables, g: BlackJackGame) -> bool {
    &&& action_wf(a)
    &&& q_eq(rat_q(a.stand), spec_get_stand_ev(t, g))
    &&& (a.hit is Some <==> spec_hit_opt(t, g) is Some)
    &&& (a.hit matches Some(v) ==> q_eq(rat_q(v), spec_hit_ev(t, g)))
    &&& (a.double is Some <==> spec_double_opt(t, g) is Some)
    &&& (a.double matches Some(v) ==> q_eq(rat_q(v), spec_double_ev(t, g)))
    &&& (a.split is Some <==> spec_split_opt(t, g) is Some)
    &&& (a.split matches Some(v) ==> (g.player_hand matches Hand::Pair(p) ==> q_eq(
        rat_q(v),
        spec_split_ev(t, g, p),
    )))
}

proof fn lemma_q_max_step_congr(a: Q, a2: Q, o: Option<Q>, o2: Option<Q>)
    requires
        q_wf(a),
        q_wf(a2),
        q_eq(a, a2),
        o is Some <==> o2 is Some,
        o matches Some(v) ==> q_wf(v),
        o2 matches Some(v) ==> q_wf(v),
        o matches Some(v) ==> (o2 matches Some(v2) ==> q_eq(v, v2)),
    ensures
        q_wf(q_max_step(a, o)),
        q_wf(q_max_step(a2, o2)),
        q_eq(q_max_step(a, o), q_max_step(a2, o2)),
{
    match o {
        None => {},
        Some(v) => {
            let v2 = o2->0;
            lemma_q_lt_congr(a, a2, v, v2);
        },
    }
}

/// The chain maximum of matching actions is the spec best-action value.
proof fn lemma_action_max_matches(a: ActionEV, t: DealerTables, g: BlackJackGame)
    requires
        rule_wf(g.rule),
        action_matches(a, t, g),
    ensures
        q_eq(action_max_q(a), spec_ev(t, g)),
        q_wf(action_max_q(a)),
{
    lemma_prefix_total_nonneg(g.deck_cards, 10);
    lemma_remaining_len(g.deck_cards, 10);
    lemma_stand_ev_wf(t, g);
    if !hit_unavailable(g.player_hand) {
        lemma_hit_ev_wf(t, g);
        lemma_double_sum_wf(t, g, remaining_seq(g.deck_cards).len() as int);
    }
    match g.player_hand {
        Hand::Pair(p) => {
            lemma_split_sum_wf(t, g, p, remaining_seq(g.deck_cards).len() as int);
        },
        _ => {},
    }
    lemma_q_max_step_congr(
        rat_q(a.stand),
        spec_get_stand_ev(t, g),
        opt_q(a.hit),
        spec_hit_opt(t, g),
    );
    lemma_q_max_step_congr(
        q_max_step(rat_q(a.stand), opt_q(a.hit)),
        q_max_step(spec_get_stand_ev(t, g), spec_hit_opt(t, g)),
        opt_q(a.double),
        spec_double_opt(t, g),
    );
    lemma_q_max_step_congr(
        q_max_step(q_max_step(rat_q(a.stand), opt_q(a.hit)), opt_q(a.double)),
        q_max_step(q_max_step(spec_get_stand_ev(t, g), spec_hit_opt(t, g)), spec_double_opt(t, g)),
        opt_q(a.split),
        spec_split_opt(t, g),
    );
}

impl ActionEV {
    /// An all-stand record, the other actions absent.
    pub fn new(stand: BigRational) -> (r: ActionEV)
        ensures
            r.stand == stand,
            r.hit is None,
            r.double is None,
            r.split is None,
    {
        ActionEV { stand, hit: None, double: None, split: None }
    }

    /// The best recorded action value, ties toward the earlier action.
    pub fn max_ev(&self) -> (r: BigRational)
        requires
            action_wf(*self),
        ensures
            rat_wf(r),
            q_eq(rat_q(r), action_max_q(*self)),
    {
        let mut m = rat_clone(&self.stand);
        if let Some(v) = &self.hit {
            if rat_lt(&m, v) {
                m = rat_clone(v);
            }
        }
        proof {
            assert(rat_q(m) == q_max_step(rat_q(self.stand), opt_q(self.hit)));
        }
        if let Some(v) = &self.double {
            if rat_lt(&m, v) {
                m = rat_clone(v);
            }
        }
        proof {
            assert(rat_q(m) == q_max_step(
                q_max_step(rat_q(self.stand), opt_q(self.hit)),
                opt_q(self.double),
            ));
        }
        if let Some(v) = &self.split {
            if rat_lt(&m, v) {
                m = rat_clone(v);
            }
        }
        m
    }
}

impl BlackJackGame {
    /// Raw double value: one forced card, then stand, at twice the stake;
    /// absent once the hand stands at twenty-one, is a natural, or busted.
    fn double_ev_core(
        &self,
        ctx: &mut EvContext,
        token: Option<&CancellationToken>,
    ) -> (r: Result<Option<BigRational>, ()>)
        requires
            game_wf(*self),
            ctx_wf(*old(ctx)),
        ensures
            ctx_wf(*final(ctx)),
            final(ctx).tables == old(ctx).tables,
            token is None ==> r is Ok,
            r matches Ok(o) ==> (o is Some <==> !hit_unavailable(self.player_hand)),
            r matches Ok(o) ==> (o matches Some(v) ==> rat_wf(v) && q_eq(
                rat_q(v),
                spec_double_ev(old(ctx).tables, *self),
            )),
    {
        let ghost t = ctx.tables;
        if self.player_hand.is_21() || self.player_hand.is_blackjack()
            || self.player_hand.is_burst() {
            return Ok(None);
        }
        let ranks = self.deck_cards.remaining_ranks();
        let two = rat_from_i64(2);
        let mut acc = rat_from_i64(0);
        let mut k: usize = 0;
        proof {
            lemma_remaining_len(self.deck_cards, 10);
            lemma_remaining_mem(self.deck_cards, 10);
            lemma_prefix_total_nonneg(self.deck_cards, 10);
        }
        while k < ranks.len()
            invariant
                0 <= k <= ranks@.len(),
                ranks@ == remaining_seq(self.deck_cards),
                ranks@.len() <= 10,
                game_wf(*self),
                hand_addable(self.player_hand),
                !hit_unavailable(self.player_hand),
                ctx_wf(*ctx),
                ctx.tables == t,
                t == old(ctx).tables,
                rat_wf(two),
                rat_q(two) == q_int(2),
                rat_wf(acc),
                q_eq(rat_q(acc), spec_double_sum(t, *self, k as int)),
            decreases ranks@.len() - k,
        {
            if is_cancelled_opt(token) {
                return Err(());
            }
            let c = ranks[k];
            proof {
                lemma_remaining_mem(self.deck_cards, 10);
                assert(deck_count(self.deck_cards, c) > 0);
                lemma_count_le_total(self.deck_cards, c);
                lemma_remove_total(self.deck_cards, c);
            }
            let child = BlackJackGame {
                rule: self.rule,
                dealer_card: self.dealer_card,
                player_hand: self.player_hand.add(c),
                deck_cards: self.deck_cards.remove(c),
                player_card_count: self.player_card_count + 1,
            };
            proof {
                assert(child == spec_advance(*self, c));
            }
            let sev = match child.stand_ev_core(ctx, token) {
                Ok(v) => v,
                Err(e) => {
                    return Err(e);
                },
            };
            let p = self.deck_cards.draw_probability(c);
            let inner = rat_mul(&sev, &p);
            let term = rat_mul(&inner, &two);
            let ghost acc0 = acc;
            acc = rat_add(&acc, &term);
            proof {
                let sstand = spec_stand_ev(t, spec_advance(*self, c));
                let sfrac = q_frac(deck_count(self.deck_cards, c), deck_total(self.deck_cards));
                let sinner = q_mul(sstand, sfrac);
                let sterm = q_mul(sinner, q_int(2));
                lemma_stand_ev_wf(t, spec_advance(*self, c));
                lemma_double_sum_wf(t, *self, k as int);
                lemma_q_ops_wf(sstand, sfrac);
                lemma_q_ops_wf(sinner, q_int(2));
                lemma_q_mul_congr(rat_q(sev), sstand, rat_q(p), sfrac);
                lemma_q_eq_trans(rat_q(inner), q_mul(rat_q(sev), rat_q(p)), sinner);
                lemma_q_mul_congr(rat_q(inner), sinner, rat_q(two), q_int(2));
                lemma_q_eq_trans(rat_q(term), q_mul(rat_q(inner), rat_q(two)), sterm);
                lemma_q_add_congr(
                    rat_q(acc0),
                    spec_double_sum(t, *self, k as int),
                    rat_q(term),
                    sterm,
                );
                lemma_q_eq_trans(
                    rat_q(acc),
                    q_add(rat_q(acc0), rat_q(term)),
                    q_add(spec_double_sum(t, *self, k as int), sterm),
                );
                assert(spec_double_sum(t, *self, k + 1) == q_add(
                    spec_double_sum(t, *self, k as int),
                    sterm,
                ));
            }
            k = k + 1;
        }
        Ok(Some(acc))
    }

    /// Raw split value, defined for pair hands: each drawn rank starts a
    /// fresh two-card hand, split aces take one card and stand, other pairs
    /// play on; both hands double the weight.
    fn split_ev_core(
        &self,
        ctx: &mut EvContext,
        token: Option<&CancellationToken>,
    ) -> (r: Result<Option<BigRational>, ()>)
        requires
            game_wf(*self),
            ctx_wf(*old(ctx)),
        ensures
            ctx_wf(*final(ctx)),
            final(ctx).tables == old(ctx).tables,
            token is None ==> r is Ok,
            r matches Ok(o) ==> (o is Some <==> self.player_hand matches Hand::Pair(_)),
            r matches Ok(o) ==> (o matches Some(v) ==> (self.player_hand matches Hand::Pair(p)
                ==> rat_wf(v) && q_eq(rat_q(v), spec_split_ev(old(ctx).tables, *self, p)))),
    {
        let ghost t = ctx.tables;
        let pc: Card;
        match self.player_hand {
            Hand::Pair(c) => {
                pc = c;
            },
            _ => {
                return Ok(None);
            },
        }
        let ranks = self.deck_cards.remaining_ranks();
        let two = rat_from_i64(2);
        let mut acc = rat_from_i64(0);
        let mut k: usize = 0;
        proof {
            lemma_remaining_len(self.deck_cards, 10);
            lemma_remaining_mem(self.deck_cards, 10);
            lemma_prefix_total_nonneg(self.deck_cards, 10);
        }
        while k < ranks.len()
            invariant
                0 <= k <= ranks@.len(),
                ranks@ == remaining_seq(self.deck_cards),
                ranks@.len() <= 10,
                game_wf(*self),
                self.player_hand == Hand::Pair(pc),
                ctx_wf(*ctx),
                ctx.tables == t,
                t == old(ctx).tables,
                rat_wf(two),
                rat_q(two) == q_int(2),
                rat_wf(acc),
                q_eq(rat_q(acc), spec_split_sum(t, *self, pc, k as int)),
            decreases ranks@.len() - k,
        {
            if is_cancelled_opt(token) {
                return Err(());
            }
            let c = ranks[k];
            proof {
                lemma_remaining_mem(self.deck_cards, 10);
                assert(deck_count(self.deck_cards, c) > 0);
                lemma_count_le_total(self.deck_cards, c);
                lemma_remove_total(self.deck_cards, c);
            }
            let cs = Cards { cards: vec![pc, c] };
            proof {
                assert(cs.cards@ =~= seq![pc, c]);
            }
            let child = BlackJackGame {
                rule: self.rule,
                dealer_card: self.dealer_card,
                player_hand: cs.to_hand(),
                deck_cards: self.deck_cards.remove(c),
                player_card_count: 1,
            };
            proof {
                assert(child == spec_split_child(*self, pc, c));
                lemma_prefix_total_nonneg(child.deck_cards, 10);
            }
            let x = if pc == Card::Ace {
                match child.get_stand_ev_core(ctx, token) {
                    Ok(v) => v,
                    Err(e) => {
                        return Err(e);
                    },
                }
            } else {
                match child.hit_or_stand_ev_core(ctx, token) {
                    Ok(v) => v,
                    Err(e) => {
                        return Err(e);
                    },
                }
            };
            let p = self.deck_cards.draw_probability(c);
            let inner = rat_mul(&x, &two);
            let term = rat_mul(&inner, &p);
            let ghost acc0 = acc;
            acc = rat_add(&acc, &term);
            proof {
                let child_s = spec_split_child(*self, pc, c);
                let sx = if pc == Card::Ace {
                    spec_get_stand_ev(t, child_s)
                } else {
                    spec_hos_ev(t, child_s)
                };
                let sfrac = q_frac(deck_count(self.deck_cards, c), deck_total(self.deck_cards));
                let sinner = q_mul(sx, q_int(2));
                let sterm = q_mul(sinner, sfrac);
                if pc == Card::Ace {
                    lemma_stand_ev_wf(t, child_s);
                } else {
                    lemma_hos_ev_wf(t, child_s);
                }
                lemma_split_sum_wf(t, *self, pc, k as int);
                lemma_q_ops_wf(sx, q_int(2));
                lemma_q_ops_wf(sinner, sfrac);
                lemma_q_mul_congr(rat_q(x), sx, rat_q(two), q_int(2));
                lemma_q_eq_trans(rat_q(inner), q_mul(rat_q(x), rat_q(two)), sinner);
                lemma_q_mul_congr(rat_q(inner), sinner, rat_q(p), sfrac);
                lemma_q_eq_trans(rat_q(term), q_mul(rat_q(inner), rat_q(p)), sterm);
                lemma_q_add_congr(
                    rat_q(acc0),
                    spec_split_sum(t, *self, pc, k as int),
                    rat_q(term),
                    sterm,
                );
                lemma_q_eq_trans(
                    rat_q(acc),
                    q_add(rat_q(acc0), rat_q(term)),
                    q_add(spec_split_sum(t, *self, pc, k as int), sterm),
                );
                assert(spec_split_sum(t, *self, pc, k + 1) == q_add(
                    spec_split_sum(t, *self, pc, k as int),
                    sterm,
                ));
            }
            k = k + 1;
        }
        Ok(Some(acc))
    }

    /// All four action values at once; fails with the cancellation error as
    /// soon as the shared flag is observed set.
    fn action_ev_core(
        &self,
        ctx: &mut EvContext,
        token: Option<&CancellationToken>,
    ) -> (r: Result<ActionEV, ()>)
        requires
            game_wf(*self),
            ctx_wf(*old(ctx)),
        ensures
            ctx_wf(*final(ctx)),
            final(ctx).tables == old(ctx).tables,
            token is None ==> r is Ok,
            r matches Ok(a) ==> action_matches(a, old(ctx).tables, *self),
    {
        let ghost t = ctx.tables;
        if is_cancelled_opt(token) {
            return Err(());
        }
        let stand = match self.get_stand_ev_core(ctx, token) {
            Ok(v) => v,
            Err(e) => {
                return Err(e);
            },
        };
        let hit = match self.get_hit_ev_core(ctx, token) {
            Ok(v) => v,
            Err(e) => {
                return Err(e);
            },
        };
        let double = match self.double_ev_core(ctx, token) {
            Ok(v) => v,
            Err(e) => {
                return Err(e);
            },
        };
        let split = match self.split_ev_core(ctx, token) {
            Ok(v) => v,
            Err(e) => {
                return Err(e);
            },
        };
        Ok(ActionEV { stand, hit, double, split })
    }

    pub(crate) fn ev_core(
        &self,
        ctx: &mut EvContext,
        token: Option<&CancellationToken>,
    ) -> (r: Result<BigRational, ()>)
        requires
            game_wf(*self),
            ctx_wf(*old(ctx)),
        ensures
            ctx_wf(*final(ctx)),
            final(ctx).tables == old(ctx).tables,
            token is None ==> r is Ok,
            r matches Ok(v) ==> rat_wf(v) && q_eq(rat_q(v), spec_ev(old(ctx).tables, *self)),
    {
        let ghost t = ctx.tables;
        let action = match self.action_ev_core(ctx, token) {
            Ok(a) => a,
            Err(e) => {
                return Err(e);
            },
        };
        let m = action.max_ev();
        proof {
            lemma_action_max_matches(action, t, *self);
            lemma_spec_ev_wf(t, *self);
            lemma_q_eq_trans(rat_q(m), action_max_q(action), spec_ev(t, *self));
        }
        Ok(m)
    }
}

impl BlackJackGame {
    /// Raw stand value under a live cancellation flag.
    pub fn stand_ev(&self, ctx: &mut EvContext, cancellation_token: &CancellationToken) -> (r:
        Result<BigRational, ()>)
        requires
            game_wf(*self),
            ctx_wf(*old(ctx)),
        ensures
            ctx_wf(*final(ctx)),
            final(ctx).tables == old(ctx).tables,
            r matches Ok(v) ==> rat_wf(v) && q_eq(rat_q(v), spec_stand_ev(old(ctx).tables, *self)),
    {
        self.stand_ev_core(ctx, Some(cancellation_token))
    }

    /// Memoized stand value under a live cancellation flag.
    pub fn get_stand_ev(&self, ctx: &mut EvContext, cancellation_token: &CancellationToken) -> (r:
        Result<BigRational, ()>)
        requires
            game_wf(*self),
            ctx_wf(*old(ctx)),
        ensures
            ctx_wf(*final(ctx)),
            final(ctx).tables == old(ctx).tables,
            r matches Ok(v) ==> rat_wf(v) && q_eq(
                rat_q(v),
                spec_get_stand_ev(old(ctx).tables, *self),
            ),
    {
        self.get_stand_ev_core(ctx, Some(cancellation_token))
    }

    /// Raw hit value under a live cancellation flag.
    pub fn hit_ev(&self, ctx: &mut EvContext, cancellation_token: &CancellationToken) -> (r:
        Result<BigRational, ()>)
        requires
            game_wf(*self),
            hand_addable(self.player_hand),
            ctx_wf(*old(ctx)),
        ensures
            ctx_wf(*final(ctx)),
            final(ctx).tables == old(ctx).tables,
            r matches Ok(v) ==> rat_wf(v) && q_eq(rat_q(v), spec_hit_ev(old(ctx).tables, *self)),
    {
        self.hit_ev_core(ctx, Some(cancellation_token))
    }

    /// Memoized hit value under a live cancellation flag.
    pub fn get_hit_ev(&self, ctx: &mut EvContext, cancellation_token: &CancellationToken) -> (r:
        Result<Option<BigRational>, ()>)
        requires
            game_wf(*self),
            ctx_wf(*old(ctx)),
        ensures
            ctx_wf(*final(ctx)),
            final(ctx).tables == old(ctx).tables,
            r matches Ok(o) ==> (o is Some <==> !hit_unavailable(self.player_hand)),
            r matches Ok(o) ==> (o matches Some(v) ==> rat_wf(v) && q_eq(
                rat_q(v),
                spec_hit_ev(old(ctx).tables, *self),
            )),
    {
        self.get_hit_ev_core(ctx, Some(cancellation_token))
    }

    /// Double value under a live cancellation flag.
    pub fn double_ev(&self, ctx: &mut EvContext, cancellation_token: &CancellationToken) -> (r:
        Result<Option<BigRational>, ()>)
        requires
            game_wf(*self),
            ctx_wf(*old(ctx)),
        ensures
            ctx_wf(*final(ctx)),
            final(ctx).tables == old(ctx).tables,
            r matches Ok(o) ==> (o is Some <==> !hit_unavailable(self.player_hand)),
            r matches Ok(o) ==> (o matches Some(v) ==> rat_wf(v) && q_eq(
                rat_q(v),
                spec_double_ev(old(ctx).tables, *self),
            )),
    {
        self.double_ev_core(ctx, Some(cancellation_token))
    }

    /// Split value under a live cancellation flag.
    pub fn split_ev(&self, ctx: &mut EvContext, cancellation_token: &CancellationToken) -> (r:
        Result<Option<BigRational>, ()>)
        requires
            game_wf(*self),
            ctx_wf(*old(ctx)),
        ensures
            ctx_wf(*final(ctx)),
            final(ctx).tables == old(ctx).tables,
            r matches Ok(o) ==> (o is Some <==> self.player_hand matches Hand::Pair(_)),
            r matches Ok(o) ==> (o matches Some(v) ==> (self.player_hand matches Hand::Pair(p)
                ==> rat_wf(v) && q_eq(rat_q(v), spec_split_ev(old(ctx).tables, *self, p)))),
    {
        self.split_ev_core(ctx, Some(cancellation_token))
    }

    /// The better of standing and hitting under a live cancellation flag.
    pub fn hit_or_stand_ev(&self, ctx: &mut EvContext, cancellation_token: &CancellationToken) -> (
        r: Result<BigRational, ()>)
        requires
            game_wf(*self),
            ctx_wf(*old(ctx)),
        ensures
            ctx_wf(*final(ctx)),
            final(ctx).tables == old(ctx).tables,
            r matches Ok(v) ==> rat_wf(v) && q_eq(rat_q(v), spec_hos_ev(old(ctx).tables, *self)),
    {
        proof {
            lemma_prefix_total_nonneg(self.deck_cards, 10);
        }
        self.hit_or_stand_ev_core(ctx, Some(cancellation_token))
    }

    /// All four action values under a live cancellation flag.
    pub fn action_ev(&self, ctx: &mut EvContext, cancellation_token: &CancellationToken) -> (r:
        Result<ActionEV, ()>)
        requires
            game_wf(*self),
            ctx_wf(*old(ctx)),
        ensures
            ctx_wf(*final(ctx)),
            final(ctx).tables == old(ctx).tables,
            r matches Ok(a) ==> action_matches(a, old(ctx).tables, *self),
    {
        self.action_ev_core(ctx, Some(cancellation_token))
    }

    /// The best action value under a live cancellation flag; cancellation
    /// yields the error and never a partial value.
    pub fn ev_with_cancellation_token(
        &self,
        ctx: &mut EvContext,
        cancellation_token: &CancellationToken,
    ) -> (r: Result<BigRational, ()>)
        requires
            game_wf(*self),
            ctx_wf(*old(ctx)),
        ensures
            ctx_wf(*final(ctx)),
            final(ctx).tables == old(ctx).tables,
            r matches Ok(v) ==> rat_wf(v) && q_eq(rat_q(v), spec_ev(old(ctx).tables, *self)),
    {
        self.ev_core(ctx, Some(cancellation_token))
    }

    /// The best action value, exactly. With nothing to cancel it always
    /// answers, and two calls on equal nodes stand for the same rational.
    pub fn ev(&self, ctx: &mut EvContext) -> (r: BigRational)
        requires
            game_wf(*self),
            ctx_wf(*old(ctx)),
        ensures
            ctx_wf(*final(ctx)),
            final(ctx).tables == old(ctx).tables,
            rat_wf(r),
            q_eq(rat_q(r), spec_ev(old(ctx).tables, *self)),
    {
        match self.ev_core(ctx, None) {
            Ok(v) => v,
            Err(_) => {
                proof {
                    assert(false);
                }
                rat_from_i64(0)
            },
        }
    }

    /// Records a stand value in the cache; the value must be the exact
    /// stand value of this node, which keeps reinsertion harmless.
    pub fn insert_stand_ev(&self, ctx: &mut EvContext, ev: &BigRational)
        requires
            ctx_wf(*old(ctx)),
            rat_wf(*ev),
            q_eq(rat_q(*ev), spec_stand_ev(old(ctx).tables, *self)),
        ensures
            ctx_wf(*final(ctx)),
            final(ctx).tables == old(ctx).tables,
    {
        let ghost t = ctx.tables;
        ctx.stand_cache.insert(self, ev, Ghost(t), Ghost(false));
    }

    /// Records a hit value in the cache; the value must be the exact hit
    /// value of this node, which keeps reinsertion harmless.
    pub fn insert_hit_ev(&self, ctx: &mut EvContext, ev: &BigRational)
        requires
            ctx_wf(*old(ctx)),
            rat_wf(*ev),
            q_eq(rat_q(*ev), spec_hit_ev(old(ctx).tables, *self)),
        ensures
            ctx_wf(*final(ctx)),
            final(ctx).tables == old(ctx).tables,
    {
        let ghost t = ctx.tables;
        ctx.hit_cache.insert(self, ev, Ghost(t), Ghost(true));
    }
}

// ---------------------------------------------------------------------------
// Laws of the solver.
// ---------------------------------------------------------------------------

/// A busted hand stands at exactly minus one, and so does a hard or soft
/// total of eleven or less.
pub proof fn lemma_stand_terminal_loss(t: DealerTables, g: BlackJackGame)
    requires
        hand_is_burst(g.player_hand) || hand_is_lteq_11(g.player_hand),
    ensures
        q_eq(spec_get_stand_ev(t, g), q_int(-1)),
{
}

/// With six-card charlie on and six or more player cards, the stand value
/// is exactly plus one, whatever the totals.
pub proof fn lemma_six_card_charlie(t: DealerTables, g: BlackJackGame)
    requires
        g.rule.six_card_charlie,
        g.player_card_count >= 6,
    ensures
        q_eq(spec_stand_ev(t, g), q_int(1)),
{
}

/// Repeated evaluations of one node are bit-stable: any two values that
/// meet the evaluator contract for the same node and tables stand for the
/// same rational. Clearing the caches keeps the tables, so recomputation
/// answers the same value again.
pub proof fn lemma_ev_deterministic(t: DealerTables, g: BlackJackGame, v1: Q, v2: Q)
    requires
        rule_wf(g.rule),
        q_eq(v1, spec_ev(t, g)),
        q_eq(v2, spec_ev(t, g)),
        q_wf(v1),
        q_wf(v2),
    ensures
        q_eq(v1, v2),
{
    lemma_spec_ev_wf(t, g);
    lemma_q_eq_trans(v1, spec_ev(t, g), v2);
}

// ---------------------------------------------------------------------------
// The player-natural law: a natural hand stands at the configured
// multiplier against a shoe that cannot complete a dealer natural, and
// pushes to zero where the dealer natural is certain.
// ---------------------------------------------------------------------------

/// The configured natural-blackjack multiplier as a rational.
pub open spec fn bj_multiplier(rule: Rule) -> Q {
    q_frac(rule.multiplier_black_jack.numer as int, rule.multiplier_black_jack.denom as int)
}

/// The dealer-natural mass counted by the first k walked categories.
pub open spec fn bj_part(t: DealerTables, g: BlackJackGame, k: int) -> Q {
    if k >= 6 {
        spec_dist(t, g.deck_cards, g.dealer_card, HandTotal::BlackJack)
    } else {
        q_int(0)
    }
}

/// For a natural player hand, the stand sum factors into the multiplier
/// times the walked probability mass less the dealer-natural mass.
proof fn lemma_bj_stand_sum(t: DealerTables, g: BlackJackGame, k: int)
    requires
        rule_wf(g.rule),
        hand_is_blackjack(g.player_hand),
        0 <= k <= 7,
    ensures
        q_eq(
            spec_stand_sum(t, g, k),
            q_mul(
                bj_multiplier(g.rule),
                q_sub(
                    crate::dealer::dist_sum(t, g.deck_cards, g.dealer_card, k),
                    bj_part(t, g, k),
                ),
            ),
        ),
    decreases k,
{
    let m = bj_multiplier(g.rule);
    let deck = g.deck_cards;
    let up = g.dealer_card;
    assert(cat_seq()[0] == HandTotal::Value(17));
    assert(cat_seq()[1] == HandTotal::Value(18));
    assert(cat_seq()[2] == HandTotal::Value(19));
    assert(cat_seq()[3] == HandTotal::Value(20));
    assert(cat_seq()[4] == HandTotal::Value(21));
    assert(cat_seq()[5] == HandTotal::BlackJack);
    assert(cat_seq()[6] == HandTotal::Burst);
    if k == 0 {
        let z = q_sub(q_int(0), q_int(0));
        assert(z.n == 0 * 1 - 0 * 1);
        assert(z.n == 0);
        assert(z.d == 1 * 1);
        assert(q_mul(m, z).n == m.n * 0);
        assert(m.n * 0 == 0) by (nonlinear_arith);
        assert(spec_stand_sum(t, g, 0).n == 0);
        assert(q_eq(spec_stand_sum(t, g, 0), q_mul(m, z))) by (nonlinear_arith)
            requires
                spec_stand_sum(t, g, 0).n == 0,
                q_mul(m, z).n == 0,
        {
        }
    } else {
        lemma_bj_stand_sum(t, g, k - 1);
        let cat = cat_seq()[k - 1];
        let d = spec_dist(t, deck, up, cat);
        let dsum_prev = crate::dealer::dist_sum(t, deck, up, k - 1);
        let bprev = bj_part(t, g, k - 1);
        let rprev = q_mul(m, q_sub(dsum_prev, bprev));
        let sprev = spec_stand_sum(t, g, k - 1);
        lemma_stand_sum_wf(t, g, k - 1);
        crate::dealer::lemma_dist_sum_wf(t, deck, up, k - 1);
        lemma_entries_sum_wf(deck, table_entries(t, up, cat));
        lemma_entries_sum_wf(deck, table_entries(t, up, HandTotal::BlackJack));
        assert(q_wf(bprev) && q_wf(bj_part(t, g, k)));
        lemma_q_ops_wf(dsum_prev, bprev);
        lemma_q_ops_wf(m, q_sub(dsum_prev, bprev));
        if k - 1 == 5 {
            // the natural category contributes nothing to a natural hand
            assert(stand_coef(g.rule, g.player_hand, cat) == q_int(0));
            assert(spec_stand_sum(t, g, k) == q_add(sprev, q_mul(q_int(0), d)));
            assert(q_mul(q_int(0), d).n == 0) by (nonlinear_arith);
            crate::rational::lemma_q_add_zero(sprev, q_mul(q_int(0), d));
            assert(bprev == q_int(0));
            // the target subtracts the natural mass right back out
            let dsum_cur = crate::dealer::dist_sum(t, deck, up, k);
            assert(dsum_cur == q_add(dsum_prev, d));
            assert(bj_part(t, g, k) == d);
            lemma_q_ops_wf(dsum_prev, q_int(0));
            lemma_q_ops_wf(dsum_prev, d);
            lemma_q_ops_wf(q_add(dsum_prev, d), d);
            // both subtractions stand for the bare walked mass
            assert(q_eq(q_sub(dsum_prev, q_int(0)), dsum_prev)) by (nonlinear_arith)
                requires
                    q_sub(dsum_prev, q_int(0)).n == dsum_prev.n * 1 - 0 * dsum_prev.d,
                    q_sub(dsum_prev, q_int(0)).d == dsum_prev.d * 1,
            {
            }
            crate::rational::lemma_q_add_sub_cancel(dsum_prev, d);
            lemma_q_eq_trans(q_sub(dsum_prev, q_int(0)), dsum_prev, dsum_prev);
            assert(q_eq(q_sub(dsum_cur, d), dsum_prev));
            lemma_q_mul_congr(m, m, q_sub(dsum_prev, q_int(0)), dsum_prev);
            lemma_q_mul_congr(m, m, q_sub(dsum_cur, d), dsum_prev);
            lemma_q_ops_wf(m, dsum_prev);
            lemma_q_ops_wf(m, q_sub(dsum_prev, q_int(0)));
            // chain: s_k ~ s_prev ~ m (dsum_prev - 0) ~ m dsum_prev ~ target
            lemma_q_eq_trans(spec_stand_sum(t, g, k), sprev, rprev);
            lemma_q_eq_trans(spec_stand_sum(t, g, k), rprev, q_mul(m, dsum_prev));
            lemma_q_eq_trans(
                spec_stand_sum(t, g, k),
                q_mul(m, dsum_prev),
                q_mul(m, q_sub(dsum_cur, bj_part(t, g, k))),
            );
        } else {
            assert(cat != HandTotal::BlackJack);
            assert(stand_coef(g.rule, g.player_hand, cat) == m);
            assert(spec_stand_sum(t, g, k) == q_add(sprev, q_mul(m, d)));
            assert(bj_part(t, g, k) == bprev);
            // rewrite the previous term as m times a sum, then distribute
            let x = q_add(dsum_prev, q_neg(bprev));
            crate::rational::lemma_q_sub_is_add_neg(dsum_prev, bprev);
            assert(rprev == q_mul(m, x));
            lemma_q_ops_wf(m, d);
            assert(q_wf(q_mul(m, x))) by {
                assert(m.d * x.d > 0) by (nonlinear_arith)
                    requires
                        m.d > 0,
                        x.d > 0,
                {
                }
            }
            lemma_q_add_congr(sprev, rprev, q_mul(m, d), q_mul(m, d));
            crate::rational::lemma_q_distrib(m, x, d);
            // regroup the sum so the natural mass sits outside
            crate::rational::lemma_q_add_assoc(dsum_prev, q_neg(bprev), d);
            assert(q_add(q_neg(bprev), d) == q_add(d, q_neg(bprev)));
            crate::rational::lemma_q_add_assoc(dsum_prev, d, q_neg(bprev));
            assert(q_add(x, d) == q_add(q_add(dsum_prev, d), q_neg(bprev)));
            crate::rational::lemma_q_sub_is_add_neg(q_add(dsum_prev, d), bprev);
            assert(q_add(x, d) == q_sub(q_add(dsum_prev, d), bprev));
            assert(crate::dealer::dist_sum(t, deck, up, k) == q_add(dsum_prev, d));
            // chain: s_k ~ r_prev + m d ~ m (x + d) == target
            assert(q_wf(q_add(rprev, q_mul(m, d)))) by {
                assert(rprev.d * (q_mul(m, d)).d > 0) by (nonlinear_arith)
                    requires
                        rprev.d > 0,
                        (q_mul(m, d)).d > 0,
                {
                }
            }
            lemma_q_eq_trans(
                spec_stand_sum(t, g, k),
                q_add(rprev, q_mul(m, d)),
                q_mul(m, q_add(x, d)),
            );
        }
    }
}

/// Player natural against a shoe whose dealer-natural chance is zero: the
/// stand value is exactly the configured multiplier. Against a certain
/// dealer natural the hands push and the stand value is exactly zero.
/// Both need the tables to cover the deck; a shoe too thin for the dealer
/// to finish a round breaks that coverage.
pub proof fn lemma_player_blackjack_stand(t: DealerTables, g: BlackJackGame)
    requires
        rule_wf(g.rule),
        hand_is_blackjack(g.player_hand),
        !(g.rule.six_card_charlie && g.player_card_count >= 6),
        crate::dealer::table_covers(t, g.deck_cards, g.dealer_card),
    ensures
        q_eq(
            spec_dist(t, g.deck_cards, g.dealer_card, HandTotal::BlackJack),
            q_int(0),
        ) ==> q_eq(spec_stand_ev(t, g), bj_multiplier(g.rule)),
        q_eq(
            spec_dist(t, g.deck_cards, g.dealer_card, HandTotal::BlackJack),
            q_int(1),
        ) ==> q_eq(spec_stand_ev(t, g), q_int(0)),
{
    let m = bj_multiplier(g.rule);
    let deck = g.deck_cards;
    let up = g.dealer_card;
    let b = spec_dist(t, deck, up, HandTotal::BlackJack);
    let d7 = crate::dealer::dist_sum(t, deck, up, 7);
    lemma_bj_stand_sum(t, g, 7);
    assert(bj_part(t, g, 7) == b);
    crate::dealer::lemma_dist_sum_wf(t, deck, up, 7);
    assert(cat_seq()[5] == HandTotal::BlackJack);
    lemma_entries_sum_wf(deck, table_entries(t, up, HandTotal::BlackJack));
    assert(spec_stand_ev(t, g) == spec_stand_sum(t, g, 7));
    if q_eq(b, q_int(0)) {
        lemma_q_sub_congr(d7, q_int(1), b, q_int(0));
        assert(q_sub(q_int(1), q_int(0)) == q_int(1));
        lemma_q_mul_congr(m, m, q_sub(d7, b), q_int(1));
        assert(q_mul(m, q_int(1)) == m);
        lemma_q_ops_wf(d7, b);
        lemma_q_ops_wf(m, q_sub(d7, b));
        lemma_q_eq_trans(spec_stand_ev(t, g), q_mul(m, q_sub(d7, b)), m);
    }
    if q_eq(b, q_int(1)) {
        lemma_q_sub_congr(d7, q_int(1), b, q_int(1));
        assert(q_sub(q_int(1), q_int(1)) == q_int(0));
        lemma_q_mul_congr(m, m, q_sub(d7, b), q_int(0));
        assert(q_eq(q_mul(m, q_int(0)), q_int(0)));
        lemma_q_ops_wf(d7, b);
        lemma_q_ops_wf(m, q_sub(d7, b));
        lemma_q_eq_trans(spec_stand_ev(t, g), q_mul(m, q_sub(d7, b)), q_mul(m, q_int(0)));
        lemma_q_eq_trans(spec_stand_ev(t, g), q_mul(m, q_int(0)), q_int(0));
    }
}

/// Partial stand sums where every non-natural category carries zero
/// probability: only the natural term remains.
proof fn lemma_zero_cats_sum(t: DealerTables, g: BlackJackGame, k: int)
    requires
        rule_wf(g.rule),
        !hand_is_blackjack(g.player_hand),
        0 <= k <= 7,
        forall|j: int| 0 <= j < 7 && j != 5 ==> q_eq(
            #[trigger] spec_dist(t, g.deck_cards, g.dealer_card, cat_seq()[j]),
            q_int(0),
        ),
    ensures
        k <= 5 ==> q_eq(spec_stand_sum(t, g, k), q_int(0)),
        k >= 6 ==> q_eq(
            spec_stand_sum(t, g, k),
            q_mul(q_int(-1), spec_dist(t, g.deck_cards, g.dealer_card, HandTotal::BlackJack)),
        ),
    decreases k,
{
    let deck = g.deck_cards;
    let up = g.dealer_card;
    assert(cat_seq()[0] == HandTotal::Value(17));
    assert(cat_seq()[1] == HandTotal::Value(18));
    assert(cat_seq()[2] == HandTotal::Value(19));
    assert(cat_seq()[3] == HandTotal::Value(20));
    assert(cat_seq()[4] == HandTotal::Value(21));
    assert(cat_seq()[5] == HandTotal::BlackJack);
    assert(cat_seq()[6] == HandTotal::Burst);
    if k > 0 {
        lemma_zero_cats_sum(t, g, k - 1);
        let cat = cat_seq()[k - 1];
        let d = spec_dist(t, deck, up, cat);
        let coef = stand_coef(g.rule, g.player_hand, cat);
        let sprev = spec_stand_sum(t, g, k - 1);
        let term = q_mul(coef, d);
        lemma_stand_sum_wf(t, g, k - 1);
        lemma_stand_coef_wf(g.rule, g.player_hand, cat);
        lemma_entries_sum_wf(deck, table_entries(t, up, cat));
        lemma_q_ops_wf(coef, d);
        assert(spec_stand_sum(t, g, k) == q_add(sprev, term));
        if k - 1 == 5 {
            // the natural term, with its minus-one coefficient, survives
            assert(coef == q_int(-1));
            assert(q_eq(sprev, q_int(0)));
            assert(q_eq(q_add(sprev, term), q_add(q_int(0), term))) by {
                lemma_q_add_congr(sprev, q_int(0), term, term);
            }
            assert(q_add(q_int(0), term).n == 0 * term.d + term.n * 1);
            assert(0 * term.d == 0) by (nonlinear_arith);
            assert(q_add(q_int(0), term).n == term.n);
            assert(q_add(q_int(0), term).d == 1 * term.d);
            assert(q_eq(q_add(q_int(0), term), term)) by (nonlinear_arith)
                requires
                    q_add(q_int(0), term).n == term.n,
                    q_add(q_int(0), term).d == 1 * term.d,
            {
            }
            assert(q_wf(q_add(q_int(0), term))) by {
                assert(1 * term.d > 0) by (nonlinear_arith)
                    requires
                        term.d > 0,
                {
                }
            }
            lemma_q_eq_trans(spec_stand_sum(t, g, k), q_add(q_int(0), term), term);
        } else {
            // a zero-probability category contributes nothing
            assert(q_eq(spec_dist(t, deck, up, cat_seq()[k - 1]), q_int(0)));
            assert(q_eq(d, q_int(0)));
            assert(0 * d.d == 0) by (nonlinear_arith);
            assert(d.n * 1 == d.n);
            assert(d.n == 0);
            assert(term.n == coef.n * 0) by (nonlinear_arith)
                requires
                    term.n == coef.n * d.n,
                    d.n == 0,
            {
            }
            assert(coef.n * 0 == 0) by (nonlinear_arith);
            let prev_val = if k - 1 >= 6 {
                q_mul(q_int(-1), spec_dist(t, deck, up, HandTotal::BlackJack))
            } else {
                q_int(0)
            };
            assert(q_eq(sprev, prev_val));
            assert(q_wf(prev_val)) by {
                if k - 1 >= 6 {
                    lemma_entries_sum_wf(deck, table_entries(t, up, HandTotal::BlackJack));
                    lemma_q_ops_wf(q_int(-1), spec_dist(t, deck, up, HandTotal::BlackJack));
                }
            }
            lemma_q_add_congr(sprev, prev_val, term, term);
            crate::rational::lemma_q_add_zero(prev_val, term);
            assert(q_add(prev_val, term).d != 0) by (nonlinear_arith)
                requires
                    q_add(prev_val, term).d == prev_val.d * term.d,
                    prev_val.d > 0,
                    term.d > 0,
            {
            }
            lemma_q_eq_trans(spec_stand_sum(t, g, k), q_add(prev_val, term), prev_val);
            if k >= 6 {
                assert(k - 1 >= 6 || k - 1 == 5);
                assert(prev_val == q_mul(
                    q_int(-1),
                    spec_dist(t, deck, up, HandTotal::BlackJack),
                ));
            }
        }
    }
}

/// Player without a natural against a shoe whose dealer round is certain
/// to end in a natural: the stand value is exactly minus one.
pub proof fn lemma_dealer_guaranteed_natural(t: DealerTables, g: BlackJackGame)
    requires
        rule_wf(g.rule),
        !hand_is_blackjack(g.player_hand),
        !hand_is_burst(g.player_hand),
        !(g.rule.six_card_charlie && g.player_card_count >= 6),
        q_eq(spec_dist(t, g.deck_cards, g.dealer_card, HandTotal::BlackJack), q_int(1)),
        forall|j: int| 0 <= j < 7 && j != 5 ==> q_eq(
            #[trigger] spec_dist(t, g.deck_cards, g.dealer_card, cat_seq()[j]),
            q_int(0),
        ),
    ensures
        q_eq(spec_stand_ev(t, g), q_int(-1)),
{
    let deck = g.deck_cards;
    let up = g.dealer_card;
    let b = spec_dist(t, deck, up, HandTotal::BlackJack);
    lemma_zero_cats_sum(t, g, 7);
    lemma_entries_sum_wf(deck, table_entries(t, up, HandTotal::BlackJack));
    assert(cat_seq()[5] == HandTotal::BlackJack);
    lemma_q_mul_congr(q_int(-1), q_int(-1), b, q_int(1));
    assert(q_mul(q_int(-1), q_int(1)) == q_int(-1));
    lemma_q_ops_wf(q_int(-1), b);
    lemma_q_eq_trans(spec_stand_ev(t, g), q_mul(q_int(-1), b), q_int(-1));
}

} // verus!
