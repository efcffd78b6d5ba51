use vstd::prelude::*;
use crate::card::Card;
use crate::hand::{Hand, hand_of_seq, hand_wf, Cards};
use crate::deck::{
    Deck, deck_count, deck_total, deck_zero_spec, deck_add_spec, deck_sub_spec, deck_geq,
    spec_draw_prob, rank_at, lemma_deck_add_count, lemma_prefix_total_nonneg, lemma_add_total,
    lemma_spec_draw_prob_wf,
};
use crate::rule::{Rule, rule_wf};
use crate::dealer::DealerTables;
use crate::rational::{
    Q, q_wf, q_eq, q_int, q_add, q_mul, lemma_q_add_congr, lemma_q_mul_congr, lemma_q_eq_trans,
};
use crate::bigrat::{BigRational, rat_q, rat_wf, rat_from_i64, rat_from_usize, rat_add, rat_mul};
use crate::round::{BlackJackGame, EvContext, ctx_wf, spec_ev, lemma_spec_ev_wf};
use crate::cancel::is_cancelled_opt;
use tokio_util::sync::CancellationToken;

verus! {

/// One of the 550 initial deals: a dealer upcard and an unordered two-card
/// player start, with the three dealt cards as a delta, the starting hand,
/// and the number of draw orders that reach the player pattern.
#[derive(Clone, Copy, Debug, PartialEq, Eq, Hash, Structural)]
pub struct PreRoundPattern {
    pub dealer_card: Card,
    pub player_pattern: Deck,
    pub player_hand: Hand,
    pub all_deck: Deck,
    pub weight: usize,
}

/// The pattern of one dealer upcard and one ordered pair of player ranks.
pub open spec fn spec_pattern(d: Card, c1: Card, c2: Card) -> PreRoundPattern {
    let pp = deck_add_spec(deck_add_spec(deck_zero_spec(), c1), c2);
    let hand = hand_of_seq(seq![c1, c2]);
    PreRoundPattern {
        dealer_card: d,
        player_pattern: pp,
        player_hand: hand,
        all_deck: deck_add_spec(pp, d),
        weight: if hand matches Hand::Pair(_) {
            1
        } else {
            2
        },
    }
}

/// All patterns from position (di, i, j) on, dealer-major, the player pair
/// walked with its second rank no earlier than its first.
pub open spec fn pats_rec(di: int, i: int, j: int) -> Seq<PreRoundPattern>
    decreases 10 - di, 10 - i, 10 - j,
        when 0 <= di && 0 <= i <= j
{
    if di >= 10 {
        Seq::<PreRoundPattern>::empty()
    } else if i >= 10 {
        pats_rec(di + 1, 0, 0)
    } else if j >= 10 {
        pats_rec(di, i + 1, i + 1)
    } else {
        seq![spec_pattern(rank_at(di), rank_at(i), rank_at(j))] + pats_rec(di, i, j + 1)
    }
}

/// The 550 pre-round patterns: 55 unordered player starts times 10 upcards.
pub open spec fn spec_all_patterns() -> Seq<PreRoundPattern> {
    pats_rec(0, 0, 0)
}

/// Whether a pattern is the pattern of some upcard and player pair.
pub open spec fn pattern_shaped(pat: PreRoundPattern) -> bool {
    exists|d: Card, c1: Card, c2: Card| pat == #[trigger] spec_pattern(d, c1, c2)
}

/// Every enumerated pattern is some spec_pattern.
pub proof fn lemma_pats_rec_shape(di: int, i: int, j: int)
    requires
        0 <= di,
        0 <= i <= j,
    ensures
        forall|k: int| 0 <= k < pats_rec(di, i, j).len() ==> pattern_shaped(
            #[trigger] pats_rec(di, i, j)[k],
        ),
    decreases 10 - di, 10 - i, 10 - j,
{
    let cur = pats_rec(di, i, j);
    if di >= 10 {
    } else if i >= 10 {
        lemma_pats_rec_shape(di + 1, 0, 0);
        assert(cur == pats_rec(di + 1, 0, 0));
    } else if j >= 10 {
        lemma_pats_rec_shape(di, i + 1, i + 1);
        assert(cur == pats_rec(di, i + 1, i + 1));
    } else {
        lemma_pats_rec_shape(di, i, j + 1);
        let rest = pats_rec(di, i, j + 1);
        assert forall|k: int| 0 <= k < cur.len() implies pattern_shaped(#[trigger] cur[k]) by {
            if k == 0 {
                assert(cur[0] == spec_pattern(rank_at(di), rank_at(i), rank_at(j)));
            } else {
                assert(cur[k] == rest[k - 1]);
                assert(pattern_shaped(rest[k - 1]));
            }
        }
    }
}

/// A pattern's delta holds exactly its three dealt cards.
pub proof fn lemma_pattern_small(d: Card, c1: Card, c2: Card)
    ensures
        forall|c: Card| 0 <= #[trigger] deck_count(spec_pattern(d, c1, c2).all_deck, c) <= 3,
        deck_total(spec_pattern(d, c1, c2).all_deck) == 3,
{
    let z = deck_zero_spec();
    lemma_deck_add_count(z, c1);
    lemma_deck_add_count(deck_add_spec(z, c1), c2);
    lemma_deck_add_count(deck_add_spec(deck_add_spec(z, c1), c2), d);
    crate::deck::lemma_deck_zero_total();
    lemma_add_total(z, c1);
    lemma_add_total(deck_add_spec(z, c1), c2);
    lemma_add_total(deck_add_spec(deck_add_spec(z, c1), c2), d);
}

/// One pattern's contribution: the exact chance of that deal times the
/// exact value of the resulting node, two draw orders where the player
/// ranks differ.
pub open spec fn spec_pattern_term(
    t: DealerTables,
    rule: Rule,
    deck: Deck,
    pat: PreRoundPattern,
) -> Q {
    q_mul(
        spec_ev(
            t,
            BlackJackGame {
                rule: rule,
                dealer_card: pat.dealer_card,
                player_hand: pat.player_hand,
                deck_cards: deck_sub_spec(deck, pat.all_deck),
                player_card_count: 2,
            },
        ),
        q_mul(spec_draw_prob(deck, pat.all_deck), q_int(pat.weight as int)),
    )
}

/// Sum of the contributions of the first k patterns.
pub open spec fn spec_patterns_sum(
    t: DealerTables,
    rule: Rule,
    deck: Deck,
    pats: Seq<PreRoundPattern>,
) -> Q
    decreases pats.len(),
{
    if pats.len() == 0 {
        q_int(0)
    } else {
        q_add(
            spec_patterns_sum(t, rule, deck, pats.drop_last()),
            spec_pattern_term(t, rule, deck, pats.last()),
        )
    }
}

/// The exact full pre-round value: every initial deal weighted by its
/// exact probability.
pub open spec fn spec_preround_ev(t: DealerTables, rule: Rule, deck: Deck) -> Q {
    spec_patterns_sum(t, rule, deck, spec_all_patterns())
}

/// Builds the patterns from position (di, i, j) on, appending to out.
fn gen_pats(di: usize, i: usize, j: usize, out: &mut Vec<PreRoundPattern>)
    requires
        di <= 10,
        i <= j,
        j <= 10,
    ensures
        final(out)@ == old(out)@ + pats_rec(di as int, i as int, j as int),
    decreases 10 - di, 10 - i, 10 - j,
{
    if di >= 10 {
        proof {
            assert(final(out)@ =~= old(out)@ + pats_rec(di as int, i as int, j as int));
        }
        return;
    }
    if i >= 10 {
        gen_pats(di + 1, 0, 0, out);
        return;
    }
    if j >= 10 {
        gen_pats(di, i + 1, i + 1, out);
        return;
    }
    let all = Card::all();
    let d = all[di];
    let c1 = all[i];
    let c2 = all[j];
    let z = Deck::zero();
    proof {
        lemma_deck_add_count(deck_zero_spec(), c1);
    }
    let pp = z.add(c1).add(c2);
    let cs = Cards { cards: vec![c1, c2] };
    proof {
        assert(cs.cards@ =~= seq![c1, c2]);
        lemma_deck_add_count(deck_add_spec(deck_zero_spec(), c1), c2);
    }
    let hand = cs.to_hand();
    let weight: usize = if hand.is_pair() {
        1
    } else {
        2
    };
    let all_deck = pp.add(d);
    let pat = PreRoundPattern {
        dealer_card: d,
        player_pattern: pp,
        player_hand: hand,
        all_deck: all_deck,
        weight: weight,
    };
    proof {
        assert(pat == spec_pattern(rank_at(di as int), rank_at(i as int), rank_at(j as int)));
    }
    let ghost before = out@;
    out.push(pat);
    gen_pats(di, i, j + 1, out);
    proof {
        assert(final(out)@ =~= before + pats_rec(di as int, i as int, j as int));
    }
}

impl PreRoundPattern {
    /// All 550 pre-round patterns, dealer-major.
    pub fn generate() -> (r: Vec<PreRoundPattern>)
        ensures
            r@ == spec_all_patterns(),
    {
        let mut v: Vec<PreRoundPattern> = Vec::new();
        gen_pats(0, 0, 0, &mut v);
        proof {
            assert(v@ =~= spec_all_patterns());
        }
        v
    }

    /// The same list; the patterns are a fixed value, not a cache.
    pub fn all() -> (r: Vec<PreRoundPattern>)
        ensures
            r@ == spec_all_patterns(),
    {
        PreRoundPattern::generate()
    }
}

/// The pre-round aggregator: one ruleset and one fresh shoe.
pub struct PreBlackJackGame {
    pub rule: Rule,
    pub deck: Deck,
}

/// The aggregate needs at least the three dealt cards of any pattern.
pub open spec fn preround_wf(p: PreBlackJackGame) -> bool {
    &&& rule_wf(p.rule)
    &&& forall|c: Card| #[trigger] deck_count(p.deck, c) >= 3
    &&& deck_total(p.deck) + 2 <= usize::MAX
}

impl PreBlackJackGame {
    pub fn new(rule: Rule, deck: Deck) -> (r: PreBlackJackGame)
        ensures
            r == (PreBlackJackGame { rule, deck }),
    {
        PreBlackJackGame { rule, deck }
    }

    /// One pattern's exact weighted contribution.
    pub fn pre_round_ev_with_cancellation_token(
        &self,
        pre_round_pattern: &PreRoundPattern,
        ctx: &mut EvContext,
        cancellation_token: &CancellationToken,
    ) -> (r: Result<BigRational, ()>)
        requires
            preround_wf(*self),
            hand_wf(pre_round_pattern.player_hand),
            deck_geq(self.deck, pre_round_pattern.all_deck),
            ctx_wf(*old(ctx)),
        ensures
            ctx_wf(*final(ctx)),
            final(ctx).tables == old(ctx).tables,
            r matches Ok(v) ==> rat_wf(v) && q_eq(
                rat_q(v),
                spec_pattern_term(old(ctx).tables, self.rule, self.deck, *pre_round_pattern),
            ),
    {
        self.pattern_term(pre_round_pattern, ctx, Some(cancellation_token))
    }

    fn pattern_term(
        &self,
        pat: &PreRoundPattern,
        ctx: &mut EvContext,
        token: Option<&CancellationToken>,
    ) -> (r: Result<BigRational, ()>)
        requires
            preround_wf(*self),
            hand_wf(pat.player_hand),
            deck_geq(self.deck, pat.all_deck),
            ctx_wf(*old(ctx)),
        ensures
            ctx_wf(*final(ctx)),
            final(ctx).tables == old(ctx).tables,
            token is None ==> r is Ok,
            r matches Ok(v) ==> rat_wf(v) && q_eq(
                rat_q(v),
                spec_pattern_term(old(ctx).tables, self.rule, self.deck, *pat),
            ),
    {
        let ghost t = ctx.tables;
        proof {
            lemma_prefix_total_nonneg(self.deck, 10);
            crate::deck::lemma_prefix_total_mono_upto(self.deck, pat.all_deck, 10);
            lemma_prefix_total_nonneg(pat.all_deck, 10);
        }
        let prob = self.deck.deck_draw_probability(&pat.all_deck);
        let weight = rat_from_usize(pat.weight, 1);
        let wprob = rat_mul(&prob, &weight);
        let deck_cards = self.deck.remove_deck(&pat.all_deck);
        let game = BlackJackGame {
            rule: self.rule,
            dealer_card: pat.dealer_card,
            player_hand: pat.player_hand,
            deck_cards: deck_cards,
            player_card_count: 2,
        };
        proof {
            lemma_sub_total(self.deck, pat.all_deck);
        }
        let ev = match game.ev_core(ctx, token) {
            Ok(v) => v,
            Err(e) => {
                return Err(e);
            },
        };
        let term = rat_mul(&ev, &wprob);
        proof {
            let sdp = spec_draw_prob(self.deck, pat.all_deck);
            let sw = q_mul(sdp, q_int(pat.weight as int));
            let sev = spec_ev(t, game);
            lemma_spec_draw_prob_wf(self.deck, pat.all_deck);
            lemma_spec_ev_wf(t, game);
            lemma_q_mul_congr(rat_q(prob), sdp, rat_q(weight), q_int(pat.weight as int));
            lemma_q_eq_trans(rat_q(wprob), q_mul(rat_q(prob), rat_q(weight)), sw);
            assert(sw.d > 0) by (nonlinear_arith)
                requires
                    sdp.d > 0,
                    sw.d == sdp.d * 1,
            {
            }
            lemma_q_mul_congr(rat_q(ev), sev, rat_q(wprob), sw);
            lemma_q_eq_trans(rat_q(term), q_mul(rat_q(ev), rat_q(wprob)), q_mul(sev, sw));
        }
        Ok(term)
    }

    fn calc_ev_core(&self, ctx: &mut EvContext, token: Option<&CancellationToken>) -> (r: Result<
        BigRational,
        (),
    >)
        requires
            preround_wf(*self),
            ctx_wf(*old(ctx)),
        ensures
            ctx_wf(*final(ctx)),
            final(ctx).tables == old(ctx).tables,
            token is None ==> r is Ok,
            r matches Ok(v) ==> rat_wf(v) && q_eq(
                rat_q(v),
                spec_preround_ev(old(ctx).tables, self.rule, self.deck),
            ),
    {
        let ghost t = ctx.tables;
        let pats = PreRoundPattern::generate();
        let mut acc = rat_from_i64(0);
        let mut k: usize = 0;
        while k < pats.len()
            invariant
                0 <= k <= pats@.len(),
                pats@ == spec_all_patterns(),
                preround_wf(*self),
                ctx_wf(*ctx),
                ctx.tables == t,
                t == old(ctx).tables,
                rat_wf(acc),
                q_eq(
                    rat_q(acc),
                    spec_patterns_sum(t, self.rule, self.deck, pats@.subrange(0, k as int)),
                ),
            decreases pats@.len() - k,
        {
            if is_cancelled_opt(token) {
                return Err(());
            }
            let pat = pats[k];
            proof {
                lemma_pats_rec_shape(0, 0, 0);
                assert(pattern_shaped(pats@[k as int]));
                let (d, c1, c2) = choose|d: Card, c1: Card, c2: Card| pats@[k as int]
                    == spec_pattern(d, c1, c2);
                lemma_pattern_small(d, c1, c2);
                crate::hand::lemma_hand_of_seq_wf(seq![c1, c2]);
            }
            let term = match self.pattern_term(&pat, ctx, token) {
                Ok(v) => v,
                Err(e) => {
                    return Err(e);
                },
            };
            let ghost acc0 = acc;
            acc = rat_add(&acc, &term);
            proof {
                let pre = pats@.subrange(0, k as int);
                let cur = pats@.subrange(0, k + 1);
                assert(cur.drop_last() =~= pre);
                assert(cur.last() == pats@[k as int]);
                let sterm = spec_pattern_term(t, self.rule, self.deck, pats@[k as int]);
                lemma_patterns_sum_wf(t, self.rule, self.deck, pre);
                lemma_pattern_term_wf(t, self.rule, self.deck, pats@[k as int]);
                lemma_q_add_congr(rat_q(acc0), spec_patterns_sum(t, self.rule, self.deck, pre), rat_q(term), sterm);
                lemma_q_eq_trans(
                    rat_q(acc),
                    q_add(rat_q(acc0), rat_q(term)),
                    q_add(spec_patterns_sum(t, self.rule, self.deck, pre), sterm),
                );
            }
            k = k + 1;
        }
        proof {
            assert(pats@.subrange(0, pats@.len() as int) =~= pats@);
        }
        Ok(acc)
    }

    /// The exact pre-round aggregate value.
    pub fn calc_ev(&self, ctx: &mut EvContext) -> (r: BigRational)
        requires
            preround_wf(*self),
            ctx_wf(*old(ctx)),
        ensures
            ctx_wf(*final(ctx)),
            final(ctx).tables == old(ctx).tables,
            rat_wf(r),
            q_eq(rat_q(r), spec_preround_ev(old(ctx).tables, self.rule, self.deck)),
    {
        match self.calc_ev_core(ctx, None) {
            Ok(v) => v,
            Err(_) => {
                proof {
                    assert(false);
                }
                rat_from_i64(0)
            },
        }
    }

    /// The exact pre-round aggregate value.
    pub fn ev(&self, ctx: &mut EvContext) -> (r: BigRational)
        requires
            preround_wf(*self),
            ctx_wf(*old(ctx)),
        ensures
            ctx_wf(*final(ctx)),
            final(ctx).tables == old(ctx).tables,
            rat_wf(r),
            q_eq(rat_q(r), spec_preround_ev(old(ctx).tables, self.rule, self.deck)),
    {
        self.calc_ev(ctx)
    }

    /// The aggregate under a live cancellation flag.
    pub fn ev_with_cancellation_token(
        &self,
        ctx: &mut EvContext,
        cancellation_token: &CancellationToken,
    ) -> (r: Result<BigRational, ()>)
        requires
            preround_wf(*self),
            ctx_wf(*old(ctx)),
        ensures
            ctx_wf(*final(ctx)),
            final(ctx).tables == old(ctx).tables,
            r matches Ok(v) ==> rat_wf(v) && q_eq(
                rat_q(v),
                spec_preround_ev(old(ctx).tables, self.rule, self.deck),
            ),
    {
        self.calc_ev_core(ctx, Some(cancellation_token))
    }

    /// The aggregate under a live cancellation flag.
    pub fn calc_ev_with_cancellation_token(
        &self,
        ctx: &mut EvContext,
        cancellation_token: &CancellationToken,
    ) -> (r: Result<BigRational, ()>)
        requires
            preround_wf(*self),
            ctx_wf(*old(ctx)),
        ensures
            ctx_wf(*final(ctx)),
            final(ctx).tables == old(ctx).tables,
            r matches Ok(v) ==> rat_wf(v) && q_eq(
                rat_q(v),
                spec_preround_ev(old(ctx).tables, self.rule, self.deck),
            ),
    {
        self.calc_ev_core(ctx, Some(cancellation_token))
    }
}

proof fn lemma_pattern_term_wf(t: DealerTables, rule: Rule, deck: Deck, pat: PreRoundPattern)
    requires
        rule_wf(rule),
    ensures
        q_wf(spec_pattern_term(t, rule, deck, pat)),
{
    let g = BlackJackGame {
        rule: rule,
        dealer_card: pat.dealer_card,
        player_hand: pat.player_hand,
        deck_cards: deck_sub_spec(deck, pat.all_deck),
        player_card_count: 2,
    };
    lemma_spec_ev_wf(t, g);
    lemma_spec_draw_prob_wf(deck, pat.all_deck);
    let sdp = spec_draw_prob(deck, pat.all_deck);
    assert(q_mul(sdp, q_int(pat.weight as int)).d > 0) by (nonlinear_arith)
        requires
            sdp.d > 0,
            q_mul(sdp, q_int(pat.weight as int)).d == sdp.d * 1,
    {
    }
    assert(spec_pattern_term(t, rule, deck, pat).d > 0) by (nonlinear_arith)
        requires
            spec_ev(t, g).d > 0,
            q_mul(sdp, q_int(pat.weight as int)).d > 0,
            spec_pattern_term(t, rule, deck, pat).d == spec_ev(t, g).d * q_mul(
                sdp,
                q_int(pat.weight as int),
            ).d,
    {
    }
}

proof fn lemma_patterns_sum_wf(t: DealerTables, rule: Rule, deck: Deck, pats: Seq<PreRoundPattern>)
    requires
        rule_wf(rule),
    ensures
        q_wf(spec_patterns_sum(t, rule, deck, pats)),
    decreases pats.len(),
{
    if pats.len() > 0 {
        lemma_patterns_sum_wf(t, rule, deck, pats.drop_last());
        lemma_pattern_term_wf(t, rule, deck, pats.last());
        let a = spec_patterns_sum(t, rule, deck, pats.drop_last());
        let b = spec_pattern_term(t, rule, deck, pats.last());
        assert(a.d * b.d > 0) by (nonlinear_arith)
            requires
                a.d > 0,
                b.d > 0,
        {
        }
    }
}

/// Removing a dominated delta leaves total minus delta-total cards.
proof fn lemma_sub_total(a: Deck, b: Deck)
    requires
        deck_geq(a, b),
    ensures
        deck_total(deck_sub_spec(a, b)) == deck_total(a) - deck_total(b),
{
    lemma_sub_prefix(a, b, 10);
}

proof fn lemma_sub_prefix(a: Deck, b: Deck, k: int)
    requires
        deck_geq(a, b),
    ensures
        crate::deck::count_prefix_total(deck_sub_spec(a, b), k) == crate::deck::count_prefix_total(
            a,
            k,
        ) - crate::deck::count_prefix_total(b, k),
    decreases k,
{
    if k > 0 {
        lemma_sub_prefix(a, b, k - 1);
        assert(deck_count(a, rank_at(k - 1)) >= deck_count(b, rank_at(k - 1)));
    }
}

} // verus!
