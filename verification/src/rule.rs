use vstd::prelude::*;

verus! {

/// An exact payout multiplier, numerator over positive denominator.
#[derive(Clone, Copy, Debug, PartialEq, Eq, Hash, Structural)]
pub struct Payout {
    pub numer: usize,
    pub denom: usize,
}

/// Immutable ruleset configuration: deck count, payout multipliers and the
/// structural flags of the table. Shared values compare by their fields.
#[derive(Clone, Copy, Debug, PartialEq, Eq, Hash, Structural)]
pub struct Rule {
    pub decks: usize,
    pub without_9_t: bool,
    pub free_split_9_10_11: bool,
    pub free_double_9_10_11: bool,
    pub triple_double: bool,
    pub quad_double: bool,
    pub double_after_split: bool,
    pub hit_split_aces: bool,
    pub six_card_charlie: bool,
    pub multiplier_black_jack: Payout,
    pub multiplier_lteq_17: Payout,
    pub multiplier_18: Payout,
    pub multiplier_19: Payout,
    pub multiplier_20: Payout,
    pub multiplier_21: Payout,
}

/// Every payout multiplier keeps a positive denominator.
pub open spec fn rule_wf(r: Rule) -> bool {
    r.multiplier_black_jack.denom > 0 && r.multiplier_lteq_17.denom > 0 && r.multiplier_18.denom
        > 0 && r.multiplier_19.denom > 0 && r.multiplier_20.denom > 0 && r.multiplier_21.denom > 0
}

impl Rule {
    /// The classic eight-deck table: blackjack pays three to two, doubling
    /// after a split is allowed, and no charlie or free-bet variants.
    pub fn evolution_classic() -> (r: Rule)
        ensures
            rule_wf(r),
            r.decks == 8,
            !r.without_9_t,
            !r.free_split_9_10_11,
            !r.free_double_9_10_11,
            !r.triple_double,
            !r.quad_double,
            r.double_after_split,
            !r.hit_split_aces,
            !r.six_card_charlie,
            r.multiplier_black_jack == (Payout { numer: 3, denom: 2 }),
            r.multiplier_lteq_17 == (Payout { numer: 1, denom: 1 }),
            r.multiplier_18 == (Payout { numer: 1, denom: 1 }),
            r.multiplier_19 == (Payout { numer: 1, denom: 1 }),
            r.multiplier_20 == (Payout { numer: 1, denom: 1 }),
            r.multiplier_21 == (Payout { numer: 1, denom: 1 }),
    {
        Rule {
            decks: 8,
            without_9_t: false,
            free_split_9_10_11: false,
            free_double_9_10_11: false,
            triple_double: false,
            quad_double: false,
            double_after_split: true,
            hit_split_aces: false,
            six_card_charlie: false,
            multiplier_black_jack: Payout { numer: 3, denom: 2 },
            multiplier_lteq_17: Payout { numer: 1, denom: 1 },
            multiplier_18: Payout { numer: 1, denom: 1 },
            multiplier_19: Payout { numer: 1, denom: 1 },
            multiplier_20: Payout { numer: 1, denom: 1 },
            multiplier_21: Payout { numer: 1, denom: 1 },
        }
    }
}

} // verus!
