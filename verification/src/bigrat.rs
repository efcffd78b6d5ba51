use vstd::prelude::*;
use crate::rational::{Q, q_eq, q_lt, q_add, q_mul, q_frac};

verus! {

#[verifier::external_type_specification]
#[verifier::external_body]
pub struct ExBigInt(num_bigint::BigInt);

#[verifier::external_type_specification]
#[verifier::external_body]
#[verifier::reject_recursive_types(T)]
pub struct ExRatio<T>(num_rational::Ratio<T>);

/// An exact arbitrary-precision rational, as num_rational keeps it.
pub type BigRational = num_rational::Ratio<num_bigint::BigInt>;

/// The integer that the numerator of a big rational holds.
pub uninterp spec fn rat_num(r: BigRational) -> int;

/// The integer that the denominator of a big rational holds.
pub uninterp spec fn rat_den(r: BigRational) -> int;

/// The rational that a big rational stands for.
pub open spec fn rat_q(r: BigRational) -> Q {
    Q { n: rat_num(r), d: rat_den(r) }
}

/// A big rational produced by this module always keeps its denominator positive.
pub open spec fn rat_wf(r: BigRational) -> bool {
    rat_den(r) > 0
}

/// Relies on Ratio::from_integer and BigInt::from: the result is n over 1.
#[verifier::external_body]
pub fn rat_from_i64(n: i64) -> (r: BigRational)
    ensures
        rat_num(r) == n as int,
        rat_den(r) == 1,
{
    num_rational::Ratio::from_integer(num_bigint::BigInt::from(n))
}

/// Relies on Ratio::from_integer and BigInt::from: the result is n over 1.
#[verifier::external_body]
pub fn rat_from_u64(n: u64) -> (r: BigRational)
    ensures
        rat_num(r) == n as int,
        rat_den(r) == 1,
{
    num_rational::Ratio::from_integer(num_bigint::BigInt::from(n))
}

/// Relies on Ratio::new: the result is reduced, keeps its denominator
/// positive, and stands for n over d.
#[verifier::external_body]
pub fn rat_from_usize(n: usize, d: usize) -> (r: BigRational)
    requires
        d > 0,
    ensures
        rat_wf(r),
        q_eq(rat_q(r), q_frac(n as int, d as int)),
{
    num_rational::Ratio::new(num_bigint::BigInt::from(n), num_bigint::BigInt::from(d))
}

/// Relies on Add for Ratio: the result stands for the exact sum.
#[verifier::external_body]
pub fn rat_add(a: &BigRational, b: &BigRational) -> (r: BigRational)
    requires
        rat_wf(*a),
        rat_wf(*b),
    ensures
        rat_wf(r),
        q_eq(rat_q(r), q_add(rat_q(*a), rat_q(*b))),
{
    a.clone() + b.clone()
}

/// Relies on Mul for Ratio: the result stands for the exact product.
#[verifier::external_body]
pub fn rat_mul(a: &BigRational, b: &BigRational) -> (r: BigRational)
    requires
        rat_wf(*a),
        rat_wf(*b),
    ensures
        rat_wf(r),
        q_eq(rat_q(r), q_mul(rat_q(*a), rat_q(*b))),
{
    a.clone() * b.clone()
}

/// Relies on Ord for Ratio, which compares the values exactly when both
/// denominators are positive.
#[verifier::external_body]
pub fn rat_lt(a: &BigRational, b: &BigRational) -> (r: bool)
    requires
        rat_wf(*a),
        rat_wf(*b),
    ensures
        r == q_lt(rat_q(*a), rat_q(*b)),
{
    a < b
}

/// Relies on Clone for Ratio, which clones numerator and denominator.
#[verifier::external_body]
pub fn rat_clone(a: &BigRational) -> (r: BigRational)
    ensures
        rat_num(r) == rat_num(*a),
        rat_den(r) == rat_den(*a),
{
    a.clone()
}

} // verus!
