use vstd::prelude::*;

verus! {

/// A mathematical rational number, written as a numerator over a nonzero
/// denominator. Two values stand for the same rational exactly when they
/// cross-multiply equally; `q_eq` below is that relation.
pub ghost struct Q {
    pub n: int,
    pub d: int,
}

/// A well-formed rational keeps its denominator positive.
pub open spec fn q_wf(a: Q) -> bool {
    a.d > 0
}

/// The rational n/1.
pub open spec fn q_int(n: int) -> Q {
    Q { n: n, d: 1 }
}

/// The rational n/d.
pub open spec fn q_frac(n: int, d: int) -> Q {
    Q { n: n, d: d }
}

/// Equality of the rationals that two pairs stand for.
pub open spec fn q_eq(a: Q, b: Q) -> bool {
    a.n * b.d == b.n * a.d
}

/// Strict order of the rationals (meaningful when both denominators are positive).
pub open spec fn q_lt(a: Q, b: Q) -> bool {
    a.n * b.d < b.n * a.d
}

pub open spec fn q_add(a: Q, b: Q) -> Q {
    Q { n: a.n * b.d + b.n * a.d, d: a.d * b.d }
}

pub open spec fn q_sub(a: Q, b: Q) -> Q {
    Q { n: a.n * b.d - b.n * a.d, d: a.d * b.d }
}

pub open spec fn q_mul(a: Q, b: Q) -> Q {
    Q { n: a.n * b.n, d: a.d * b.d }
}

pub proof fn lemma_q_eq_trans(a: Q, b: Q, c: Q)
    requires
        b.d != 0,
        q_eq(a, b),
        q_eq(b, c),
    ensures
        q_eq(a, c),
{
    assert((a.n * c.d - c.n * a.d) * b.d == 0) by (nonlinear_arith)
        requires
            a.n * b.d == b.n * a.d,
            b.n * c.d == c.n * b.d,
    {
    }
    assert((a.n * c.d - c.n * a.d) * b.d == 0 && b.d != 0 ==> a.n * c.d == c.n * a.d)
        by (nonlinear_arith);
}

/// Congruence of addition in its left argument alone.
proof fn lemma_q_add_congr_left(a: Q, a2: Q, b: Q)
    requires
        a.d != 0,
        a2.d != 0,
        b.d != 0,
        q_eq(a, a2),
    ensures
        q_eq(q_add(a, b), q_add(a2, b)),
{
    assert((a.n * b.d + b.n * a.d) * (a2.d * b.d) == (a.n * b.d) * (a2.d * b.d) + (b.n * a.d) * (
    a2.d * b.d)) by (nonlinear_arith);
    assert((a2.n * b.d + b.n * a2.d) * (a.d * b.d) == (a2.n * b.d) * (a.d * b.d) + (b.n * a2.d) * (
    a.d * b.d)) by (nonlinear_arith);
    assert((a.n * b.d) * (a2.d * b.d) == (a.n * a2.d) * (b.d * b.d)) by (nonlinear_arith);
    assert((a2.n * b.d) * (a.d * b.d) == (a2.n * a.d) * (b.d * b.d)) by (nonlinear_arith);
    assert((b.n * a.d) * (a2.d * b.d) == (b.n * a2.d) * (a.d * b.d)) by (nonlinear_arith);
}

pub proof fn lemma_q_add_congr(a: Q, a2: Q, b: Q, b2: Q)
    requires
        a.d != 0,
        a2.d != 0,
        b.d != 0,
        b2.d != 0,
        q_eq(a, a2),
        q_eq(b, b2),
    ensures
        q_eq(q_add(a, b), q_add(a2, b2)),
        q_wf(a) && q_wf(b) ==> q_wf(q_add(a, b)),
{
    lemma_q_add_congr_left(a, a2, b);
    lemma_q_add_congr_left(b, b2, a2);
    assert(q_add(b, a2) == q_add(a2, b));
    assert(q_add(b2, a2) == q_add(a2, b2));
    assert(a2.d * b.d != 0) by (nonlinear_arith)
        requires
            a2.d != 0,
            b.d != 0,
    {
    }
    lemma_q_eq_trans(q_add(a, b), q_add(a2, b), q_add(a2, b2));
    assert(a.d > 0 && b.d > 0 ==> a.d * b.d > 0) by (nonlinear_arith);
}

/// Negation of a rational, exact.
pub open spec fn q_neg(a: Q) -> Q {
    Q { n: -a.n, d: a.d }
}

pub proof fn lemma_q_sub_is_add_neg(a: Q, b: Q)
    ensures
        q_sub(a, b) == q_add(a, q_neg(b)),
{
    assert(a.n * b.d - b.n * a.d == a.n * b.d + (-b.n) * a.d) by (nonlinear_arith);
    assert(q_sub(a, b).n == q_add(a, q_neg(b)).n);
    assert(q_sub(a, b).d == q_add(a, q_neg(b)).d);
}

pub proof fn lemma_q_sub_congr(a: Q, a2: Q, b: Q, b2: Q)
    requires
        a.d != 0,
        a2.d != 0,
        b.d != 0,
        b2.d != 0,
        q_eq(a, a2),
        q_eq(b, b2),
    ensures
        q_eq(q_sub(a, b), q_sub(a2, b2)),
        q_wf(a) && q_wf(b) ==> q_wf(q_sub(a, b)),
{
    lemma_q_sub_is_add_neg(a, b);
    lemma_q_sub_is_add_neg(a2, b2);
    assert(q_eq(q_neg(b), q_neg(b2))) by (nonlinear_arith)
        requires
            b.n * b2.d == b2.n * b.d,
    {
    }
    lemma_q_add_congr(a, a2, q_neg(b), q_neg(b2));
}

pub proof fn lemma_q_mul_congr(a: Q, a2: Q, b: Q, b2: Q)
    requires
        a.d != 0,
        a2.d != 0,
        b.d != 0,
        b2.d != 0,
        q_eq(a, a2),
        q_eq(b, b2),
    ensures
        q_eq(q_mul(a, b), q_mul(a2, b2)),
        q_wf(a) && q_wf(b) ==> q_wf(q_mul(a, b)),
{
    assert((a.n * b.n) * (a2.d * b2.d) == (a2.n * b2.n) * (a.d * b.d)) by (nonlinear_arith)
        requires
            a.n * a2.d == a2.n * a.d,
            b.n * b2.d == b2.n * b.d,
    {
    }
    assert(a.d > 0 && b.d > 0 ==> a.d * b.d > 0) by (nonlinear_arith);
}

/// Strict order is invariant under replacing both sides by equal rationals.
pub proof fn lemma_q_lt_congr(a: Q, a2: Q, b: Q, b2: Q)
    requires
        q_wf(a),
        q_wf(a2),
        q_wf(b),
        q_wf(b2),
        q_eq(a, a2),
        q_eq(b, b2),
    ensures
        q_lt(a, b) == q_lt(a2, b2),
{
    assert((a.n * b.d < b.n * a.d) == (a2.n * b2.d < b2.n * a2.d)) by (nonlinear_arith)
        requires
            a.d > 0,
            a2.d > 0,
            b.d > 0,
            b2.d > 0,
            a.n * a2.d == a2.n * a.d,
            b.n * b2.d == b2.n * b.d,
    {
    }
}

proof fn lemma_mul_shuffle(mn: int, md: int, s: int, xd: int, yd: int)
    ensures
        ((mn * md) * s) * (md * (xd * yd)) == (mn * s) * ((md * xd) * (md * yd)),
{
    assert(((mn * md) * s) * (md * (xd * yd)) == (mn * s) * ((md * xd) * (md * yd)))
        by (nonlinear_arith);
}

/// Multiplication distributes over addition, up to rational equality.
pub proof fn lemma_q_distrib(m: Q, x: Q, y: Q)
    ensures
        q_eq(q_add(q_mul(m, x), q_mul(m, y)), q_mul(m, q_add(x, y))),
{
    let l = q_add(q_mul(m, x), q_mul(m, y));
    let r = q_mul(m, q_add(x, y));
    let s = x.n * y.d + y.n * x.d;
    assert(l.n == (m.n * x.n) * (m.d * y.d) + (m.n * y.n) * (m.d * x.d));
    assert((m.n * x.n) * (m.d * y.d) == (m.n * m.d) * (x.n * y.d)) by (nonlinear_arith);
    assert((m.n * y.n) * (m.d * x.d) == (m.n * m.d) * (y.n * x.d)) by (nonlinear_arith);
    assert((m.n * m.d) * (x.n * y.d) + (m.n * m.d) * (y.n * x.d) == (m.n * m.d) * s)
        by (nonlinear_arith)
        requires
            s == x.n * y.d + y.n * x.d,
    {
    }
    assert(l.n == (m.n * m.d) * s);
    lemma_mul_shuffle(m.n, m.d, s, x.d, y.d);
    assert(l.n * r.d == ((m.n * m.d) * s) * (m.d * (x.d * y.d)));
    assert(r.n * l.d == (m.n * s) * ((m.d * x.d) * (m.d * y.d)));
}

/// Adding a zero-valued rational changes nothing, up to rational equality.
pub proof fn lemma_q_add_zero(x: Q, z: Q)
    requires
        z.n == 0,
    ensures
        q_eq(q_add(x, z), x),
{
    assert((x.n * z.d + 0 * x.d) * x.d == x.n * (x.d * z.d)) by (nonlinear_arith);
}

/// Adding then subtracting the same rational returns the start, up to
/// rational equality.
pub proof fn lemma_q_add_sub_cancel(x: Q, y: Q)
    ensures
        q_eq(q_sub(q_add(x, y), y), x),
{
    let l = q_sub(q_add(x, y), y);
    assert(l.n * x.d == x.n * l.d) by (nonlinear_arith)
        requires
            l.n == (x.n * y.d + y.n * x.d) * y.d - y.n * (x.d * y.d),
            l.d == (x.d * y.d) * y.d,
    {
    }
}

/// Addition is associative on the nose.
pub proof fn lemma_q_add_assoc(a: Q, b: Q, c: Q)
    ensures
        q_add(q_add(a, b), c) == q_add(a, q_add(b, c)),
{
    let l = q_add(q_add(a, b), c);
    let r = q_add(a, q_add(b, c));
    assert(l.n == (a.n * b.d + b.n * a.d) * c.d + c.n * (a.d * b.d));
    assert((a.n * b.d + b.n * a.d) * c.d == (a.n * b.d) * c.d + (b.n * a.d) * c.d)
        by (nonlinear_arith);
    assert(r.n == a.n * (b.d * c.d) + (b.n * c.d + c.n * b.d) * a.d);
    assert((b.n * c.d + c.n * b.d) * a.d == (b.n * c.d) * a.d + (c.n * b.d) * a.d)
        by (nonlinear_arith);
    assert((a.n * b.d) * c.d == a.n * (b.d * c.d)) by (nonlinear_arith);
    assert((b.n * a.d) * c.d == (b.n * c.d) * a.d) by (nonlinear_arith);
    assert(c.n * (a.d * b.d) == (c.n * b.d) * a.d) by (nonlinear_arith);
    assert(l.d == (a.d * b.d) * c.d);
    assert(r.d == a.d * (b.d * c.d));
    assert((a.d * b.d) * c.d == a.d * (b.d * c.d)) by (nonlinear_arith);
    assert(l.n == r.n);
}

} // verus!
