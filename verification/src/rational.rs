//! Exact rational numbers on `i64`, with a ghost-level model `Q` over
//! unbounded integers.
//!
//! A well-formed [`Rat`] keeps `den > 0` and `num > i64::MIN` (so negation
//! never overflows).  Arithmetic is checked: an operation returns `None`
//! exactly when the mathematical result, put over the product denominator,
//! does not fit the machine range; results are reduced by the gcd to keep
//! numbers small.  Contracts relate results to the ghost model through the
//! cross-multiplication equivalence [`q_eq`].

use vstd::prelude::*;
use vstd::arithmetic::div_mod::lemma_fundamental_div_mod;

verus! {

/// Ghost model of a rational: an unbounded numerator and denominator.
/// Well-formed values have `d > 0`.
pub ghost struct Q {
    pub n: int,
    pub d: int,
}

pub open spec fn q_wf(q: Q) -> bool {
    q.d > 0
}

/// `a` and `b` denote the same rational value (valid whenever both
/// denominators are nonzero and of the same sign convention).
pub open spec fn q_eq(a: Q, b: Q) -> bool {
    a.n * b.d == b.n * a.d
}

/// `a <= b`, for well-formed `a`, `b`.
pub open spec fn q_le(a: Q, b: Q) -> bool {
    a.n * b.d <= b.n * a.d
}

/// `a < b`, for well-formed `a`, `b`.
pub open spec fn q_lt(a: Q, b: Q) -> bool {
    a.n * b.d < b.n * a.d
}

/// `a < 0`, for well-formed `a`.
pub open spec fn q_is_neg(a: Q) -> bool {
    a.n < 0
}

/// `a > 0`, for well-formed `a`.
pub open spec fn q_is_pos(a: Q) -> bool {
    a.n > 0
}

/// `a == 0`, for well-formed `a`.
pub open spec fn q_is_zero(a: Q) -> bool {
    a.n == 0
}

/// `a == 1`, for well-formed `a`.
pub open spec fn q_is_one(a: Q) -> bool {
    a.n == a.d
}

pub open spec fn q_zero() -> Q {
    Q { n: 0, d: 1 }
}

pub open spec fn q_one() -> Q {
    Q { n: 1, d: 1 }
}

pub open spec fn q_add(a: Q, b: Q) -> Q {
    Q { n: a.n * b.d + b.n * a.d, d: a.d * b.d }
}

pub open spec fn q_sub(a: Q, b: Q) -> Q {
    Q { n: a.n * b.d - b.n * a.d, d: a.d * b.d }
}

pub open spec fn q_mul(a: Q, b: Q) -> Q {
    Q { n: a.n * b.n, d: a.d * b.d }
}

pub open spec fn q_neg(a: Q) -> Q {
    Q { n: -a.n, d: a.d }
}

/// `a / b`, sign-normalized so that the denominator is positive whenever
/// `a` is well-formed and `b.n != 0`.
pub open spec fn q_div(a: Q, b: Q) -> Q {
    if b.n >= 0 {
        Q { n: a.n * b.d, d: a.d * b.n }
    } else {
        Q { n: -(a.n * b.d), d: -(a.d * b.n) }
    }
}

/// The sum of `a` and `b`, put over the product denominator, fits the
/// machine range of [`Rat`].
pub open spec fn q_add_fits(a: Q, b: Q) -> bool {
    i64::MIN < a.n * b.d + b.n * a.d <= i64::MAX && a.d * b.d <= i64::MAX
}

/// The difference of `a` and `b`, put over the product denominator, fits
/// the machine range of [`Rat`].
pub open spec fn q_sub_fits(a: Q, b: Q) -> bool {
    i64::MIN < a.n * b.d - b.n * a.d <= i64::MAX && a.d * b.d <= i64::MAX
}

/// The product of `a` and `b`, put over the product denominator, fits the
/// machine range of [`Rat`].
pub open spec fn q_mul_fits(a: Q, b: Q) -> bool {
    i64::MIN < a.n * b.n <= i64::MAX && a.d * b.d <= i64::MAX
}

/// The quotient of `a` by `b` (as formed by [`q_div`]) fits the machine
/// range of [`Rat`].
pub open spec fn q_div_fits(a: Q, b: Q) -> bool {
    i64::MIN < q_div(a, b).n <= i64::MAX && q_div(a, b).d <= i64::MAX
}

/// Greatest common divisor of two naturals, by Euclid's recursion.
pub open spec fn gcd_nat(a: nat, b: nat) -> nat
    decreases b,
{
    if b == 0 {
        a
    } else {
        gcd_nat(b, a % b)
    }
}

/// `d` divides `x` exactly.
pub open spec fn divides(d: int, x: int) -> bool {
    exists|k: int| x == #[trigger] (d * k)
}

/// The canonical (gcd-reduced) representative of a rational with a
/// positive denominator.  This is exactly what the executable arithmetic
/// returns, so overflow conditions of composite operations are functions
/// of the operands alone.  Opaque: every caller reasons about it by
/// congruence; only [`reduce`]'s proof looks inside.
#[verifier::opaque]
pub open spec fn q_canon(q: Q) -> Q {
    if q.n == 0 {
        q_zero()
    } else {
        let g = gcd_nat(vstd::math::abs(q.n), q.d as nat) as int;
        Q { n: q.n / g, d: q.d / g }
    }
}

/// An exact rational number `num / den` on machine integers.
///
/// Invariant ([`Rat::wf`]): `den > 0` and `num > i64::MIN`.
#[derive(Clone, Copy, Debug, PartialEq, Eq, Structural)]
pub struct Rat {
    pub num: i64,
    pub den: i64,
}

impl View for Rat {
    type V = Q;

    open spec fn view(&self) -> Q {
        Q { n: self.num as int, d: self.den as int }
    }
}

impl DeepView for Rat {
    type V = Q;

    open spec fn deep_view(&self) -> Q {
        self.view()
    }
}

// ---------------------------------------------------------------------------
// Arithmetic helper lemmas (nonlinear facts kept small and local).
// ---------------------------------------------------------------------------

/// Any product of two `i64`-range values fits comfortably inside `i128`.
proof fn lemma_prod_i64_bound(a: int, b: int)
    by (nonlinear_arith)
    requires
        -0x8000_0000_0000_0000 <= a <= 0x7fff_ffff_ffff_ffff,
        -0x8000_0000_0000_0000 <= b <= 0x7fff_ffff_ffff_ffff,
    ensures
        -0x4000_0000_0000_0000_0000_0000_0000_0000 <= a * b
            <= 0x4000_0000_0000_0000_0000_0000_0000_0000,
{
}

/// A product with a positive `i64`-range factor stays strictly inside
/// half the `i128` range, so two such products can be added in `i128`.
proof fn lemma_prod_den_bound(a: int, b: int)
    by (nonlinear_arith)
    requires
        -0x8000_0000_0000_0000 <= a <= 0x7fff_ffff_ffff_ffff,
        0 < b <= 0x7fff_ffff_ffff_ffff,
    ensures
        -0x4000_0000_0000_0000_0000_0000_0000_0000 < a * b
            < 0x4000_0000_0000_0000_0000_0000_0000_0000,
{
}

/// The product of two positive integers is positive.
pub proof fn lemma_pos_prod(a: int, b: int)
    by (nonlinear_arith)
    requires
        a > 0,
        b > 0,
    ensures
        a * b > 0,
{
}

/// Cancellation of a positive common factor in an inequality.
proof fn lemma_cancel_pos(x: int, y: int, w: int)
    by (nonlinear_arith)
    requires
        x * w <= y * w,
        w > 0,
    ensures
        x <= y,
{
}

/// Cancellation of a positive common factor in a strict inequality.
proof fn lemma_cancel_pos_strict(x: int, y: int, w: int)
    by (nonlinear_arith)
    requires
        x * w < y * w,
        w > 0,
    ensures
        x < y,
{
}



// ---------------------------------------------------------------------------
// Laws of the ghost rationals: q_eq is an equivalence compatible with the
// order and the arithmetic.  These are the facts the tableau proofs lean on.
// ---------------------------------------------------------------------------

/// `q_eq` is transitive across a middle value with nonzero denominator.
pub proof fn lemma_q_eq_trans(a: Q, b: Q, c: Q)
    requires
        q_eq(a, b),
        q_eq(b, c),
        b.d != 0,
    ensures
        q_eq(a, c),
{
    assert((a.n * c.d - c.n * a.d) * b.d == 0) by (nonlinear_arith)
        requires
            a.n * b.d == b.n * a.d,
            b.n * c.d == c.n * b.d,
    ;
    assert(a.n * c.d - c.n * a.d == 0) by (nonlinear_arith)
        requires
            (a.n * c.d - c.n * a.d) * b.d == 0,
            b.d != 0,
    ;
}


/// Strict-then-weak transitivity on well-formed values.
pub proof fn lemma_q_lt_le_trans(a: Q, b: Q, c: Q)
    requires
        q_lt(a, b),
        q_le(b, c),
        q_wf(a),
        q_wf(b),
        q_wf(c),
    ensures
        q_lt(a, c),
{
    assert((a.n * c.d) * b.d < (c.n * a.d) * b.d) by (nonlinear_arith)
        requires
            a.n * b.d < b.n * a.d,
            b.n * c.d <= c.n * b.d,
            a.d > 0,
            c.d > 0,
    ;
    lemma_cancel_pos_strict(a.n * c.d, c.n * a.d, b.d);
}



/// Replacing the left side of `q_le` by a `q_eq`-equal value.
pub proof fn lemma_q_le_sub_left(a: Q, a2: Q, b: Q)
    requires
        q_le(a, b),
        q_eq(a, a2),
        q_wf(a),
        q_wf(a2),
        q_wf(b),
    ensures
        q_le(a2, b),
{
    assert((a2.n * b.d) * a.d <= (b.n * a2.d) * a.d) by (nonlinear_arith)
        requires
            a.n * b.d <= b.n * a.d,
            a.n * a2.d == a2.n * a.d,
            a2.d > 0,
            a.d > 0,
    ;
    lemma_cancel_pos(a2.n * b.d, b.n * a2.d, a.d);
}

/// Replacing the right side of `q_le` by a `q_eq`-equal value.
pub proof fn lemma_q_le_sub_right(a: Q, b: Q, b2: Q)
    requires
        q_le(a, b),
        q_eq(b, b2),
        q_wf(a),
        q_wf(b),
        q_wf(b2),
    ensures
        q_le(a, b2),
{
    assert((a.n * b2.d) * b.d <= (b2.n * a.d) * b.d) by (nonlinear_arith)
        requires
            a.n * b.d <= b.n * a.d,
            b.n * b2.d == b2.n * b.d,
            b2.d > 0,
            b.d > 0,
    ;
    lemma_cancel_pos(a.n * b2.d, b2.n * a.d, b.d);
}

/// Replacing both sides of `q_le` by `q_eq`-equal values.
pub proof fn lemma_q_le_congr(a: Q, b: Q, a2: Q, b2: Q)
    requires
        q_le(a, b),
        q_eq(a, a2),
        q_eq(b, b2),
        q_wf(a),
        q_wf(b),
        q_wf(a2),
        q_wf(b2),
    ensures
        q_le(a2, b2),
{
    lemma_q_le_sub_left(a, a2, b);
    lemma_q_le_sub_right(a2, b, b2);
}

/// Replacing the left side of `q_lt` by a `q_eq`-equal value.
pub proof fn lemma_q_lt_sub_left(a: Q, a2: Q, b: Q)
    requires
        q_lt(a, b),
        q_eq(a, a2),
        q_wf(a),
        q_wf(a2),
        q_wf(b),
    ensures
        q_lt(a2, b),
{
    assert((a2.n * b.d) * a.d < (b.n * a2.d) * a.d) by (nonlinear_arith)
        requires
            a.n * b.d < b.n * a.d,
            a.n * a2.d == a2.n * a.d,
            a2.d > 0,
            a.d > 0,
    ;
    lemma_cancel_pos_strict(a2.n * b.d, b.n * a2.d, a.d);
}

/// Replacing the right side of `q_lt` by a `q_eq`-equal value.
pub proof fn lemma_q_lt_sub_right(a: Q, b: Q, b2: Q)
    requires
        q_lt(a, b),
        q_eq(b, b2),
        q_wf(a),
        q_wf(b),
        q_wf(b2),
    ensures
        q_lt(a, b2),
{
    assert((a.n * b2.d) * b.d < (b2.n * a.d) * b.d) by (nonlinear_arith)
        requires
            a.n * b.d < b.n * a.d,
            b.n * b2.d == b2.n * b.d,
            b2.d > 0,
            b.d > 0,
    ;
    lemma_cancel_pos_strict(a.n * b2.d, b2.n * a.d, b.d);
}

/// Replacing both sides of `q_lt` by `q_eq`-equal values.
pub proof fn lemma_q_lt_congr(a: Q, b: Q, a2: Q, b2: Q)
    requires
        q_lt(a, b),
        q_eq(a, a2),
        q_eq(b, b2),
        q_wf(a),
        q_wf(b),
        q_wf(a2),
        q_wf(b2),
    ensures
        q_lt(a2, b2),
{
    lemma_q_lt_sub_left(a, a2, b);
    lemma_q_lt_sub_right(a2, b, b2);
}

/// A negative value is strictly below any non-negative one.
pub proof fn lemma_q_neg_lt_nonneg(a: Q, b: Q)
    by (nonlinear_arith)
    requires
        q_is_neg(a),
        !q_is_neg(b),
        q_wf(a),
        q_wf(b),
    ensures
        q_lt(a, b),
{
}

/// Multiplying on the right respects `q_eq` (a ring identity; no
/// denominator condition is needed).
pub proof fn lemma_q_mul_congr_right(x: Q, y: Q, y2: Q)
    by (nonlinear_arith)
    requires
        q_eq(y, y2),
    ensures
        q_eq(q_mul(x, y), q_mul(x, y2)),
{
}

/// Adding a zero on the left leaves the value unchanged.
pub proof fn lemma_q_add_zero_left(x: Q, y: Q)
    by (nonlinear_arith)
    requires
        x.n == 0,
    ensures
        q_eq(q_add(x, y), y),
{
}

/// Adding a zero on the right leaves the value unchanged.
pub proof fn lemma_q_add_zero_right(x: Q, y: Q)
    by (nonlinear_arith)
    requires
        y.n == 0,
    ensures
        q_eq(q_add(x, y), x),
{
}

/// Multiplying by a one on the left leaves the value unchanged.
pub proof fn lemma_q_mul_one_left(a: Q, b: Q)
    by (nonlinear_arith)
    requires
        a.n == a.d,
    ensures
        q_eq(q_mul(a, b), b),
{
}

/// Multiplying by a zero on the left gives a zero.
pub proof fn lemma_q_mul_zero_left(a: Q, b: Q)
    by (nonlinear_arith)
    requires
        a.n == 0,
    ensures
        q_mul(a, b).n == 0,
{
}

/// Subtracting on the right respects `q_eq` (a ring identity).
pub proof fn lemma_q_sub_congr_right(a: Q, b: Q, b2: Q)
    requires
        q_eq(b, b2),
    ensures
        q_eq(q_sub(a, b), q_sub(a, b2)),
{
    assert((a.n * b.d) * (a.d * b2.d) == (a.n * b2.d) * (a.d * b.d)) by (nonlinear_arith);
    assert((b.n * a.d) * (a.d * b2.d) == (b2.n * a.d) * (a.d * b.d)) by (nonlinear_arith)
        requires
            b.n * b2.d == b2.n * b.d,
    ;
    assert((a.n * b.d - b.n * a.d) * (a.d * b2.d) == (a.n * b2.d - b2.n * a.d) * (a.d * b.d))
        by (nonlinear_arith)
        requires
            (a.n * b.d) * (a.d * b2.d) == (a.n * b2.d) * (a.d * b.d),
            (b.n * a.d) * (a.d * b2.d) == (b2.n * a.d) * (a.d * b.d),
    ;
}

/// Multiplying back by the divisor undoes a division (a ring identity over
/// both sign branches of `q_div`).
pub proof fn lemma_q_mul_div_cancel(a: Q, b: Q)
    by (nonlinear_arith)
    ensures
        q_eq(q_mul(b, q_div(a, b)), a),
{
}

/// Adding back the subtrahend undoes a subtraction.
pub proof fn lemma_q_add_sub_cancel(a: Q, b: Q)
    by (nonlinear_arith)
    ensures
        q_eq(q_add(q_sub(a, b), b), a),
{
}

/// Addition respects `q_eq` in both arguments (a ring identity).
pub proof fn lemma_q_add_congr(a: Q, b: Q, a2: Q, b2: Q)
    requires
        q_eq(a, a2),
        q_eq(b, b2),
    ensures
        q_eq(q_add(a, b), q_add(a2, b2)),
{
    assert((a.n * b.d) * (a2.d * b2.d) == (a2.n * b2.d) * (a.d * b.d)) by (nonlinear_arith)
        requires
            a.n * a2.d == a2.n * a.d,
    ;
    assert((b.n * a.d) * (a2.d * b2.d) == (b2.n * a2.d) * (a.d * b.d)) by (nonlinear_arith)
        requires
            b.n * b2.d == b2.n * b.d,
    ;
    assert((a.n * b.d + b.n * a.d) * (a2.d * b2.d) == (a2.n * b2.d + b2.n * a2.d) * (a.d * b.d))
        by (nonlinear_arith)
        requires
            (a.n * b.d) * (a2.d * b2.d) == (a2.n * b2.d) * (a.d * b.d),
            (b.n * a.d) * (a2.d * b2.d) == (b2.n * a2.d) * (a.d * b.d),
    ;
}

/// Multiplication respects `q_eq` in both arguments (a ring identity).
pub proof fn lemma_q_mul_congr(a: Q, b: Q, a2: Q, b2: Q)
    requires
        q_eq(a, a2),
        q_eq(b, b2),
    ensures
        q_eq(q_mul(a, b), q_mul(a2, b2)),
{
    assert((a.n * b.n) * (a2.d * b2.d) == (a.n * a2.d) * (b.n * b2.d)) by (nonlinear_arith);
    assert((a.n * a2.d) * (b.n * b2.d) == (a2.n * a.d) * (b2.n * b.d)) by (nonlinear_arith)
        requires
            a.n * a2.d == a2.n * a.d,
            b.n * b2.d == b2.n * b.d,
    ;
    assert((a2.n * a.d) * (b2.n * b.d) == (a2.n * b2.n) * (a.d * b.d)) by (nonlinear_arith);
}

proof fn lemma_assoc_head(a: int, b: int, c: int, y: int)
    by (nonlinear_arith)
    ensures
        (a * (b * c)) * y == a * (b * (c * y)),
        ((a * b) * c) * y == a * (b * (c * y)),
{
}

proof fn lemma_swap_head(u: int, p: int, w: int, q: int)
    by (nonlinear_arith)
    ensures
        u * (q * (p * w)) == q * (p * (u * w)),
{
}

proof fn lemma_distrib_core(pn: int, pd: int, un: int, ud: int, wn: int, wd: int)
    ensures
        (pn * (un * wd + wn * ud)) * ((pd * ud) * (pd * wd)) == ((pn * un) * (pd * wd) + (pn * wn)
            * (pd * ud)) * (pd * (ud * wd)),
{
    assert((pn * (un * wd)) * ((pd * ud) * (pd * wd)) == ((pn * un) * (pd * wd)) * (pd * (ud
        * wd))) by (nonlinear_arith);
    lemma_assoc_head(pn, wn, ud, (pd * ud) * (pd * wd));
    lemma_swap_head(ud, pd, wd, pd * ud);
    lemma_assoc_head(pn, wn, pd * ud, pd * (ud * wd));
    assert((pn * (wn * ud)) * ((pd * ud) * (pd * wd)) == ((pn * wn) * (pd * ud)) * (pd * (ud
        * wd)));
    assert((pn * (un * wd + wn * ud)) * ((pd * ud) * (pd * wd)) == (pn * (un * wd)) * ((pd * ud)
        * (pd * wd)) + (pn * (wn * ud)) * ((pd * ud) * (pd * wd))) by (nonlinear_arith);
    assert(((pn * un) * (pd * wd) + (pn * wn) * (pd * ud)) * (pd * (ud * wd)) == ((pn * un) * (pd
        * wd)) * (pd * (ud * wd)) + ((pn * wn) * (pd * ud)) * (pd * (ud * wd)))
        by (nonlinear_arith);
}

/// Subtraction respects `q_eq` in both arguments (a ring identity).
pub proof fn lemma_q_sub_congr(a: Q, b: Q, a2: Q, b2: Q)
    requires
        q_eq(a, a2),
        q_eq(b, b2),
    ensures
        q_eq(q_sub(a, b), q_sub(a2, b2)),
{
    assert((a.n * b.d) * (a2.d * b2.d) == (a2.n * b2.d) * (a.d * b.d)) by (nonlinear_arith)
        requires
            a.n * a2.d == a2.n * a.d,
    ;
    assert((b.n * a.d) * (a2.d * b2.d) == (b2.n * a2.d) * (a.d * b.d)) by (nonlinear_arith)
        requires
            b.n * b2.d == b2.n * b.d,
    ;
    assert((a.n * b.d - b.n * a.d) * (a2.d * b2.d) == (a2.n * b2.d - b2.n * a2.d) * (a.d * b.d))
        by (nonlinear_arith)
        requires
            (a.n * b.d) * (a2.d * b2.d) == (a2.n * b2.d) * (a.d * b.d),
            (b.n * a.d) * (a2.d * b2.d) == (b2.n * a2.d) * (a.d * b.d),
    ;
}

proof fn lemma_sub_add_core(an: int, ad: int, bn: int, bd: int, tn: int, td: int)
    ensures
        ((an * td + tn * ad) * (bd * td) - (bn * td + tn * bd) * (ad * td)) * (ad * bd) == (an * bd
            - bn * ad) * ((ad * td) * (bd * td)),
{
    assert((an * td + tn * ad) * (bd * td) == (an * td) * (bd * td) + (tn * ad) * (bd * td))
        by (nonlinear_arith);
    assert((bn * td + tn * bd) * (ad * td) == (bn * td) * (ad * td) + (tn * bd) * (ad * td))
        by (nonlinear_arith);
    assert((tn * ad) * (bd * td) == (tn * bd) * (ad * td)) by (nonlinear_arith);
    assert(((an * td) * (bd * td) - (bn * td) * (ad * td)) * (ad * bd) == ((an * td) * (bd * td))
        * (ad * bd) - ((bn * td) * (ad * td)) * (ad * bd)) by (nonlinear_arith);
    assert(((an * td) * (bd * td)) * (ad * bd) == (an * bd) * ((ad * td) * (bd * td)))
        by (nonlinear_arith);
    assert(((bn * td) * (ad * td)) * (ad * bd) == (bn * ad) * ((ad * td) * (bd * td)))
        by (nonlinear_arith);
    assert((an * bd - bn * ad) * ((ad * td) * (bd * td)) == (an * bd) * ((ad * td) * (bd * td)) - (
    bn * ad) * ((ad * td) * (bd * td))) by (nonlinear_arith);
}

/// Adding the same value to both sides of a difference cancels it.
pub proof fn lemma_q_sub_add_same(a: Q, b: Q, t: Q)
    ensures
        q_eq(q_sub(q_add(a, t), q_add(b, t)), q_sub(a, b)),
{
    lemma_sub_add_core(a.n, a.d, b.n, b.d, t.n, t.d);
}

/// Negation distributes over addition, exactly.
pub proof fn lemma_q_neg_add(a: Q, b: Q)
    by (nonlinear_arith)
    ensures
        q_add(q_neg(a), q_neg(b)) == q_neg(q_add(a, b)),
{
}

/// Negation moves through a product's left factor, exactly.
pub proof fn lemma_q_neg_mul_left(a: Q, b: Q)
    by (nonlinear_arith)
    ensures
        q_mul(q_neg(a), b) == q_neg(q_mul(a, b)),
{
}

/// Scaling the minimum-ratio bound back by its positive column entry:
/// from `x <= b / f` with `f > 0` follows `f * x <= b`.
pub proof fn lemma_q_mul_ratio_le(f: Q, x: Q, b: Q)
    requires
        q_is_pos(f),
        q_le(x, q_div(b, f)),
        q_wf(f),
        q_wf(x),
        q_wf(b),
    ensures
        q_le(q_mul(f, x), b),
{
    assert((f.n * x.n) * b.d == x.n * (b.d * f.n)) by (nonlinear_arith);
    assert(b.n * (f.d * x.d) == (b.n * f.d) * x.d) by (nonlinear_arith);
}

/// Non-negativity respects `q_eq` on well-formed values.
pub proof fn lemma_q_nonneg_congr(x: Q, y: Q)
    by (nonlinear_arith)
    requires
        q_eq(x, y),
        !q_is_neg(y),
        q_wf(x),
        q_wf(y),
    ensures
        !q_is_neg(x),
{
}

/// A quotient of a non-negative value by a positive one is non-negative.
pub proof fn lemma_q_div_nonneg(a: Q, b: Q)
    by (nonlinear_arith)
    requires
        !q_is_neg(a),
        q_is_pos(b),
        q_wf(a),
        q_wf(b),
    ensures
        !q_is_neg(q_div(a, b)),
{
}

/// Subtracting something no larger leaves a non-negative difference.
pub proof fn lemma_q_sub_nonneg(u: Q, w: Q)
    requires
        q_le(u, w),
    ensures
        !q_is_neg(q_sub(w, u)),
{
}

/// Subtracting a non-positive multiple cannot make a non-negative value
/// negative.
pub proof fn lemma_q_sub_nonpos_mul(b: Q, f: Q, x: Q)
    by (nonlinear_arith)
    requires
        !q_is_neg(b),
        !q_is_pos(f),
        !q_is_neg(x),
        q_wf(b),
        q_wf(f),
        q_wf(x),
    ensures
        !q_is_neg(q_sub(b, q_mul(f, x))),
{
}

/// Swapping the sides of a difference negates it.
pub proof fn lemma_q_sub_antisym(a: Q, b: Q)
    by (nonlinear_arith)
    ensures
        q_eq(q_sub(b, a), q_neg(q_sub(a, b))),
{
}

/// Negation respects `q_eq`.
pub proof fn lemma_q_neg_congr(x: Q, y: Q)
    by (nonlinear_arith)
    requires
        q_eq(x, y),
    ensures
        q_eq(q_neg(x), q_neg(y)),
{
}

/// Subtracting from a zero gives the negation.
pub proof fn lemma_q_zero_sub(a: Q, b: Q)
    by (nonlinear_arith)
    requires
        a.n == 0,
    ensures
        q_eq(q_sub(a, b), q_neg(b)),
{
}

/// Multiplication distributes over addition up to `q_eq`.
pub proof fn lemma_q_mul_distrib(p: Q, u: Q, w: Q)
    ensures
        q_eq(q_mul(p, q_add(u, w)), q_add(q_mul(p, u), q_mul(p, w))),
{
    lemma_distrib_core(p.n, p.d, u.n, u.d, w.n, w.d);
}

/// Sums of well-formed values are well-formed.
pub proof fn lemma_q_add_wf(a: Q, b: Q)
    requires
        q_wf(a),
        q_wf(b),
    ensures
        q_wf(q_add(a, b)),
{
    lemma_pos_prod(a.d, b.d);
}

/// Products of well-formed values are well-formed.
pub proof fn lemma_q_mul_wf(a: Q, b: Q)
    requires
        q_wf(a),
        q_wf(b),
    ensures
        q_wf(q_mul(a, b)),
{
    lemma_pos_prod(a.d, b.d);
}

/// Differences of well-formed values are well-formed.
pub proof fn lemma_q_sub_wf(a: Q, b: Q)
    requires
        q_wf(a),
        q_wf(b),
    ensures
        q_wf(q_sub(a, b)),
{
    lemma_pos_prod(a.d, b.d);
}

/// Multiplication is commutative, exactly.
pub proof fn lemma_q_mul_comm(a: Q, b: Q)
    by (nonlinear_arith)
    ensures
        q_mul(a, b) == q_mul(b, a),
{
}

/// A quotient by a nonzero divisor is well-formed.
pub proof fn lemma_q_div_wf(a: Q, b: Q)
    by (nonlinear_arith)
    requires
        q_wf(a),
        b.n != 0,
    ensures
        q_wf(q_div(a, b)),
{
}

/// Multiplication is associative, exactly.
pub proof fn lemma_q_mul_assoc(a: Q, b: Q, c: Q)
    by (nonlinear_arith)
    ensures
        q_mul(q_mul(a, b), c) == q_mul(a, q_mul(b, c)),
{
}

proof fn lemma_shuffle_core(
    an: int,
    ad: int,
    bn: int,
    bd: int,
    cn: int,
    cd: int,
    dn: int,
    dd: int,
)
    ensures
        ((an * bd + bn * ad) * (cd * dd) + (cn * dd + dn * cd) * (ad * bd)) * ((ad * cd) * (bd
            * dd)) == ((an * cd + cn * ad) * (bd * dd) + (bn * dd + dn * bd) * (ad * cd)) * ((ad
            * bd) * (cd * dd)),
{
    assert((an * bd + bn * ad) * (cd * dd) == an * (bd * (cd * dd)) + bn * (ad * (cd * dd)))
        by (nonlinear_arith);
    assert((cn * dd + dn * cd) * (ad * bd) == cn * (dd * (ad * bd)) + dn * (cd * (ad * bd)))
        by (nonlinear_arith);
    assert((an * cd + cn * ad) * (bd * dd) == (an * cd) * (bd * dd) + (cn * ad) * (bd * dd))
        by (nonlinear_arith);
    assert((an * cd) * (bd * dd) == an * (bd * (cd * dd))) by (nonlinear_arith);
    assert((cn * ad) * (bd * dd) == cn * (dd * (ad * bd))) by (nonlinear_arith);
    assert((bn * dd + dn * bd) * (ad * cd) == (bn * dd) * (ad * cd) + (dn * bd) * (ad * cd))
        by (nonlinear_arith);
    assert((bn * dd) * (ad * cd) == bn * (ad * (cd * dd))) by (nonlinear_arith);
    assert((dn * bd) * (ad * cd) == dn * (cd * (ad * bd))) by (nonlinear_arith);
    assert((ad * bd) * (cd * dd) == (ad * cd) * (bd * dd)) by (nonlinear_arith);
}

/// Regrouping a four-term sum up to `q_eq` (the two groupings have equal
/// numerator and denominator polynomials).
pub proof fn lemma_q_add_shuffle(a: Q, b: Q, c: Q, d: Q)
    ensures
        q_eq(q_add(q_add(a, b), q_add(c, d)), q_add(q_add(a, c), q_add(b, d))),
{
    lemma_shuffle_core(a.n, a.d, b.n, b.d, c.n, c.d, d.n, d.d);
}

// ---------------------------------------------------------------------------
// Executable arithmetic.
// ---------------------------------------------------------------------------

/// Greatest common divisor by Euclid's algorithm.  The callers re-check
/// divisibility at run time, so only positivity is promised here.
/// The gcd divides both of its arguments.
proof fn lemma_gcd_divides(a: nat, b: nat)
    ensures
        divides(gcd_nat(a, b) as int, a as int),
        divides(gcd_nat(a, b) as int, b as int),
    decreases b,
{
    if b == 0 {
        assert(a as int == (a as int) * 1);
        assert(0int == (a as int) * 0);
    } else {
        lemma_gcd_divides(b, a % b);
        let g = gcd_nat(b, a % b) as int;
        lemma_fundamental_div_mod(a as int, b as int);
        let k1 = choose|k: int| b as int == #[trigger] (g * k);
        let k2 = choose|k: int| (a % b) as int == #[trigger] (g * k);
        assert(a as int == g * (k1 * ((a as int) / (b as int)) + k2)) by (nonlinear_arith)
            requires
                a as int == (b as int) * ((a as int) / (b as int)) + ((a % b) as int),
                b as int == g * k1,
                (a % b) as int == g * k2,
        ;
        assert(gcd_nat(a, b) == gcd_nat(b, a % b));
    }
}

/// A positive divisor leaves no remainder.
proof fn lemma_divides_mod_zero(g: int, x: int)
    requires
        divides(g, x),
        g > 0,
    ensures
        x % g == 0,
{
    let k = choose|k: int| x == #[trigger] (g * k);
    vstd::arithmetic::div_mod::lemma_mod_multiples_basic(k, g);
    assert(x == k * g) by (nonlinear_arith)
        requires
            x == g * k,
    ;
}

/// Exact division recovers the cofactor of a divisor.
proof fn lemma_exact_div(g: int, x: int, k: int)
    requires
        x == g * k,
        g > 0,
    ensures
        x / g == k,
{
    vstd::arithmetic::div_mod::lemma_div_multiples_vanish(k, g);
}

/// Greatest common divisor by Euclid's algorithm, computing exactly
/// [`gcd_nat`].
fn gcd_u64(a0: u64, b0: u64) -> (g: u64)
    requires
        a0 > 0 || b0 > 0,
    ensures
        g >= 1,
        g as nat == gcd_nat(a0 as nat, b0 as nat),
{
    let mut a: u64 = a0;
    let mut b: u64 = b0;
    while b != 0
        invariant
            a > 0 || b > 0,
            gcd_nat(a as nat, b as nat) == gcd_nat(a0 as nat, b0 as nat),
        decreases b,
    {
        proof {
            assert(gcd_nat(a as nat, b as nat) == gcd_nat(b as nat, (a as nat) % (b as nat)));
        }
        let t: u64 = a % b;
        a = b;
        b = t;
    }
    proof {
        assert(gcd_nat(a as nat, 0) == a as nat);
    }
    a
}

/// Reduce `n / d` by the gcd.  The result denotes the same rational, is
/// well-formed, and is no larger than the input in either component.
fn reduce(n: i64, d: i64) -> (r: Rat)
    requires
        d > 0,
        n > i64::MIN,
    ensures
        r.wf(),
        r@ == q_canon((Q { n: n as int, d: d as int })),
        q_eq(r@, (Q { n: n as int, d: d as int })),
        r.den <= d,
        n >= 0 ==> 0 <= r.num <= n,
        n < 0 ==> n <= r.num < 0,
{
    proof {
        reveal(q_canon);
    }
    if n == 0 {
        proof {
            assert(0int * (d as int) == (n as int) * 1int);
        }
        return Rat { num: 0, den: 1 };
    }
    let na: u64 = if n < 0 {
        (-n) as u64
    } else {
        n as u64
    };
    let du: u64 = d as u64;
    let g: u64 = gcd_u64(na, du);
    proof {
        assert(na as nat == vstd::math::abs(n as int));
        lemma_gcd_divides(na as nat, du as nat);
        lemma_divides_mod_zero(g as int, na as int);
        lemma_divides_mod_zero(g as int, du as int);
    }
    if g > 1 && na % g == 0 && du % g == 0 {
        let na2: u64 = na / g;
        let du2: u64 = du / g;
        proof {
            lemma_fundamental_div_mod(na as int, g as int);
            lemma_fundamental_div_mod(du as int, g as int);
            assert(na as int == g as int * na2 as int);
            assert(du as int == g as int * du2 as int);
            assert(na2 >= 1 && na2 as int <= na as int) by (nonlinear_arith)
                requires
                    na as int == g as int * na2 as int,
                    na >= 1,
                    g >= 1,
                    na2 >= 0,
            ;
            assert(du2 >= 1 && du2 as int <= du as int) by (nonlinear_arith)
                requires
                    du as int == g as int * du2 as int,
                    du >= 1,
                    g >= 1,
                    du2 >= 0,
            ;
            assert(na2 as int * du as int == na as int * du2 as int) by (nonlinear_arith)
                requires
                    na as int == g as int * na2 as int,
                    du as int == g as int * du2 as int,
            ;
        }
        let num2: i64 = if n < 0 {
            -(na2 as i64)
        } else {
            na2 as i64
        };
        proof {
            if n < 0 {
                assert(num2 as int == -(na2 as int));
                assert(na as int == -(n as int));
                assert(num2 as int * (d as int) == (n as int) * (du2 as int))
                    by (nonlinear_arith)
                    requires
                        num2 as int == -(na2 as int),
                        na as int == -(n as int),
                        d as int == du as int,
                        na2 as int * (du as int) == na as int * (du2 as int),
                ;
            } else {
                assert(num2 as int == na2 as int);
                assert(na as int == n as int);
                assert(num2 as int * (d as int) == (n as int) * (du2 as int))
                    by (nonlinear_arith)
                    requires
                        num2 as int == na2 as int,
                        na as int == n as int,
                        d as int == du as int,
                        na2 as int * (du as int) == na as int * (du2 as int),
                ;
            }
        }
        proof {
            let gs = gcd_nat(vstd::math::abs(n as int), (d as int) as nat) as int;
            assert(gs == g as int);
            if n < 0 {
                assert(n as int == g as int * (-(na2 as int))) by (nonlinear_arith)
                    requires
                        na as int == g as int * na2 as int,
                        na as int == -(n as int),
                ;
                lemma_exact_div(g as int, n as int, -(na2 as int));
            } else {
                assert(n as int == g as int * (na2 as int)) by (nonlinear_arith)
                    requires
                        na as int == g as int * na2 as int,
                        na as int == n as int,
                ;
                lemma_exact_div(g as int, n as int, na2 as int);
            }
            lemma_exact_div(g as int, d as int, du2 as int);
        }
        Rat { num: num2, den: du2 as i64 }
    } else {
        proof {
            assert(g == 1);
            let gs = gcd_nat(vstd::math::abs(n as int), (d as int) as nat) as int;
            assert(gs == 1);
            lemma_exact_div(1, n as int, n as int);
            lemma_exact_div(1, d as int, d as int);
        }
        Rat { num: n, den: d }
    }
}

impl Rat {
    /// The machine representation invariant: a positive denominator, and a
    /// numerator that can be negated without overflow.
    pub open spec fn wf(self) -> bool {
        self.den > 0 && self.num > i64::MIN
    }

    /// The rational `0`.
    pub fn zero() -> (r: Rat)
        ensures
            r.wf(),
            r@ == q_zero(),
    {
        Rat { num: 0, den: 1 }
    }

    /// The rational `1`.
    pub fn one() -> (r: Rat)
        ensures
            r.wf(),
            r@ == q_one(),
    {
        Rat { num: 1, den: 1 }
    }

    /// The integer `n` as a rational.
    pub fn from_int(n: i64) -> (r: Rat)
        requires
            n > i64::MIN,
        ensures
            r.wf(),
            r@ == (Q { n: n as int, d: 1 }),
    {
        Rat { num: n, den: 1 }
    }

    /// Build `num / den`, normalizing the sign and reducing.  Fails exactly
    /// on a zero denominator and on the one unrepresentable magnitude.
    pub fn new(num: i64, den: i64) -> (r: Option<Rat>)
        ensures
            r matches Some(c) ==> c.wf() && q_eq(c@, (Q { n: num as int, d: den as int })),
            (r is Some) <==> (den != 0 && num != i64::MIN && den != i64::MIN),
    {
        if den == 0 || num == i64::MIN || den == i64::MIN {
            return None;
        }
        if den < 0 {
            let r = reduce(-num, -den);
            proof {
                assert(q_eq(r@, (Q { n: num as int, d: den as int }))) by (nonlinear_arith)
                    requires
                        q_eq(r@, (Q { n: -(num as int), d: -(den as int) })),
                ;
            }
            Some(r)
        } else {
            Some(reduce(num, den))
        }
    }

    /// The numerator of this (reduced) representation.
    pub fn numer(&self) -> (n: i64)
        ensures
            n as int == self@.n,
    {
        self.num
    }

    /// The denominator of this (reduced) representation.
    pub fn denom(&self) -> (d: i64)
        ensures
            d as int == self@.d,
    {
        self.den
    }

    /// Exact negation (total, thanks to the `num > i64::MIN` invariant).
    pub fn neg(&self) -> (r: Rat)
        requires
            self.wf(),
        ensures
            r.wf(),
            r@ == q_neg(self@),
    {
        Rat { num: -self.num, den: self.den }
    }

    /// Checked addition; `None` exactly when the exact result does not fit.
    pub fn checked_add(&self, other: &Rat) -> (r: Option<Rat>)
        requires
            self.wf(),
            other.wf(),
        ensures
            r matches Some(c) ==> c.wf() && q_eq(c@, q_add(self@, other@)),
            r matches Some(c) ==> c@ == q_canon(q_add(self@, other@)),
            (r is Some) <==> q_add_fits(self@, other@),
    {
        proof {
            lemma_prod_den_bound(self.num as int, other.den as int);
            lemma_prod_den_bound(other.num as int, self.den as int);
            lemma_prod_den_bound(self.den as int, other.den as int);
            lemma_pos_prod(self.den as int, other.den as int);
        }
        let x: i128 = (self.num as i128) * (other.den as i128);
        let y: i128 = (other.num as i128) * (self.den as i128);
        let s: i128 = x + y;
        let d: i128 = (self.den as i128) * (other.den as i128);
        if s <= (i64::MIN as i128) || s > (i64::MAX as i128) || d > (i64::MAX as i128) {
            None
        } else {
            Some(reduce(s as i64, d as i64))
        }
    }

    /// Checked subtraction; `None` exactly when the exact result does not fit.
    pub fn checked_sub(&self, other: &Rat) -> (r: Option<Rat>)
        requires
            self.wf(),
            other.wf(),
        ensures
            r matches Some(c) ==> c.wf() && q_eq(c@, q_sub(self@, other@)),
            r matches Some(c) ==> c@ == q_canon(q_sub(self@, other@)),
            (r is Some) <==> q_sub_fits(self@, other@),
    {
        proof {
            lemma_prod_den_bound(self.num as int, other.den as int);
            lemma_prod_den_bound(other.num as int, self.den as int);
            lemma_prod_den_bound(self.den as int, other.den as int);
            lemma_pos_prod(self.den as int, other.den as int);
        }
        let x: i128 = (self.num as i128) * (other.den as i128);
        let y: i128 = (other.num as i128) * (self.den as i128);
        let s: i128 = x - y;
        let d: i128 = (self.den as i128) * (other.den as i128);
        if s <= (i64::MIN as i128) || s > (i64::MAX as i128) || d > (i64::MAX as i128) {
            None
        } else {
            Some(reduce(s as i64, d as i64))
        }
    }

    /// Checked multiplication; `None` exactly when the exact result does not
    /// fit.
    pub fn checked_mul(&self, other: &Rat) -> (r: Option<Rat>)
        requires
            self.wf(),
            other.wf(),
        ensures
            r matches Some(c) ==> c.wf() && q_eq(c@, q_mul(self@, other@)),
            r matches Some(c) ==> c@ == q_canon(q_mul(self@, other@)),
            (r is Some) <==> q_mul_fits(self@, other@),
    {
        proof {
            lemma_prod_i64_bound(self.num as int, other.num as int);
            lemma_prod_den_bound(self.den as int, other.den as int);
            lemma_pos_prod(self.den as int, other.den as int);
        }
        let p: i128 = (self.num as i128) * (other.num as i128);
        let d: i128 = (self.den as i128) * (other.den as i128);
        if p <= (i64::MIN as i128) || p > (i64::MAX as i128) || d > (i64::MAX as i128) {
            None
        } else {
            Some(reduce(p as i64, d as i64))
        }
    }

    /// Checked division by a nonzero rational; `None` exactly when the exact
    /// result does not fit.
    pub fn checked_div(&self, other: &Rat) -> (r: Option<Rat>)
        requires
            self.wf(),
            other.wf(),
            !q_is_zero(other@),
        ensures
            r matches Some(c) ==> c.wf() && q_eq(c@, q_div(self@, other@)),
            r matches Some(c) ==> c@ == q_canon(q_div(self@, other@)),
            (r is Some) <==> q_div_fits(self@, other@),
    {
        proof {
            lemma_prod_den_bound(self.num as int, other.den as int);
            lemma_prod_i64_bound(self.den as int, other.num as int);
            if other.num > 0 {
                lemma_pos_prod(self.den as int, other.num as int);
            } else {
                assert((self.den as int) * (other.num as int) < 0) by (nonlinear_arith)
                    requires
                        self.den > 0,
                        other.num < 0,
                ;
            }
        }
        let mut nn: i128 = (self.num as i128) * (other.den as i128);
        let mut dd: i128 = (self.den as i128) * (other.num as i128);
        if dd < 0 {
            nn = -nn;
            dd = -dd;
        }
        if nn <= (i64::MIN as i128) || nn > (i64::MAX as i128) || dd > (i64::MAX as i128) {
            None
        } else {
            Some(reduce(nn as i64, dd as i64))
        }
    }

    /// `self <= other`, decided exactly.
    pub fn le(&self, other: &Rat) -> (r: bool)
        requires
            self.wf(),
            other.wf(),
        ensures
            r == q_le(self@, other@),
    {
        proof {
            lemma_prod_den_bound(self.num as int, other.den as int);
            lemma_prod_den_bound(other.num as int, self.den as int);
        }
        (self.num as i128) * (other.den as i128) <= (other.num as i128) * (self.den as i128)
    }

    /// `self < other`, decided exactly.
    pub fn lt(&self, other: &Rat) -> (r: bool)
        requires
            self.wf(),
            other.wf(),
        ensures
            r == q_lt(self@, other@),
    {
        proof {
            lemma_prod_den_bound(self.num as int, other.den as int);
            lemma_prod_den_bound(other.num as int, self.den as int);
        }
        (self.num as i128) * (other.den as i128) < (other.num as i128) * (self.den as i128)
    }

    /// Value equality (the representations may differ).
    pub fn eq_val(&self, other: &Rat) -> (r: bool)
        requires
            self.wf(),
            other.wf(),
        ensures
            r == q_eq(self@, other@),
    {
        proof {
            lemma_prod_den_bound(self.num as int, other.den as int);
            lemma_prod_den_bound(other.num as int, self.den as int);
        }
        (self.num as i128) * (other.den as i128) == (other.num as i128) * (self.den as i128)
    }

    /// `self < 0`.
    pub fn is_neg(&self) -> (r: bool)
        requires
            self.wf(),
        ensures
            r == q_is_neg(self@),
    {
        self.num < 0
    }

    /// `self > 0`.
    pub fn is_pos(&self) -> (r: bool)
        requires
            self.wf(),
        ensures
            r == q_is_pos(self@),
    {
        self.num > 0
    }

    /// `self == 0`.
    pub fn is_zero(&self) -> (r: bool)
        requires
            self.wf(),
        ensures
            r == q_is_zero(self@),
    {
        self.num == 0
    }

    /// `self == 1`.
    pub fn is_one(&self) -> (r: bool)
        requires
            self.wf(),
        ensures
            r == q_is_one(self@),
    {
        self.num == self.den
    }
}

} // verus!
