//! Properties of the basis functions: non-negativity, local support,
//! behaviour at clamped domain ends, partition at the right edge, and
//! determinism of the sampled results.

use vstd::prelude::*;
use crate::rat::{
    lemma_rv_add_congruence, lemma_rv_cmp_congruence, lemma_rv_div_congruence, lemma_rv_eq_trans,
    lemma_rv_le_lt_trans, lemma_rv_le_trans, lemma_rv_lt_le_trans, lemma_rv_mul_congruence,
    lemma_rv_sign, lemma_rv_sub_congruence, rv_add, rv_div, rv_eq, rv_le, rv_lt, rv_mul, rv_one,
    rv_sub, rv_valid, rv_zero, RatVal,
};
use crate::spline::{
    basis_rep, basis_val, curve_rep_x, curve_rep_y, curve_sum_x, curve_sum_y, knots_sorted,
    lemma_basis_valid, model_wf, SplineModel,
};

verus! {

proof fn lemma_mul_nonneg(x: int, y: int)
    by (nonlinear_arith)
    requires
        0 <= x,
        0 <= y,
    ensures
        0 <= x * y,
{
}

proof fn lemma_mul_pos(x: int, y: int)
    by (nonlinear_arith)
    requires
        0 < x,
        0 < y,
    ensures
        0 < x * y,
{
}

proof fn lemma_cross_sum_nonneg(x1: int, x2: int, d1: int, d2: int)
    by (nonlinear_arith)
    requires
        0 <= x1,
        0 <= x2,
        0 < d1,
        0 < d2,
    ensures
        0 <= x1 * d2 + x2 * d1,
{
}

/// Multiplying by a positive factor keeps the sign of the other factor.
proof fn lemma_sign_mul_pos(x: int, y: int)
    by (nonlinear_arith)
    requires
        0 < y,
    ensures
        (0 <= x * y) == (0 <= x),
        (x * y == 0) == (x == 0),
        (0 < x * y) == (0 < x),
{
}

/// Adding a term with zero numerator changes nothing: if `x` equals
/// `target`, both `x + z` and `z + x` still equal `target`.
proof fn lemma_add_zero_keeps(x: RatVal, z: RatVal, target: RatVal)
    requires
        rv_valid(x),
        rv_valid(z),
        rv_valid(target),
        z.n == 0,
        rv_eq(x, target),
    ensures
        rv_eq(rv_add(x, z), target),
        rv_eq(rv_add(z, x), target),
        rv_valid(rv_add(x, z)),
        rv_valid(rv_add(z, x)),
{
    assert((x.n * z.d + z.n * x.d) * target.d == target.n * (x.d * z.d)) by (nonlinear_arith)
        requires
            z.n == 0,
            x.n * target.d == target.n * x.d;
    assert((z.n * x.d + x.n * z.d) * target.d == target.n * (z.d * x.d)) by (nonlinear_arith)
        requires
            z.n == 0,
            x.n * target.d == target.n * x.d;
    lemma_mul_pos(x.d, z.d);
    lemma_mul_pos(z.d, x.d);
}

/// A quotient of two equal values with a positive divisor numerator is one.
proof fn lemma_div_self_one(x: RatVal, y: RatVal)
    requires
        rv_valid(x),
        rv_valid(y),
        0 < y.n,
        rv_eq(x, y),
    ensures
        rv_eq(rv_div(x, y), rv_one()),
        rv_valid(rv_div(x, y)),
{
    assert(x.n * y.d == x.d * y.n) by (nonlinear_arith)
        requires
            x.n * y.d == y.n * x.d;
    lemma_mul_pos(x.d, y.n);
}

/// Multiplying a value by something equal to one keeps its value.
proof fn lemma_mul_one_value(o: RatVal, v: RatVal)
    requires
        rv_valid(o),
        rv_valid(v),
        rv_eq(o, rv_one()),
    ensures
        rv_eq(rv_mul(o, v), v),
        rv_valid(rv_mul(o, v)),
{
    assert(o.n == o.d) by (nonlinear_arith)
        requires
            o.n * 1 == 1 * o.d;
    assert((o.n * v.n) * v.d == v.n * (o.d * v.d)) by (nonlinear_arith)
        requires
            o.n == o.d;
    lemma_mul_pos(o.d, v.d);
}

/// Validity and positive divisor of the first blending coefficient
/// `(t - lo) / (hi - lo)` over a non-degenerate span.
proof fn lemma_coeff_a_valid(t: RatVal, lo: RatVal, hi: RatVal)
    requires
        rv_valid(t),
        rv_valid(lo),
        rv_valid(hi),
        rv_le(lo, hi),
        !rv_eq(hi, lo),
    ensures
        0 < rv_sub(hi, lo).n,
        rv_valid(rv_div(rv_sub(t, lo), rv_sub(hi, lo))),
{
    lemma_mul_pos(t.d, lo.d);
    lemma_mul_pos(rv_sub(t, lo).d, rv_sub(hi, lo).n);
}

/// Validity and positive divisor of the second blending coefficient
/// `(hi - t) / (hi - lo)` over a non-degenerate span.
proof fn lemma_coeff_b_valid(t: RatVal, lo: RatVal, hi: RatVal)
    requires
        rv_valid(t),
        rv_valid(lo),
        rv_valid(hi),
        rv_le(lo, hi),
        !rv_eq(hi, lo),
    ensures
        0 < rv_sub(hi, lo).n,
        rv_valid(rv_div(rv_sub(hi, t), rv_sub(hi, lo))),
{
    lemma_mul_pos(hi.d, t.d);
    lemma_mul_pos(rv_sub(hi, t).d, rv_sub(hi, lo).n);
}

/// Non-negativity and local support of the basis functions: over a
/// non-decreasing knot vector every basis value is `>= 0`, and it is
/// exactly zero whenever `t` lies outside `[knots[i], knots[i + p + 1])`,
/// except at the right-edge closure segment of the configured degree.
pub proof fn lemma_basis_bounds(knots: Seq<RatVal>, degree: int, t: RatVal, p: int, i: int)
    requires
        0 <= p,
        0 <= i,
        i + p + 1 < knots.len(),
        rv_valid(t),
        forall|k: int| 0 <= k < knots.len() ==> rv_valid(#[trigger] knots[k]),
        knots_sorted(knots),
    ensures
        rv_valid(basis_val(knots, degree, t, p, i)),
        0 <= basis_val(knots, degree, t, p, i).n,
        rv_lt(t, knots[i]) ==> basis_val(knots, degree, t, p, i).n == 0,
        rv_lt(knots[i + p + 1], t) ==> basis_val(knots, degree, t, p, i).n == 0,
        rv_eq(t, knots[i + p + 1]) && !(i <= knots.len() - degree - 2 <= i + p && rv_eq(
            t,
            knots[knots.len() - degree - 1],
        )) ==> basis_val(knots, degree, t, p, i).n == 0,
    decreases p,
{
    lemma_basis_valid(knots, degree, t, p, i);
    if p == 0 {
        assert(rv_le(knots[i], knots[i + 1]));
        if rv_lt(t, knots[i]) {
            lemma_rv_lt_le_trans(t, knots[i], knots[i + 1]);
        }
    } else {
        lemma_basis_bounds(knots, degree, t, p - 1, i);
        lemma_basis_bounds(knots, degree, t, p - 1, i + 1);
        lemma_basis_valid(knots, degree, t, p - 1, i);
        lemma_basis_valid(knots, degree, t, p - 1, i + 1);
        let lo = knots[i];
        let hi_a = knots[i + p];
        let lo_b = knots[i + 1];
        let hi_b = knots[i + p + 1];
        let a = if rv_eq(hi_a, lo) {
            rv_zero()
        } else {
            rv_div(rv_sub(t, lo), rv_sub(hi_a, lo))
        };
        let b = if rv_eq(hi_b, lo_b) {
            rv_zero()
        } else {
            rv_div(rv_sub(hi_b, t), rv_sub(hi_b, lo_b))
        };
        let n1 = basis_val(knots, degree, t, p - 1, i);
        let n2 = basis_val(knots, degree, t, p - 1, i + 1);
        let nv = basis_val(knots, degree, t, p, i);
        assert(nv == rv_add(rv_mul(a, n1), rv_mul(b, n2)));
        assert(rv_le(lo, hi_a));
        assert(rv_le(lo, lo_b));
        assert(rv_le(lo_b, hi_b));
        assert(rv_le(hi_a, hi_b));
        // The first blending term is a product of nonnegative factors or
        // has a vanishing basis factor.
        if !rv_eq(hi_a, lo) {
            assert(0 < rv_sub(hi_a, lo).n);
            lemma_mul_pos(hi_a.d, lo.d);
            lemma_sign_mul_pos(rv_sub(t, lo).n, rv_sub(hi_a, lo).d);
            assert(a.n == rv_sub(t, lo).n * rv_sub(hi_a, lo).d);
            lemma_mul_pos(t.d, lo.d);
            lemma_mul_pos(rv_sub(t, lo).d, rv_sub(hi_a, lo).n);
            assert(0 < a.d);
        }
        if rv_lt(t, lo) {
            assert(n1.n == 0);
        } else {
            assert(rv_le(lo, t));
            if !rv_eq(hi_a, lo) {
                assert(0 <= rv_sub(t, lo).n);
                assert(0 <= a.n);
            }
        }
        assert(0 <= a.n * n1.n) by {
            if rv_lt(t, lo) {
                assert(a.n * n1.n == 0) by (nonlinear_arith)
                    requires
                        n1.n == 0;
            } else {
                lemma_mul_nonneg(a.n, n1.n);
            }
        }
        // Likewise for the second term.
        if !rv_eq(hi_b, lo_b) {
            assert(0 < rv_sub(hi_b, lo_b).n);
            lemma_mul_pos(hi_b.d, lo_b.d);
            lemma_sign_mul_pos(rv_sub(hi_b, t).n, rv_sub(hi_b, lo_b).d);
            assert(b.n == rv_sub(hi_b, t).n * rv_sub(hi_b, lo_b).d);
            lemma_mul_pos(hi_b.d, t.d);
            lemma_mul_pos(rv_sub(hi_b, t).d, rv_sub(hi_b, lo_b).n);
            assert(0 < b.d);
        }
        if rv_lt(hi_b, t) {
            assert(n2.n == 0);
        } else {
            assert(rv_le(t, hi_b));
            if !rv_eq(hi_b, lo_b) {
                assert(0 <= rv_sub(hi_b, t).n);
                assert(0 <= b.n);
            }
        }
        assert(0 <= b.n * n2.n) by {
            if rv_lt(hi_b, t) {
                assert(b.n * n2.n == 0) by (nonlinear_arith)
                    requires
                        n2.n == 0;
            } else {
                lemma_mul_nonneg(b.n, n2.n);
            }
        }
        assert(nv.n == (a.n * n1.n) * (b.d * n2.d) + (b.n * n2.n) * (a.d * n1.d));
        assert(0 < b.d * n2.d && 0 < a.d * n1.d) by (nonlinear_arith)
            requires
                0 < a.d,
                0 < b.d,
                0 < n1.d,
                0 < n2.d;
        lemma_cross_sum_nonneg(a.n * n1.n, b.n * n2.n, a.d * n1.d, b.d * n2.d);
        // Support on the left: below knots[i] both sub-bases vanish.
        if rv_lt(t, lo) {
            lemma_rv_lt_le_trans(t, lo, lo_b);
            assert(n1.n == 0 && n2.n == 0);
            assert(nv.n == 0) by (nonlinear_arith)
                requires
                    nv.n == (a.n * n1.n) * (b.d * n2.d) + (b.n * n2.n) * (a.d * n1.d),
                    n1.n == 0,
                    n2.n == 0;
        }
        // Support on the right: above knots[i + p + 1] both vanish.
        if rv_lt(hi_b, t) {
            lemma_rv_le_lt_trans(hi_a, hi_b, t);
            assert(n1.n == 0 && n2.n == 0);
            assert(nv.n == 0) by (nonlinear_arith)
                requires
                    nv.n == (a.n * n1.n) * (b.d * n2.d) + (b.n * n2.n) * (a.d * n1.d),
                    n1.n == 0,
                    n2.n == 0;
        }
        // The right boundary itself, whenever the closure cannot strike:
        // the closure segment is outside the window, or t is not the
        // value of the closure knot.
        if rv_eq(t, hi_b) && !(i <= knots.len() - degree - 2 <= i + p && rv_eq(
            t,
            knots[knots.len() - degree - 1],
        )) {
            // The second blending coefficient vanishes at the boundary.
            if !rv_eq(hi_b, lo_b) {
                assert(rv_sub(hi_b, t).n == 0);
                assert(b.n == 0);
            }
            // The first sub-basis vanishes, by induction on either side
            // of a possibly degenerate last span.
            if rv_eq(hi_a, hi_b) {
                lemma_rv_eq_trans(t, hi_b, hi_a);
                assert(n1.n == 0);
            } else {
                assert(rv_lt(hi_a, hi_b));
                lemma_rv_cmp_congruence(hi_a, hi_a, hi_b, t);
                assert(rv_lt(hi_a, t));
                assert(n1.n == 0);
            }
            assert(nv.n == 0) by (nonlinear_arith)
                requires
                    nv.n == (a.n * n1.n) * (b.d * n2.d) + (b.n * n2.n) * (a.d * n1.d),
                    n1.n == 0,
                    b.n == 0;
        }
    }
}

/// At the last knot value of a right-clamped knot vector (the last
/// `degree + 1` knots equal, preceded by a non-empty span), the final
/// basis function is exactly one and every other one is exactly zero.
pub proof fn lemma_basis_right_end(knots: Seq<RatVal>, degree: int, t: RatVal, p: int, i: int)
    requires
        0 <= p <= degree,
        0 <= i,
        i + p + 1 < knots.len(),
        degree + 2 <= knots.len(),
        rv_valid(t),
        forall|k: int| 0 <= k < knots.len() ==> rv_valid(#[trigger] knots[k]),
        knots_sorted(knots),
        rv_eq(t, knots[knots.len() - 1]),
        forall|k: int|
            knots.len() - degree - 1 <= k < knots.len() ==> rv_eq(
                #[trigger] knots[k],
                knots[knots.len() - 1],
            ),
        rv_lt(knots[knots.len() - degree - 2], knots[knots.len() - degree - 1]),
    ensures
        i == knots.len() - degree - 2 ==> rv_eq(basis_val(knots, degree, t, p, i), rv_one()),
        i != knots.len() - degree - 2 ==> basis_val(knots, degree, t, p, i).n == 0,
    decreases p,
{
    let ln = knots.len() as int;
    let s = ln - degree - 2;
    let last = knots[ln - 1];
    lemma_basis_valid(knots, degree, t, p, i);
    if p == 0 {
        if i == s {
            assert(rv_eq(knots[s + 1], last));
            lemma_rv_eq_trans(t, last, knots[s + 1]);
            assert(basis_val(knots, degree, t, 0, i) == rv_one());
        } else if i < s {
            assert(rv_le(knots[i + 1], knots[s]));
            assert(rv_le(knots[s + 1], last));
            lemma_rv_le_lt_trans(knots[i + 1], knots[s], knots[s + 1]);
            lemma_rv_lt_le_trans(knots[i + 1], knots[s + 1], last);
            lemma_rv_cmp_congruence(knots[i + 1], knots[i + 1], last, t);
            assert(rv_lt(knots[i + 1], t));
            assert(basis_val(knots, degree, t, 0, i).n == 0);
        } else {
            assert(rv_eq(knots[i + 1], last));
            lemma_rv_eq_trans(t, last, knots[i + 1]);
            assert(basis_val(knots, degree, t, 0, i).n == 0);
        }
    } else {
        lemma_basis_right_end(knots, degree, t, p - 1, i);
        lemma_basis_right_end(knots, degree, t, p - 1, i + 1);
        lemma_basis_valid(knots, degree, t, p - 1, i);
        lemma_basis_valid(knots, degree, t, p - 1, i + 1);
        let lo = knots[i];
        let hi_a = knots[i + p];
        let lo_b = knots[i + 1];
        let hi_b = knots[i + p + 1];
        let a = if rv_eq(hi_a, lo) {
            rv_zero()
        } else {
            rv_div(rv_sub(t, lo), rv_sub(hi_a, lo))
        };
        let b = if rv_eq(hi_b, lo_b) {
            rv_zero()
        } else {
            rv_div(rv_sub(hi_b, t), rv_sub(hi_b, lo_b))
        };
        let n1 = basis_val(knots, degree, t, p - 1, i);
        let n2 = basis_val(knots, degree, t, p - 1, i + 1);
        let nv = basis_val(knots, degree, t, p, i);
        assert(nv == rv_add(rv_mul(a, n1), rv_mul(b, n2)));
        assert(rv_le(lo, hi_a));
        assert(rv_le(lo_b, hi_b));
        if !rv_eq(hi_a, lo) {
            lemma_coeff_a_valid(t, lo, hi_a);
        }
        if !rv_eq(hi_b, lo_b) {
            lemma_coeff_b_valid(t, lo_b, hi_b);
        }
        if i == s {
            // The first coefficient is one: t equals knots[i + p], and the
            // span below it is non-empty.
            assert(rv_eq(hi_a, last));
            assert(rv_le(knots[s + 1], hi_a));
            lemma_rv_lt_le_trans(lo, knots[s + 1], hi_a);
            assert(rv_lt(lo, hi_a));
            assert(!rv_eq(hi_a, lo));
            lemma_rv_eq_trans(t, last, hi_a);
            lemma_rv_sub_congruence(t, hi_a, lo, lo);
            lemma_div_self_one(rv_sub(t, lo), rv_sub(hi_a, lo));
            assert(rv_eq(a, rv_one()));
            assert(rv_eq(n1, rv_one()));
            assert(n2.n == 0);
            assert((rv_mul(b, n2)).n == 0) by (nonlinear_arith)
                requires
                    n2.n == 0,
                    (rv_mul(b, n2)).n == b.n * n2.n;
            lemma_rv_mul_congruence(a, rv_one(), n1, rv_one());
            lemma_rv_eq_trans(rv_mul(a, n1), rv_mul(rv_one(), rv_one()), rv_one());
            lemma_add_zero_keeps(rv_mul(a, n1), rv_mul(b, n2), rv_one());
        } else {
            // The first sub-basis vanishes; the second can only be one
            // when it sits on the closure segment, where the second
            // coefficient vanishes at the boundary.
            assert(n1.n == 0);
            assert((rv_mul(a, n1)).n == 0) by (nonlinear_arith)
                requires
                    n1.n == 0,
                    (rv_mul(a, n1)).n == a.n * n1.n;
            if i + 1 == s {
                assert(rv_eq(hi_b, last));
                lemma_rv_eq_trans(hi_b, last, t);
                if !rv_eq(hi_b, lo_b) {
                    assert(rv_sub(hi_b, t).n == 0);
                    assert(b.n == 0) by (nonlinear_arith)
                        requires
                            rv_sub(hi_b, t).n == 0,
                            b.n == rv_sub(hi_b, t).n * rv_sub(hi_b, lo_b).d;
                }
                assert((rv_mul(b, n2)).n == 0) by (nonlinear_arith)
                    requires
                        b.n == 0,
                        (rv_mul(b, n2)).n == b.n * n2.n;
            } else {
                assert(n2.n == 0);
                assert((rv_mul(b, n2)).n == 0) by (nonlinear_arith)
                    requires
                        n2.n == 0,
                        (rv_mul(b, n2)).n == b.n * n2.n;
            }
            assert(nv.n == 0) by (nonlinear_arith)
                requires
                    nv.n == (rv_mul(a, n1)).n * (rv_mul(b, n2)).d + (rv_mul(b, n2)).n * (rv_mul(
                        a,
                        n1,
                    )).d,
                    (rv_mul(a, n1)).n == 0,
                    (rv_mul(b, n2)).n == 0;
        }
    }
}

/// At the first knot value of a left-clamped knot vector (the first
/// `degree + 1` knots equal, followed by a non-empty span), the basis
/// function whose index descends to zero is one and the others are zero.
pub proof fn lemma_basis_left_end(knots: Seq<RatVal>, degree: int, t: RatVal, p: int, i: int)
    requires
        0 <= p <= degree,
        0 <= i,
        i + p + 1 < knots.len(),
        2 * degree + 2 <= knots.len(),
        rv_valid(t),
        forall|k: int| 0 <= k < knots.len() ==> rv_valid(#[trigger] knots[k]),
        knots_sorted(knots),
        rv_eq(t, knots[0]),
        forall|k: int| 0 <= k <= degree ==> rv_eq(#[trigger] knots[k], knots[0]),
        rv_lt(knots[degree], knots[degree + 1]),
    ensures
        i == degree - p ==> rv_eq(basis_val(knots, degree, t, p, i), rv_one()),
        i != degree - p ==> basis_val(knots, degree, t, p, i).n == 0,
    decreases p,
{
    let ln = knots.len() as int;
    let first = knots[0];
    lemma_basis_valid(knots, degree, t, p, i);
    if p == 0 {
        if i == degree {
            lemma_rv_eq_trans(t, first, knots[degree]);
            lemma_rv_cmp_congruence(t, t, knots[degree], t);
            assert(rv_le(knots[i], t));
            lemma_rv_cmp_congruence(t, knots[degree], knots[degree + 1], knots[degree + 1]);
            assert(rv_lt(t, knots[i + 1]));
            assert(basis_val(knots, degree, t, 0, i) == rv_one());
        } else if i < degree {
            lemma_rv_eq_trans(t, first, knots[i + 1]);
            assert(!rv_lt(t, knots[i + 1]));
            // The closure segment lies at or beyond index `degree`, so it
            // is not this one.
            assert(i != ln - degree - 2);
            assert(basis_val(knots, degree, t, 0, i).n == 0);
        } else {
            // knots[i] is at or above the end of the clamp: t < knots[i].
            lemma_rv_eq_trans(t, first, knots[degree]);
            assert(rv_le(knots[degree + 1], knots[i]));
            lemma_rv_cmp_congruence(t, knots[degree], knots[degree + 1], knots[degree + 1]);
            lemma_rv_lt_le_trans(t, knots[degree + 1], knots[i]);
            assert(rv_lt(t, knots[i]));
            assert(rv_le(knots[i], knots[i + 1]));
            lemma_rv_lt_le_trans(t, knots[i], knots[i + 1]);
            assert(!rv_eq(t, knots[i + 1]));
            assert(basis_val(knots, degree, t, 0, i).n == 0);
        }
    } else {
        lemma_basis_left_end(knots, degree, t, p - 1, i);
        lemma_basis_left_end(knots, degree, t, p - 1, i + 1);
        lemma_basis_valid(knots, degree, t, p - 1, i);
        lemma_basis_valid(knots, degree, t, p - 1, i + 1);
        let lo = knots[i];
        let hi_a = knots[i + p];
        let lo_b = knots[i + 1];
        let hi_b = knots[i + p + 1];
        let a = if rv_eq(hi_a, lo) {
            rv_zero()
        } else {
            rv_div(rv_sub(t, lo), rv_sub(hi_a, lo))
        };
        let b = if rv_eq(hi_b, lo_b) {
            rv_zero()
        } else {
            rv_div(rv_sub(hi_b, t), rv_sub(hi_b, lo_b))
        };
        let n1 = basis_val(knots, degree, t, p - 1, i);
        let n2 = basis_val(knots, degree, t, p - 1, i + 1);
        let nv = basis_val(knots, degree, t, p, i);
        assert(nv == rv_add(rv_mul(a, n1), rv_mul(b, n2)));
        assert(rv_le(lo, hi_a));
        assert(rv_le(lo_b, hi_b));
        if !rv_eq(hi_a, lo) {
            lemma_coeff_a_valid(t, lo, hi_a);
        }
        if !rv_eq(hi_b, lo_b) {
            lemma_coeff_b_valid(t, lo_b, hi_b);
        }
        if i == degree - p {
            // The second coefficient is one: t equals knots[i + 1], and
            // the span up to knots[i + p + 1] is non-empty.
            assert(i + p + 1 == degree + 1);
            assert(rv_eq(lo_b, first));
            lemma_rv_eq_trans(lo_b, first, knots[degree]);
            lemma_rv_cmp_congruence(lo_b, knots[degree], hi_b, hi_b);
            assert(rv_lt(lo_b, hi_b));
            assert(!rv_eq(hi_b, lo_b));
            lemma_rv_eq_trans(t, first, lo_b);
            lemma_rv_sub_congruence(hi_b, hi_b, t, lo_b);
            lemma_div_self_one(rv_sub(hi_b, t), rv_sub(hi_b, lo_b));
            assert(rv_eq(b, rv_one()));
            assert(rv_eq(n2, rv_one()));
            assert(n1.n == 0);
            assert((rv_mul(a, n1)).n == 0) by (nonlinear_arith)
                requires
                    n1.n == 0,
                    (rv_mul(a, n1)).n == a.n * n1.n;
            lemma_rv_mul_congruence(b, rv_one(), n2, rv_one());
            lemma_rv_eq_trans(rv_mul(b, n2), rv_mul(rv_one(), rv_one()), rv_one());
            lemma_add_zero_keeps(rv_mul(b, n2), rv_mul(a, n1), rv_one());
        } else {
            if i == degree - p + 1 {
                // The first coefficient vanishes: t equals knots[i].
                assert(rv_eq(lo, first));
                lemma_rv_eq_trans(t, first, lo);
                if !rv_eq(hi_a, lo) {
                    assert(rv_sub(t, lo).n == 0);
                    assert(a.n == 0) by (nonlinear_arith)
                        requires
                            rv_sub(t, lo).n == 0,
                            a.n == rv_sub(t, lo).n * rv_sub(hi_a, lo).d;
                }
                assert((rv_mul(a, n1)).n == 0) by (nonlinear_arith)
                    requires
                        a.n == 0,
                        (rv_mul(a, n1)).n == a.n * n1.n;
            } else {
                assert(n1.n == 0);
                assert((rv_mul(a, n1)).n == 0) by (nonlinear_arith)
                    requires
                        n1.n == 0,
                        (rv_mul(a, n1)).n == a.n * n1.n;
            }
            assert(n2.n == 0);
            assert((rv_mul(b, n2)).n == 0) by (nonlinear_arith)
                requires
                    n2.n == 0,
                    (rv_mul(b, n2)).n == b.n * n2.n;
            assert(nv.n == 0) by (nonlinear_arith)
                requires
                    nv.n == (rv_mul(a, n1)).n * (rv_mul(b, n2)).d + (rv_mul(b, n2)).n * (rv_mul(
                        a,
                        n1,
                    )).d,
                    (rv_mul(a, n1)).n == 0,
                    (rv_mul(b, n2)).n == 0;
        }
    }
}

/// Sum of the basis values of the configured degree over all basis
/// indices below `count`.
pub open spec fn basis_sum(knots: Seq<RatVal>, degree: int, t: RatVal, count: int) -> RatVal
    decreases count,
{
    if count <= 0 {
        rv_zero()
    } else {
        rv_add(
            basis_sum(knots, degree, t, count - 1),
            basis_val(knots, degree, t, degree, count - 1),
        )
    }
}

proof fn lemma_right_edge_sum_prefix(knots: Seq<RatVal>, degree: int, t: RatVal, count: int)
    requires
        0 <= degree,
        degree + 2 <= knots.len(),
        rv_valid(t),
        forall|k: int| 0 <= k < knots.len() ==> rv_valid(#[trigger] knots[k]),
        knots_sorted(knots),
        rv_eq(t, knots[knots.len() - 1]),
        forall|k: int|
            knots.len() - degree - 1 <= k < knots.len() ==> rv_eq(
                #[trigger] knots[k],
                knots[knots.len() - 1],
            ),
        rv_lt(knots[knots.len() - degree - 2], knots[knots.len() - degree - 1]),
        0 <= count <= knots.len() - degree - 2,
    ensures
        rv_valid(basis_sum(knots, degree, t, count)),
        basis_sum(knots, degree, t, count).n == 0,
    decreases count,
{
    if count <= 0 {
    } else {
        lemma_right_edge_sum_prefix(knots, degree, t, count - 1);
        lemma_basis_right_end(knots, degree, t, degree, count - 1);
        lemma_basis_valid(knots, degree, t, degree, count - 1);
        let s = basis_sum(knots, degree, t, count - 1);
        let term = basis_val(knots, degree, t, degree, count - 1);
        assert(basis_sum(knots, degree, t, count) == rv_add(s, term));
        lemma_mul_pos(s.d, term.d);
        assert(rv_add(s, term).n == 0) by (nonlinear_arith)
            requires
                rv_add(s, term).n == s.n * term.d + term.n * s.d,
                s.n == 0,
                term.n == 0;
    }
}

/// Right-edge coverage: at the last knot value of a right-clamped knot
/// vector, the basis values of the configured degree still sum to one,
/// thanks to the closed right end of the final knot span.
pub proof fn lemma_right_edge_partition(knots: Seq<RatVal>, degree: int, t: RatVal)
    requires
        0 <= degree,
        degree + 2 <= knots.len(),
        rv_valid(t),
        forall|k: int| 0 <= k < knots.len() ==> rv_valid(#[trigger] knots[k]),
        knots_sorted(knots),
        rv_eq(t, knots[knots.len() - 1]),
        forall|k: int|
            knots.len() - degree - 1 <= k < knots.len() ==> rv_eq(
                #[trigger] knots[k],
                knots[knots.len() - 1],
            ),
        rv_lt(knots[knots.len() - degree - 2], knots[knots.len() - degree - 1]),
    ensures
        rv_eq(basis_sum(knots, degree, t, knots.len() - degree - 1), rv_one()),
{
    let ln = knots.len() as int;
    let mcount = ln - degree - 1;
    lemma_right_edge_sum_prefix(knots, degree, t, mcount - 1);
    lemma_basis_right_end(knots, degree, t, degree, mcount - 1);
    lemma_basis_valid(knots, degree, t, degree, mcount - 1);
    let s = basis_sum(knots, degree, t, mcount - 1);
    let term = basis_val(knots, degree, t, degree, mcount - 1);
    assert(basis_sum(knots, degree, t, mcount) == rv_add(s, term));
    lemma_add_zero_keeps(term, s, rv_one());
}

proof fn lemma_curve_left_sum(m: SplineModel, t: RatVal, count: int)
    requires
        model_wf(m),
        knots_sorted(m.knots),
        rv_valid(t),
        2 * m.degree + 2 <= m.knots.len(),
        rv_eq(t, m.knots[0]),
        forall|k: int| 0 <= k <= m.degree ==> rv_eq(#[trigger] m.knots[k], m.knots[0]),
        rv_lt(m.knots[m.degree], m.knots[m.degree + 1]),
        1 <= count <= m.cps.len(),
    ensures
        rv_valid(curve_sum_x(m, t, count)),
        rv_valid(curve_sum_y(m, t, count)),
        rv_eq(curve_sum_x(m, t, count), m.cps[0].x),
        rv_eq(curve_sum_y(m, t, count), m.cps[0].y),
    decreases count,
{
    let nb = basis_val(m.knots, m.degree, t, m.degree, count - 1);
    lemma_basis_left_end(m.knots, m.degree, t, m.degree, count - 1);
    lemma_basis_valid(m.knots, m.degree, t, m.degree, count - 1);
    let px = rv_mul(nb, m.cps[count - 1].x);
    let py = rv_mul(nb, m.cps[count - 1].y);
    if count == 1 {
        lemma_mul_one_value(nb, m.cps[0].x);
        lemma_mul_one_value(nb, m.cps[0].y);
        assert(curve_sum_x(m, t, 0) == rv_zero());
        assert(curve_sum_y(m, t, 0) == rv_zero());
        assert(curve_sum_x(m, t, 1) == rv_add(rv_zero(), px));
        assert(curve_sum_y(m, t, 1) == rv_add(rv_zero(), py));
        lemma_add_zero_keeps(px, rv_zero(), m.cps[0].x);
        lemma_add_zero_keeps(py, rv_zero(), m.cps[0].y);
    } else {
        lemma_curve_left_sum(m, t, count - 1);
        lemma_rv_mul_congruence(nb, nb, m.cps[count - 1].x, m.cps[count - 1].x);
        lemma_rv_mul_congruence(nb, nb, m.cps[count - 1].y, m.cps[count - 1].y);
        assert(px.n == 0) by (nonlinear_arith)
            requires
                nb.n == 0,
                px.n == nb.n * m.cps[count - 1].x.n;
        assert(py.n == 0) by (nonlinear_arith)
            requires
                nb.n == 0,
                py.n == nb.n * m.cps[count - 1].y.n;
        assert(curve_sum_x(m, t, count) == rv_add(curve_sum_x(m, t, count - 1), px));
        assert(curve_sum_y(m, t, count) == rv_add(curve_sum_y(m, t, count - 1), py));
        lemma_add_zero_keeps(curve_sum_x(m, t, count - 1), px, m.cps[0].x);
        lemma_add_zero_keeps(curve_sum_y(m, t, count - 1), py, m.cps[0].y);
    }
}

/// Clamped-curve property, left end: when the first `degree + 1` knots
/// coincide and the next span is non-empty, the interpolated curve at
/// the first knot value is exactly the first control point.
pub proof fn lemma_interpolate_left_endpoint(m: SplineModel, t: RatVal)
    requires
        model_wf(m),
        knots_sorted(m.knots),
        rv_valid(t),
        2 * m.degree + 2 <= m.knots.len(),
        rv_eq(t, m.knots[0]),
        forall|k: int| 0 <= k <= m.degree ==> rv_eq(#[trigger] m.knots[k], m.knots[0]),
        rv_lt(m.knots[m.degree], m.knots[m.degree + 1]),
        1 <= m.cps.len(),
    ensures
        rv_eq(curve_sum_x(m, t, m.cps.len() as int), m.cps[0].x),
        rv_eq(curve_sum_y(m, t, m.cps.len() as int), m.cps[0].y),
{
    lemma_curve_left_sum(m, t, m.cps.len() as int);
}

proof fn lemma_curve_right_sum_prefix(m: SplineModel, t: RatVal, count: int)
    requires
        model_wf(m),
        knots_sorted(m.knots),
        rv_valid(t),
        1 <= m.cps.len(),
        rv_eq(t, m.knots[m.knots.len() - 1]),
        forall|k: int|
            m.knots.len() - m.degree - 1 <= k < m.knots.len() ==> rv_eq(
                #[trigger] m.knots[k],
                m.knots[m.knots.len() - 1],
            ),
        rv_lt(m.knots[m.knots.len() - m.degree - 2], m.knots[m.knots.len() - m.degree - 1]),
        0 <= count <= m.cps.len() - 1,
    ensures
        rv_valid(curve_sum_x(m, t, count)),
        rv_valid(curve_sum_y(m, t, count)),
        curve_sum_x(m, t, count).n == 0,
        curve_sum_y(m, t, count).n == 0,
    decreases count,
{
    if count <= 0 {
    } else {
        lemma_curve_right_sum_prefix(m, t, count - 1);
        lemma_basis_right_end(m.knots, m.degree, t, m.degree, count - 1);
        lemma_basis_valid(m.knots, m.degree, t, m.degree, count - 1);
        let nb = basis_val(m.knots, m.degree, t, m.degree, count - 1);
        let px = rv_mul(nb, m.cps[count - 1].x);
        let py = rv_mul(nb, m.cps[count - 1].y);
        lemma_rv_mul_congruence(nb, nb, m.cps[count - 1].x, m.cps[count - 1].x);
        lemma_rv_mul_congruence(nb, nb, m.cps[count - 1].y, m.cps[count - 1].y);
        assert(px.n == 0 && py.n == 0) by (nonlinear_arith)
            requires
                nb.n == 0,
                px.n == nb.n * m.cps[count - 1].x.n,
                py.n == nb.n * m.cps[count - 1].y.n;
        let sx = curve_sum_x(m, t, count - 1);
        let sy = curve_sum_y(m, t, count - 1);
        assert(curve_sum_x(m, t, count) == rv_add(sx, px));
        assert(curve_sum_y(m, t, count) == rv_add(sy, py));
        lemma_mul_pos(sx.d, px.d);
        lemma_mul_pos(sy.d, py.d);
        assert(rv_add(sx, px).n == 0 && rv_add(sy, py).n == 0) by (nonlinear_arith)
            requires
                rv_add(sx, px).n == sx.n * px.d + px.n * sx.d,
                rv_add(sy, py).n == sy.n * py.d + py.n * sy.d,
                sx.n == 0,
                sy.n == 0,
                px.n == 0,
                py.n == 0;
    }
}

/// Clamped-curve property, right end: when the last `degree + 1` knots
/// coincide and the span before them is non-empty, the interpolated
/// curve at the last knot value is exactly the last control point.
pub proof fn lemma_interpolate_right_endpoint(m: SplineModel, t: RatVal)
    requires
        model_wf(m),
        knots_sorted(m.knots),
        rv_valid(t),
        1 <= m.cps.len(),
        rv_eq(t, m.knots[m.knots.len() - 1]),
        forall|k: int|
            m.knots.len() - m.degree - 1 <= k < m.knots.len() ==> rv_eq(
                #[trigger] m.knots[k],
                m.knots[m.knots.len() - 1],
            ),
        rv_lt(m.knots[m.knots.len() - m.degree - 2], m.knots[m.knots.len() - m.degree - 1]),
    ensures
        rv_eq(curve_sum_x(m, t, m.cps.len() as int), m.cps[m.cps.len() - 1].x),
        rv_eq(curve_sum_y(m, t, m.cps.len() as int), m.cps[m.cps.len() - 1].y),
{
    let mc = m.cps.len() as int;
    lemma_curve_right_sum_prefix(m, t, mc - 1);
    lemma_basis_right_end(m.knots, m.degree, t, m.degree, mc - 1);
    lemma_basis_valid(m.knots, m.degree, t, m.degree, mc - 1);
    let nb = basis_val(m.knots, m.degree, t, m.degree, mc - 1);
    lemma_mul_one_value(nb, m.cps[mc - 1].x);
    lemma_mul_one_value(nb, m.cps[mc - 1].y);
    let px = rv_mul(nb, m.cps[mc - 1].x);
    let py = rv_mul(nb, m.cps[mc - 1].y);
    assert(curve_sum_x(m, t, mc) == rv_add(curve_sum_x(m, t, mc - 1), px));
    assert(curve_sum_y(m, t, mc) == rv_add(curve_sum_y(m, t, mc - 1), py));
    lemma_add_zero_keeps(px, curve_sum_x(m, t, mc - 1), m.cps[mc - 1].x);
    lemma_add_zero_keeps(py, curve_sum_y(m, t, mc - 1), m.cps[mc - 1].y);
}

/// Two representations with zero numerator denote the same value.
proof fn lemma_zero_eq(z1: RatVal, z2: RatVal)
    requires
        z1.n == 0,
        z2.n == 0,
    ensures
        rv_eq(z1, z2),
{
    assert(z1.n * z2.d == z2.n * z1.d) by (nonlinear_arith)
        requires
            z1.n == 0,
            z2.n == 0;
}

proof fn lemma_assoc_core(xn: int, xd: int, yn: int, yd: int, zn: int, zd: int)
    ensures
        (xn * yd + yn * xd) * zd + zn * (xd * yd) == xn * (yd * zd) + (yn * zd + zn * yd) * xd,
        (xd * yd) * zd == xd * (yd * zd),
{
    assert((xn * yd + yn * xd) * zd == (xn * yd) * zd + (yn * xd) * zd) by (nonlinear_arith);
    assert((xn * yd) * zd == xn * (yd * zd)) by (nonlinear_arith);
    assert((yn * xd) * zd == (yn * zd) * xd) by (nonlinear_arith);
    assert(zn * (xd * yd) == (zn * yd) * xd) by (nonlinear_arith);
    assert((yn * zd + zn * yd) * xd == (yn * zd) * xd + (zn * yd) * xd) by (nonlinear_arith);
    assert((xd * yd) * zd == xd * (yd * zd)) by (nonlinear_arith);
}

proof fn lemma_combine_core(xn: int, xd: int, yn: int, yd: int, vn: int, vd: int)
    requires
        xn * yd + yn * xd == xd * yd,
    ensures
        ((xn * vn) * (yd * vd) + (yn * vn) * (xd * vd)) * vd == vn * ((xd * vd) * (yd * vd)),
{
    assert((xn * vn) * (yd * vd) == (vn * vd) * (xn * yd)) by (nonlinear_arith);
    assert((yn * vn) * (xd * vd) == (vn * vd) * (yn * xd)) by (nonlinear_arith);
    assert((vn * vd) * (xn * yd) + (vn * vd) * (yn * xd) == (vn * vd) * (xn * yd + yn * xd))
        by (nonlinear_arith);
    assert(((vn * vd) * (xd * yd)) * vd == vn * ((xd * vd) * (yd * vd))) by (nonlinear_arith);
}

proof fn lemma_comm_scale(s: int, dd: int, dn: int, xd: int, yd: int)
    ensures
        ((dd * dn) * s) * ((xd * yd) * dn) == (s * dd) * ((xd * dn) * (yd * dn)),
{
    assert(((dd * dn) * s) * ((xd * yd) * dn) == (s * dd) * ((xd * dn) * (yd * dn)))
        by (nonlinear_arith);
}

proof fn lemma_common_den_core(xn: int, xd: int, yn: int, yd: int, dn: int, dd: int)
    ensures
        ((xn * dd) * (yd * dn) + (yn * dd) * (xd * dn)) * ((xd * yd) * dn) == ((xn * yd + yn * xd)
            * dd) * ((xd * dn) * (yd * dn)),
{
    assert((xn * dd) * (yd * dn) == (dd * dn) * (xn * yd)) by (nonlinear_arith);
    assert((yn * dd) * (xd * dn) == (dd * dn) * (yn * xd)) by (nonlinear_arith);
    assert((dd * dn) * (xn * yd) + (dd * dn) * (yn * xd) == (dd * dn) * (xn * yd + yn * xd))
        by (nonlinear_arith);
    lemma_comm_scale(xn * yd + yn * xd, dd, dn, xd, yd);
}

proof fn lemma_telescope_core(un: int, ud: int, tn: int, td: int, wn: int, wd: int)
    ensures
        (un * td - tn * ud) * (td * wd) + (tn * wd - wn * td) * (ud * td) == (td * td) * (un * wd
            - wn * ud),
{
    assert((un * td - tn * ud) * (td * wd) == (td * td) * (un * wd) - (td * wd) * (tn * ud))
        by (nonlinear_arith);
    assert((tn * wd - wn * td) * (ud * td) == (tn * wd) * (ud * td) - (wn * td) * (ud * td))
        by (nonlinear_arith);
    assert((tn * wd) * (ud * td) == (td * wd) * (tn * ud)) by (nonlinear_arith);
    assert((wn * td) * (ud * td) == (td * td) * (wn * ud)) by (nonlinear_arith);
    assert((td * td) * (un * wd) - (td * td) * (wn * ud) == (td * td) * (un * wd - wn * ud))
        by (nonlinear_arith);
}

proof fn lemma_telescope_cross(s: int, td: int, ud: int, wd: int)
    ensures
        ((td * td) * s) * (ud * wd) == s * ((ud * td) * (td * wd)),
{
    assert(((td * td) * s) * (ud * wd) == s * ((ud * td) * (td * wd))) by (nonlinear_arith);
}

proof fn lemma_rv_add_assoc(x: RatVal, y: RatVal, z: RatVal)
    requires
        rv_valid(x),
        rv_valid(y),
        rv_valid(z),
    ensures
        rv_eq(rv_add(rv_add(x, y), z), rv_add(x, rv_add(y, z))),
        rv_valid(rv_add(rv_add(x, y), z)),
        rv_valid(rv_add(x, rv_add(y, z))),
{
    lemma_assoc_core(x.n, x.d, y.n, y.d, z.n, z.d);
    lemma_mul_pos(x.d, y.d);
    lemma_mul_pos(x.d * y.d, z.d);
}

/// Regrouping a four-term sum: `(w + b) + (a + q)` equals
/// `(w + (b + a)) + q` as rational values.
proof fn lemma_regroup(w: RatVal, b: RatVal, a: RatVal, q: RatVal)
    requires
        rv_valid(w),
        rv_valid(b),
        rv_valid(a),
        rv_valid(q),
    ensures
        rv_eq(rv_add(rv_add(w, b), rv_add(a, q)), rv_add(rv_add(w, rv_add(b, a)), q)),
        rv_valid(rv_add(rv_add(w, b), rv_add(a, q))),
        rv_valid(rv_add(rv_add(w, rv_add(b, a)), q)),
{
    lemma_mul_pos(w.d, b.d);
    lemma_mul_pos(a.d, q.d);
    lemma_mul_pos(b.d, a.d);
    lemma_rv_add_assoc(rv_add(w, b), a, q);
    lemma_rv_add_assoc(w, b, a);
    lemma_rv_add_congruence(rv_add(rv_add(w, b), a), rv_add(w, rv_add(b, a)), q, q);
    lemma_rv_eq_trans(
        rv_add(rv_add(w, b), rv_add(a, q)),
        rv_add(rv_add(rv_add(w, b), a), q),
        rv_add(rv_add(w, rv_add(b, a)), q),
    );
}

/// Two blending coefficients that sum to one blend a value into itself.
proof fn lemma_combine_coeffs(x: RatVal, y: RatVal, v: RatVal)
    requires
        rv_valid(x),
        rv_valid(y),
        rv_valid(v),
        rv_eq(rv_add(x, y), rv_one()),
    ensures
        rv_eq(rv_add(rv_mul(x, v), rv_mul(y, v)), v),
        rv_valid(rv_add(rv_mul(x, v), rv_mul(y, v))),
{
    assert(x.n * y.d + y.n * x.d == x.d * y.d) by (nonlinear_arith)
        requires
            (x.n * y.d + y.n * x.d) * 1 == 1 * (x.d * y.d);
    lemma_combine_core(x.n, x.d, y.n, y.d, v.n, v.d);
    lemma_mul_pos(x.d, v.d);
    lemma_mul_pos(y.d, v.d);
    lemma_mul_pos(x.d * v.d, y.d * v.d);
}

/// Fractions over one denominator add by adding their numerators.
proof fn lemma_common_denominator(x: RatVal, y: RatVal, dv: RatVal)
    requires
        rv_valid(x),
        rv_valid(y),
        rv_valid(dv),
        0 < dv.n,
    ensures
        rv_eq(rv_add(rv_div(x, dv), rv_div(y, dv)), rv_div(rv_add(x, y), dv)),
        rv_valid(rv_add(rv_div(x, dv), rv_div(y, dv))),
        rv_valid(rv_div(rv_add(x, y), dv)),
{
    lemma_common_den_core(x.n, x.d, y.n, y.d, dv.n, dv.d);
    lemma_mul_pos(x.d, dv.n);
    lemma_mul_pos(y.d, dv.n);
    lemma_mul_pos(x.d * dv.n, y.d * dv.n);
    lemma_mul_pos(x.d, y.d);
    lemma_mul_pos(x.d * y.d, dv.n);
}

/// The difference over a span telescopes: `(u - t) + (t - w) = u - w`.
proof fn lemma_sub_telescope(u: RatVal, t: RatVal, w: RatVal)
    requires
        rv_valid(u),
        rv_valid(t),
        rv_valid(w),
    ensures
        rv_eq(rv_add(rv_sub(u, t), rv_sub(t, w)), rv_sub(u, w)),
        rv_valid(rv_add(rv_sub(u, t), rv_sub(t, w))),
        rv_valid(rv_sub(u, w)),
{
    lemma_telescope_core(u.n, u.d, t.n, t.d, w.n, w.d);
    lemma_telescope_cross(u.n * w.d - w.n * u.d, t.d, u.d, w.d);
    lemma_mul_pos(u.d, t.d);
    lemma_mul_pos(t.d, w.d);
    lemma_mul_pos(u.d * t.d, t.d * w.d);
    lemma_mul_pos(u.d, w.d);
}

/// The first blending coefficient of the recursion, as a spec value.
pub open spec fn coeff_a(knots: Seq<RatVal>, t: RatVal, p: int, i: int) -> RatVal {
    if rv_eq(knots[i + p], knots[i]) {
        rv_zero()
    } else {
        rv_div(rv_sub(t, knots[i]), rv_sub(knots[i + p], knots[i]))
    }
}

/// The second blending coefficient of the recursion, as a spec value.
pub open spec fn coeff_b(knots: Seq<RatVal>, t: RatVal, p: int, i: int) -> RatVal {
    if rv_eq(knots[i + p + 1], knots[i + 1]) {
        rv_zero()
    } else {
        rv_div(rv_sub(knots[i + p + 1], t), rv_sub(knots[i + p + 1], knots[i + 1]))
    }
}

/// Over one span, the outgoing coefficient of one basis and the incoming
/// coefficient of the next sum to one; over a degenerate span both vanish.
proof fn lemma_coeff_pair(knots: Seq<RatVal>, t: RatVal, k: int, j: int)
    requires
        1 <= k,
        0 <= j,
        j + k + 1 < knots.len(),
        rv_valid(t),
        forall|q: int| 0 <= q < knots.len() ==> rv_valid(#[trigger] knots[q]),
        knots_sorted(knots),
    ensures
        rv_valid(coeff_b(knots, t, k, j)),
        rv_valid(coeff_a(knots, t, k, j + 1)),
        !rv_eq(knots[j + k + 1], knots[j + 1]) ==> rv_eq(
            rv_add(coeff_b(knots, t, k, j), coeff_a(knots, t, k, j + 1)),
            rv_one(),
        ),
        rv_eq(knots[j + k + 1], knots[j + 1]) ==> coeff_b(knots, t, k, j).n == 0 && coeff_a(
            knots,
            t,
            k,
            j + 1,
        ).n == 0,
{
    let u = knots[j + k + 1];
    let w = knots[j + 1];
    assert(rv_le(w, u));
    if !rv_eq(u, w) {
        let dv = rv_sub(u, w);
        lemma_coeff_b_valid(t, w, u);
        lemma_coeff_a_valid(t, w, u);
        assert(coeff_b(knots, t, k, j) == rv_div(rv_sub(u, t), dv));
        assert(coeff_a(knots, t, k, j + 1) == rv_div(rv_sub(t, w), dv));
        lemma_mul_pos(u.d, t.d);
        lemma_mul_pos(t.d, w.d);
        lemma_mul_pos(u.d, w.d);
        lemma_sub_telescope(u, t, w);
        lemma_common_denominator(rv_sub(u, t), rv_sub(t, w), dv);
        lemma_rv_div_congruence(rv_add(rv_sub(u, t), rv_sub(t, w)), dv, dv, dv);
        lemma_div_self_one(dv, dv);
        lemma_rv_eq_trans(
            rv_add(rv_div(rv_sub(u, t), dv), rv_div(rv_sub(t, w), dv)),
            rv_div(rv_add(rv_sub(u, t), rv_sub(t, w)), dv),
            rv_div(dv, dv),
        );
        lemma_rv_eq_trans(
            rv_add(rv_div(rv_sub(u, t), dv), rv_div(rv_sub(t, w), dv)),
            rv_div(dv, dv),
            rv_one(),
        );
    }
}

/// Sum of the level-`p` basis values over `count` consecutive indices
/// starting at `start`.
pub open spec fn basis_window_sum(
    knots: Seq<RatVal>,
    degree: int,
    t: RatVal,
    p: int,
    start: int,
    count: int,
) -> RatVal
    decreases count,
{
    if count <= 0 {
        rv_zero()
    } else {
        rv_add(
            basis_window_sum(knots, degree, t, p, start, count - 1),
            basis_val(knots, degree, t, p, start + count - 1),
        )
    }
}

proof fn lemma_window_sum_valid(
    knots: Seq<RatVal>,
    degree: int,
    t: RatVal,
    p: int,
    start: int,
    count: int,
)
    requires
        0 <= p,
        0 <= start,
        0 <= count,
        start + count + p < knots.len(),
        rv_valid(t),
        forall|q: int| 0 <= q < knots.len() ==> rv_valid(#[trigger] knots[q]),
    ensures
        rv_valid(basis_window_sum(knots, degree, t, p, start, count)),
    decreases count,
{
    if count <= 0 {
    } else {
        lemma_window_sum_valid(knots, degree, t, p, start, count - 1);
        lemma_basis_valid(knots, degree, t, p, start + count - 1);
        let s = basis_window_sum(knots, degree, t, p, start, count - 1);
        let term = basis_val(knots, degree, t, p, start + count - 1);
        lemma_mul_pos(s.d, term.d);
    }
}

/// The parameter lies in the knot span `[knots[c], knots[c + 1])` of an
/// interior interval with a full window of `degree + 1` bases around it.
pub open spec fn in_interior_span(knots: Seq<RatVal>, degree: int, t: RatVal, c: int) -> bool {
    &&& degree <= c <= knots.len() - degree - 2
    &&& rv_le(knots[c], t)
    &&& rv_lt(t, knots[c + 1])
}

/// One step of the telescoping argument: the partial window sum at level
/// `k` equals the shifted window sum at level `k - 1` plus the pending
/// outgoing term of the last basis counted so far.
proof fn lemma_partition_shift(knots: Seq<RatVal>, degree: int, t: RatVal, k: int, c: int, j: int)
    requires
        1 <= k <= degree,
        rv_valid(t),
        forall|q: int| 0 <= q < knots.len() ==> rv_valid(#[trigger] knots[q]),
        knots_sorted(knots),
        in_interior_span(knots, degree, t, c),
        c - k <= j <= c,
    ensures
        rv_eq(
            basis_window_sum(knots, degree, t, k, c - k, j - (c - k) + 1),
            rv_add(
                basis_window_sum(knots, degree, t, k - 1, c - k + 1, j - (c - k)),
                rv_mul(coeff_b(knots, t, k, j), basis_val(knots, degree, t, k - 1, j + 1)),
            ),
        ),
        rv_valid(basis_window_sum(knots, degree, t, k, c - k, j - (c - k) + 1)),
        rv_valid(
            rv_add(
                basis_window_sum(knots, degree, t, k - 1, c - k + 1, j - (c - k)),
                rv_mul(coeff_b(knots, t, k, j), basis_val(knots, degree, t, k - 1, j + 1)),
            ),
        ),
    decreases j - (c - k),
{
    let ln = knots.len() as int;
    let m = c - k;
    lemma_basis_bounds(knots, degree, t, k - 1, j + 1);
    lemma_coeff_pair(knots, t, k, j);
    let bj = rv_mul(coeff_b(knots, t, k, j), basis_val(knots, degree, t, k - 1, j + 1));
    lemma_rv_mul_congruence(
        coeff_b(knots, t, k, j),
        coeff_b(knots, t, k, j),
        basis_val(knots, degree, t, k - 1, j + 1),
        basis_val(knots, degree, t, k - 1, j + 1),
    );
    // t stays below the closure knot, so the closure never fires here.
    assert(rv_le(knots[c + 1], knots[ln - degree - 1]));
    lemma_rv_lt_le_trans(t, knots[c + 1], knots[ln - degree - 1]);
    if j == m {
        // The incoming term of the first basis in the window vanishes:
        // its sub-basis is supported strictly below the span.
        lemma_basis_bounds(knots, degree, t, k - 1, m);
        let n1 = basis_val(knots, degree, t, k - 1, m);
        assert(rv_le(knots[m + k], t));
        assert(n1.n == 0);
        lemma_basis_valid(knots, degree, t, k, m);
        let am = coeff_a(knots, t, k, m);
        let nm = basis_val(knots, degree, t, k, m);
        assert(nm == rv_add(rv_mul(am, n1), bj));
        let za = rv_mul(am, n1);
        assert(za.n == 0) by (nonlinear_arith)
            requires
                n1.n == 0,
                za.n == am.n * n1.n;
        if !rv_eq(knots[m + k], knots[m]) {
            lemma_coeff_a_valid(t, knots[m], knots[m + k]);
        }
        lemma_basis_valid(knots, degree, t, k - 1, m);
        lemma_mul_pos(am.d, n1.d);
        lemma_add_zero_keeps(bj, za, bj);
        assert(basis_window_sum(knots, degree, t, k, m, 0) == rv_zero());
        assert(basis_window_sum(knots, degree, t, k, m, 1) == rv_add(rv_zero(), nm));
        assert(basis_window_sum(knots, degree, t, k - 1, m + 1, 0) == rv_zero());
        lemma_mul_pos(za.d, bj.d);
        lemma_add_zero_keeps(nm, rv_zero(), nm);
        lemma_rv_eq_trans(rv_add(rv_zero(), nm), nm, bj);
        lemma_add_zero_keeps(bj, rv_zero(), bj);
        lemma_rv_eq_trans(rv_add(rv_zero(), nm), bj, rv_add(rv_zero(), bj));
    } else {
        lemma_partition_shift(knots, degree, t, k, c, j - 1);
        let w1 = basis_window_sum(knots, degree, t, k - 1, m + 1, j - 1 - m);
        let bprev = rv_mul(coeff_b(knots, t, k, j - 1), basis_val(knots, degree, t, k - 1, j));
        let sprev = basis_window_sum(knots, degree, t, k, m, j - m);
        let nj = basis_val(knots, degree, t, k, j);
        let aj = rv_mul(coeff_a(knots, t, k, j), basis_val(knots, degree, t, k - 1, j));
        assert(nj == rv_add(aj, bj));
        assert(basis_window_sum(knots, degree, t, k, m, j - m + 1) == rv_add(sprev, nj));
        assert(basis_window_sum(knots, degree, t, k - 1, m + 1, j - m) == rv_add(
            w1,
            basis_val(knots, degree, t, k - 1, j),
        ));
        lemma_basis_bounds(knots, degree, t, k - 1, j);
        let njsub = basis_val(knots, degree, t, k - 1, j);
        lemma_coeff_pair(knots, t, k, j - 1);
        lemma_rv_mul_congruence(
            coeff_b(knots, t, k, j - 1),
            coeff_b(knots, t, k, j - 1),
            njsub,
            njsub,
        );
        lemma_rv_mul_congruence(coeff_a(knots, t, k, j), coeff_a(knots, t, k, j), njsub, njsub);
        lemma_window_sum_valid(knots, degree, t, k - 1, m + 1, j - 1 - m);
        lemma_window_sum_valid(knots, degree, t, k, m, j - m);
        // The pending and incoming coefficients blend the shared
        // sub-basis into itself.
        let pair = rv_add(bprev, aj);
        if !rv_eq(knots[j + k], knots[j]) {
            lemma_combine_coeffs(coeff_b(knots, t, k, j - 1), coeff_a(knots, t, k, j), njsub);
            assert(rv_eq(pair, njsub));
        } else {
            // Degenerate span: both coefficients vanish, and so does the
            // shared sub-basis.
            assert(coeff_b(knots, t, k, j - 1).n == 0 && coeff_a(knots, t, k, j).n == 0);
            assert(bprev.n == 0 && aj.n == 0) by (nonlinear_arith)
                requires
                    coeff_b(knots, t, k, j - 1).n == 0,
                    coeff_a(knots, t, k, j).n == 0,
                    bprev.n == coeff_b(knots, t, k, j - 1).n * njsub.n,
                    aj.n == coeff_a(knots, t, k, j).n * njsub.n;
            assert(rv_le(knots[j], t) || rv_lt(t, knots[j]));
            if rv_lt(t, knots[j]) {
                assert(njsub.n == 0);
            } else {
                lemma_rv_cmp_congruence(knots[j], knots[j + k], t, t);
                if rv_lt(knots[j + k], t) {
                    assert(njsub.n == 0);
                } else {
                    assert(rv_eq(t, knots[j + k]));
                    assert(njsub.n == 0);
                }
            }
            lemma_mul_pos(bprev.d, aj.d);
            assert(pair.n == 0) by (nonlinear_arith)
                requires
                    pair.n == bprev.n * aj.d + aj.n * bprev.d,
                    bprev.n == 0,
                    aj.n == 0;
            lemma_zero_eq(pair, njsub);
        }
        // Regroup and substitute.
        lemma_basis_valid(knots, degree, t, k, j);
        lemma_mul_pos(w1.d, bprev.d);
        lemma_mul_pos(bprev.d, aj.d);
        lemma_mul_pos(w1.d, pair.d);
        lemma_mul_pos(w1.d, njsub.d);
        lemma_rv_add_congruence(sprev, rv_add(w1, bprev), nj, nj);
        lemma_regroup(w1, bprev, aj, bj);
        lemma_rv_eq_trans(
            rv_add(sprev, nj),
            rv_add(rv_add(w1, bprev), rv_add(aj, bj)),
            rv_add(rv_add(w1, pair), bj),
        );
        lemma_rv_add_congruence(w1, w1, pair, njsub);
        lemma_rv_add_congruence(rv_add(w1, pair), rv_add(w1, njsub), bj, bj);
        lemma_rv_eq_trans(
            rv_add(sprev, nj),
            rv_add(rv_add(w1, pair), bj),
            rv_add(rv_add(w1, njsub), bj),
        );
    }
}

/// The telescoping invariant of the recursion: at every level `k`, the
/// window of `k + 1` basis functions whose supports meet the span sums
/// to exactly one.
pub proof fn lemma_partition_window(knots: Seq<RatVal>, degree: int, t: RatVal, k: int, c: int)
    requires
        0 <= k <= degree,
        rv_valid(t),
        forall|q: int| 0 <= q < knots.len() ==> rv_valid(#[trigger] knots[q]),
        knots_sorted(knots),
        in_interior_span(knots, degree, t, c),
    ensures
        rv_eq(basis_window_sum(knots, degree, t, k, c - k, k + 1), rv_one()),
        rv_valid(basis_window_sum(knots, degree, t, k, c - k, k + 1)),
    decreases k,
{
    let ln = knots.len() as int;
    if k == 0 {
        assert(basis_val(knots, degree, t, 0, c) == rv_one());
        assert(basis_window_sum(knots, degree, t, 0, c, 0) == rv_zero());
        assert(basis_window_sum(knots, degree, t, 0, c, 1) == rv_add(rv_zero(), rv_one()));
        lemma_add_zero_keeps(rv_one(), rv_zero(), rv_one());
    } else {
        lemma_partition_window(knots, degree, t, k - 1, c);
        lemma_partition_shift(knots, degree, t, k, c, c);
        let wprev = basis_window_sum(knots, degree, t, k - 1, c - k + 1, k);
        let tail = rv_mul(coeff_b(knots, t, k, c), basis_val(knots, degree, t, k - 1, c + 1));
        // The outgoing term beyond the span vanishes: that sub-basis is
        // supported strictly above the span.
        lemma_basis_bounds(knots, degree, t, k - 1, c + 1);
        let nup = basis_val(knots, degree, t, k - 1, c + 1);
        assert(nup.n == 0);
        lemma_coeff_pair(knots, t, k, c);
        lemma_rv_mul_congruence(coeff_b(knots, t, k, c), coeff_b(knots, t, k, c), nup, nup);
        assert(tail.n == 0) by (nonlinear_arith)
            requires
                nup.n == 0,
                tail.n == coeff_b(knots, t, k, c).n * nup.n;
        lemma_add_zero_keeps(wprev, tail, rv_one());
        lemma_rv_eq_trans(
            basis_window_sum(knots, degree, t, k, c - k, k + 1),
            rv_add(wprev, tail),
            rv_one(),
        );
        lemma_window_sum_valid(knots, degree, t, k, c - k, k + 1);
    }
}


proof fn lemma_partition_prefix(knots: Seq<RatVal>, degree: int, t: RatVal, c: int, count: int)
    requires
        0 <= degree,
        rv_valid(t),
        forall|q: int| 0 <= q < knots.len() ==> rv_valid(#[trigger] knots[q]),
        knots_sorted(knots),
        in_interior_span(knots, degree, t, c),
        0 <= count <= knots.len() - degree - 1,
    ensures
        rv_valid(basis_sum(knots, degree, t, count)),
        count <= c - degree ==> basis_sum(knots, degree, t, count).n == 0,
        c - degree <= count <= c + 1 ==> rv_eq(
            basis_sum(knots, degree, t, count),
            basis_window_sum(knots, degree, t, degree, c - degree, count - (c - degree)),
        ),
        c + 1 <= count ==> rv_eq(basis_sum(knots, degree, t, count), rv_one()),
    decreases count,
{
    let ln = knots.len() as int;
    assert(rv_le(knots[c + 1], knots[ln - degree - 1]));
    lemma_rv_lt_le_trans(t, knots[c + 1], knots[ln - degree - 1]);
    if count <= 0 {
    } else {
        lemma_partition_prefix(knots, degree, t, c, count - 1);
        let i = count - 1;
        lemma_basis_bounds(knots, degree, t, degree, i);
        lemma_basis_valid(knots, degree, t, degree, i);
        let s = basis_sum(knots, degree, t, count - 1);
        let term = basis_val(knots, degree, t, degree, i);
        assert(basis_sum(knots, degree, t, count) == rv_add(s, term));
        lemma_mul_pos(s.d, term.d);
        if count <= c - degree {
            // The whole prefix lies strictly below the span.
            assert(rv_le(knots[i + degree + 1], knots[c]));
            lemma_rv_le_trans(knots[i + degree + 1], knots[c], t);
            assert(term.n == 0);
            assert(rv_add(s, term).n == 0) by (nonlinear_arith)
                requires
                    rv_add(s, term).n == s.n * term.d + term.n * s.d,
                    s.n == 0,
                    term.n == 0;
            if count == c - degree {
                assert(basis_window_sum(knots, degree, t, degree, c - degree, 0) == rv_zero());
                lemma_zero_eq(basis_sum(knots, degree, t, count), rv_zero());
            }
        } else if count <= c + 1 {
            // The prefix tracks the window of active bases, term by term.
            let wprev = basis_window_sum(
                knots,
                degree,
                t,
                degree,
                c - degree,
                count - 1 - (c - degree),
            );
            lemma_window_sum_valid(knots, degree, t, degree, c - degree, count - 1 - (c - degree));
            assert(rv_eq(s, wprev));
            assert(basis_window_sum(knots, degree, t, degree, c - degree, count - (c - degree))
                == rv_add(wprev, term));
            lemma_rv_add_congruence(s, wprev, term, term);
            if count == c + 1 {
                lemma_partition_window(knots, degree, t, degree, c);
                lemma_rv_eq_trans(
                    basis_sum(knots, degree, t, count),
                    basis_window_sum(knots, degree, t, degree, c - degree, degree + 1),
                    rv_one(),
                );
            }
        } else {
            // Beyond the window every basis is supported above the span.
            assert(rv_le(knots[c + 1], knots[i]));
            lemma_rv_lt_le_trans(t, knots[c + 1], knots[i]);
            assert(term.n == 0);
            lemma_add_zero_keeps(s, term, rv_one());
        }
    }
}

/// Partition of unity strictly inside the domain: for a parameter lying
/// in an interior knot span with a full window of `degree + 1` bases
/// around it, the sum over all basis indices of the basis values of the
/// configured degree is exactly one.
pub proof fn lemma_partition_of_unity(knots: Seq<RatVal>, degree: int, t: RatVal, c: int)
    requires
        0 <= degree,
        rv_valid(t),
        forall|q: int| 0 <= q < knots.len() ==> rv_valid(#[trigger] knots[q]),
        knots_sorted(knots),
        in_interior_span(knots, degree, t, c),
    ensures
        rv_eq(basis_sum(knots, degree, t, knots.len() - degree - 1), rv_one()),
{
    lemma_partition_prefix(knots, degree, t, c, knots.len() - degree - 1);
}

/// Determinism of the sampler: any two basis tables that satisfy the
/// sampler's contract are identical, entry by entry — each entry is
/// pinned to the reduced representative of the recursion, so repeated
/// calls return bit-identical tables.
pub proof fn lemma_generate_bases_deterministic(
    m: SplineModel,
    b1: Seq<Seq<RatVal>>,
    b2: Seq<Seq<RatVal>>,
)
    requires
        b1.len() == m.cps.len(),
        b2.len() == m.cps.len(),
        forall|bi: int, sk: int|
            0 <= bi < b1.len() && 0 <= sk < m.ts.len() ==> #[trigger] b1[bi][sk] == basis_rep(
                m.knots,
                m.degree,
                m.ts[sk],
                m.degree,
                bi,
            ),
        forall|bi: int, sk: int|
            0 <= bi < b2.len() && 0 <= sk < m.ts.len() ==> #[trigger] b2[bi][sk] == basis_rep(
                m.knots,
                m.degree,
                m.ts[sk],
                m.degree,
                bi,
            ),
    ensures
        forall|bi: int, sk: int|
            0 <= bi < b1.len() && 0 <= sk < m.ts.len() ==> #[trigger] b1[bi][sk] == #[trigger] b2[bi][sk],
{
}

/// Determinism of interpolation: any two coordinate tables that satisfy
/// the interpolator's contract are identical, sample by sample — each
/// value is pinned to the reduced representative of the running sums,
/// so repeated calls return bit-identical curves.
pub proof fn lemma_interpolate_deterministic(
    m: SplineModel,
    xs1: Seq<RatVal>,
    ys1: Seq<RatVal>,
    xs2: Seq<RatVal>,
    ys2: Seq<RatVal>,
)
    requires
        xs1.len() == m.ts.len(),
        ys1.len() == m.ts.len(),
        xs2.len() == m.ts.len(),
        ys2.len() == m.ts.len(),
        forall|sk: int|
            0 <= sk < m.ts.len() ==> #[trigger] xs1[sk] == curve_rep_x(
                m,
                m.ts[sk],
                m.cps.len() as int,
            ),
        forall|sk: int|
            0 <= sk < m.ts.len() ==> #[trigger] ys1[sk] == curve_rep_y(
                m,
                m.ts[sk],
                m.cps.len() as int,
            ),
        forall|sk: int|
            0 <= sk < m.ts.len() ==> #[trigger] xs2[sk] == curve_rep_x(
                m,
                m.ts[sk],
                m.cps.len() as int,
            ),
        forall|sk: int|
            0 <= sk < m.ts.len() ==> #[trigger] ys2[sk] == curve_rep_y(
                m,
                m.ts[sk],
                m.cps.len() as int,
            ),
    ensures
        forall|sk: int| 0 <= sk < m.ts.len() ==> #[trigger] xs1[sk] == xs2[sk],
        forall|sk: int| 0 <= sk < m.ts.len() ==> #[trigger] ys1[sk] == ys2[sk],
{
}

} // verus!
