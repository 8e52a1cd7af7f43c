//! B-spline basis functions and curve interpolation over exact rationals.
//!
//! The mathematical definition is the Cox-de Boor recursion `basis_val`;
//! the evaluator computes it with a dynamic-programming table, one level
//! of the recursion at a time, and every result is proved equal (as a
//! rational value) to the recursion.

use vstd::prelude::*;
use crate::rat::{
    add_fits, add_rep, div_fits, div_rep, mul_fits, mul_rep, sub_fits, sub_rep,
    lemma_rv_add_congruence, lemma_rv_div_congruence, lemma_rv_eq_trans, lemma_rv_mul_congruence,
    lemma_rv_sign, lemma_rv_sub_congruence, rv_add, rv_div, rv_eq, rv_le, rv_lt, rv_mul, rv_one,
    rv_sub, rv_valid, rv_zero, Rat, RatVal,
};

verus! {

/// Mathematical value of a control point.
pub ghost struct PointVal {
    pub x: RatVal,
    pub y: RatVal,
}

/// A two-dimensional control point with exact rational coordinates.
#[derive(Clone, Copy, Debug, PartialEq, Eq, Structural)]
pub struct Point2 {
    pub x: Rat,
    pub y: Rat,
}

impl View for Point2 {
    type V = PointVal;

    open spec fn view(&self) -> PointVal {
        PointVal { x: self.x@, y: self.y@ }
    }
}

impl Point2 {
    pub fn new(x: Rat, y: Rat) -> (r: Point2)
        ensures
            r@.x == x@,
            r@.y == y@,
    {
        Point2 { x, y }
    }
}

/// Mathematical state of an evaluator: degree, knot vector, parameter
/// samples and control points, all as rational values.
pub ghost struct SplineModel {
    pub degree: int,
    pub knots: Seq<RatVal>,
    pub ts: Seq<RatVal>,
    pub cps: Seq<PointVal>,
}

/// Everything the evaluator relies on: the degree fits the knot vector,
/// the control-point count matches it, and every stored rational is valid.
pub open spec fn model_wf(m: SplineModel) -> bool {
    &&& 0 <= m.degree
    &&& m.degree + 1 <= m.knots.len()
    &&& m.cps.len() == m.knots.len() - (m.degree + 1)
    &&& forall|k: int| 0 <= k < m.knots.len() ==> rv_valid(#[trigger] m.knots[k])
    &&& forall|k: int| 0 <= k < m.ts.len() ==> rv_valid(#[trigger] m.ts[k])
    &&& forall|k: int|
        0 <= k < m.cps.len() ==> rv_valid((#[trigger] m.cps[k]).x) && rv_valid(m.cps[k].y)
}

/// The knot vector is non-decreasing.
pub open spec fn knots_sorted(knots: Seq<RatVal>) -> bool {
    forall|k1: int, k2: int|
        0 <= k1 <= k2 < knots.len() ==> rv_le(#[trigger] knots[k1], #[trigger] knots[k2])
}

/// The Cox-de Boor recursion: value of the `i`-th basis function of
/// degree `p` at parameter `t`.
///
/// At degree zero the function is the indicator of the half-open knot
/// span `[knots[i], knots[i+1])`; the one span that ends the domain of
/// the configured `degree` is closed on the right, so the last parameter
/// value is covered.  A zero-length span contributes a zero coefficient
/// rather than a division by zero.
pub open spec fn basis_val(knots: Seq<RatVal>, degree: int, t: RatVal, p: int, i: int) -> RatVal
    decreases p,
{
    if p <= 0 {
        if (rv_le(knots[i], t) && rv_lt(t, knots[i + 1])) || (i == knots.len() - degree - 2
            && rv_eq(t, knots[i + 1])) {
            rv_one()
        } else {
            rv_zero()
        }
    } else {
        let a = if rv_eq(knots[i + p], knots[i]) {
            rv_zero()
        } else {
            rv_div(rv_sub(t, knots[i]), rv_sub(knots[i + p], knots[i]))
        };
        let b = if rv_eq(knots[i + p + 1], knots[i + 1]) {
            rv_zero()
        } else {
            rv_div(rv_sub(knots[i + p + 1], t), rv_sub(knots[i + p + 1], knots[i + 1]))
        };
        rv_add(
            rv_mul(a, basis_val(knots, degree, t, p - 1, i)),
            rv_mul(b, basis_val(knots, degree, t, p - 1, i + 1)),
        )
    }
}

/// The basis recursion always produces a valid rational.
pub proof fn lemma_basis_valid(knots: Seq<RatVal>, degree: int, t: RatVal, p: int, i: int)
    requires
        0 <= p,
        0 <= i,
        i + p + 1 < knots.len(),
        rv_valid(t),
        forall|k: int| 0 <= k < knots.len() ==> rv_valid(#[trigger] knots[k]),
    ensures
        rv_valid(basis_val(knots, degree, t, p, i)),
    decreases p,
{
    if p <= 0 {
    } else {
        lemma_basis_valid(knots, degree, t, p - 1, i);
        lemma_basis_valid(knots, degree, t, p - 1, i + 1);
        let a = if rv_eq(knots[i + p], knots[i]) {
            rv_zero()
        } else {
            rv_div(rv_sub(t, knots[i]), rv_sub(knots[i + p], knots[i]))
        };
        let b = if rv_eq(knots[i + p + 1], knots[i + 1]) {
            rv_zero()
        } else {
            rv_div(rv_sub(knots[i + p + 1], t), rv_sub(knots[i + p + 1], knots[i + 1]))
        };
        if !rv_eq(knots[i + p], knots[i]) {
            lemma_rv_sub_congruence(t, t, knots[i], knots[i]);
            lemma_rv_sub_congruence(knots[i + p], knots[i + p], knots[i], knots[i]);
            lemma_rv_div_congruence(
                rv_sub(t, knots[i]),
                rv_sub(t, knots[i]),
                rv_sub(knots[i + p], knots[i]),
                rv_sub(knots[i + p], knots[i]),
            );
        }
        if !rv_eq(knots[i + p + 1], knots[i + 1]) {
            lemma_rv_sub_congruence(knots[i + p + 1], knots[i + p + 1], t, t);
            lemma_rv_sub_congruence(knots[i + p + 1], knots[i + p + 1], knots[i + 1], knots[i + 1]);
            lemma_rv_div_congruence(
                rv_sub(knots[i + p + 1], t),
                rv_sub(knots[i + p + 1], t),
                rv_sub(knots[i + p + 1], knots[i + 1]),
                rv_sub(knots[i + p + 1], knots[i + 1]),
            );
        }
        let n1 = basis_val(knots, degree, t, p - 1, i);
        let n2 = basis_val(knots, degree, t, p - 1, i + 1);
        lemma_rv_mul_congruence(a, a, n1, n1);
        lemma_rv_mul_congruence(b, b, n2, n2);
        lemma_rv_add_congruence(rv_mul(a, n1), rv_mul(a, n1), rv_mul(b, n2), rv_mul(b, n2));
    }
}

/// The `k`-th of `n` evenly spaced samples from `lo` to `hi` inclusive.
pub open spec fn sample_val(lo: RatVal, hi: RatVal, n: int, k: int) -> RatVal {
    rv_add(lo, rv_mul(RatVal { n: k, d: 1 }, rv_div(rv_sub(hi, lo), RatVal { n: n - 1, d: 1 })))
}

/// The reduced representative of the sampling step `(hi - lo) / (n - 1)`.
pub open spec fn step_rep(lo: RatVal, hi: RatVal, n: int) -> RatVal {
    div_rep(sub_rep(hi, lo), RatVal { n: n - 1, d: 1 })
}

/// The reduced representative of the `k`-th sample of the even grid.
pub open spec fn sample_rep(lo: RatVal, hi: RatVal, n: int, k: int) -> RatVal {
    add_rep(lo, mul_rep(RatVal { n: k, d: 1 }, step_rep(lo, hi, n)))
}

/// Whether every arithmetic step of sampling `n` points evenly from
/// `lo` to `hi` fits in 64 bits.
pub open spec fn samples_fit(lo: RatVal, hi: RatVal, n: int) -> bool {
    &&& sub_fits(hi, lo)
    &&& div_fits(sub_rep(hi, lo), RatVal { n: n - 1, d: 1 })
    &&& forall|k: int|
        0 <= k < n ==> #[trigger] mul_fits(RatVal { n: k, d: 1 }, step_rep(lo, hi, n)) && add_fits(
            lo,
            mul_rep(RatVal { n: k, d: 1 }, step_rep(lo, hi, n)),
        )
}

/// The exact 64-bit representative that the evaluator's table computes
/// for the `i`-th basis of degree `p`: the recursion of `basis_val`,
/// with every operation reduced to lowest terms.
pub open spec fn basis_rep(knots: Seq<RatVal>, degree: int, t: RatVal, p: int, i: int) -> RatVal
    decreases p,
{
    if p <= 0 {
        if (rv_le(knots[i], t) && rv_lt(t, knots[i + 1])) || (i == knots.len() - degree - 2
            && rv_eq(t, knots[i + 1])) {
            rv_one()
        } else {
            rv_zero()
        }
    } else {
        let a = if rv_eq(knots[i + p], knots[i]) {
            rv_zero()
        } else {
            div_rep(sub_rep(t, knots[i]), sub_rep(knots[i + p], knots[i]))
        };
        let b = if rv_eq(knots[i + p + 1], knots[i + 1]) {
            rv_zero()
        } else {
            div_rep(sub_rep(knots[i + p + 1], t), sub_rep(knots[i + p + 1], knots[i + 1]))
        };
        add_rep(
            mul_rep(a, basis_rep(knots, degree, t, p - 1, i)),
            mul_rep(b, basis_rep(knots, degree, t, p - 1, i + 1)),
        )
    }
}

/// Whether every arithmetic step of the table for the `i`-th basis of
/// degree `p` fits in 64 bits.  When it holds, evaluation succeeds.
pub open spec fn basis_rep_fits(knots: Seq<RatVal>, degree: int, t: RatVal, p: int, i: int) -> bool
    decreases p,
{
    if p <= 0 {
        true
    } else {
        let a = if rv_eq(knots[i + p], knots[i]) {
            rv_zero()
        } else {
            div_rep(sub_rep(t, knots[i]), sub_rep(knots[i + p], knots[i]))
        };
        let b = if rv_eq(knots[i + p + 1], knots[i + 1]) {
            rv_zero()
        } else {
            div_rep(sub_rep(knots[i + p + 1], t), sub_rep(knots[i + p + 1], knots[i + 1]))
        };
        &&& basis_rep_fits(knots, degree, t, p - 1, i)
        &&& basis_rep_fits(knots, degree, t, p - 1, i + 1)
        &&& (!rv_eq(knots[i + p], knots[i]) ==> sub_fits(knots[i + p], knots[i]) && sub_fits(
            t,
            knots[i],
        ) && div_fits(sub_rep(t, knots[i]), sub_rep(knots[i + p], knots[i])))
        &&& (!rv_eq(knots[i + p + 1], knots[i + 1]) ==> sub_fits(knots[i + p + 1], knots[i + 1])
            && sub_fits(knots[i + p + 1], t) && div_fits(
            sub_rep(knots[i + p + 1], t),
            sub_rep(knots[i + p + 1], knots[i + 1]),
        ))
        &&& mul_fits(a, basis_rep(knots, degree, t, p - 1, i))
        &&& mul_fits(b, basis_rep(knots, degree, t, p - 1, i + 1))
        &&& add_fits(
            mul_rep(a, basis_rep(knots, degree, t, p - 1, i)),
            mul_rep(b, basis_rep(knots, degree, t, p - 1, i + 1)),
        )
    }
}

/// When the whole table fits, so does the table of every entry it is
/// built from.
pub proof fn lemma_rep_fits_down(
    knots: Seq<RatVal>,
    degree: int,
    t: RatVal,
    p: int,
    i: int,
    k: int,
    j: int,
)
    requires
        0 <= k <= p,
        0 <= j <= p - k,
        basis_rep_fits(knots, degree, t, p, i),
    ensures
        basis_rep_fits(knots, degree, t, k, i + j),
    decreases p,
{
    if k < p {
        if j <= p - 1 - k {
            lemma_rep_fits_down(knots, degree, t, p - 1, i, k, j);
        } else {
            lemma_rep_fits_down(knots, degree, t, p - 1, i + 1, k, j - 1);
        }
    }
}

/// Sum of `basis * x-coordinate` over the first `count` control points.
pub open spec fn curve_sum_x(m: SplineModel, t: RatVal, count: int) -> RatVal
    decreases count,
{
    if count <= 0 {
        rv_zero()
    } else {
        rv_add(
            curve_sum_x(m, t, count - 1),
            rv_mul(basis_val(m.knots, m.degree, t, m.degree, count - 1), m.cps[count - 1].x),
        )
    }
}

/// Sum of `basis * y-coordinate` over the first `count` control points.
pub open spec fn curve_sum_y(m: SplineModel, t: RatVal, count: int) -> RatVal
    decreases count,
{
    if count <= 0 {
        rv_zero()
    } else {
        rv_add(
            curve_sum_y(m, t, count - 1),
            rv_mul(basis_val(m.knots, m.degree, t, m.degree, count - 1), m.cps[count - 1].y),
        )
    }
}

/// The exact representative of the running x-coordinate sum over the
/// first `count` control points, as the interpolator computes it.
pub open spec fn curve_rep_x(m: SplineModel, t: RatVal, count: int) -> RatVal
    decreases count,
{
    if count <= 0 {
        rv_zero()
    } else {
        add_rep(
            curve_rep_x(m, t, count - 1),
            mul_rep(basis_rep(m.knots, m.degree, t, m.degree, count - 1), m.cps[count - 1].x),
        )
    }
}

/// The exact representative of the running y-coordinate sum over the
/// first `count` control points, as the interpolator computes it.
pub open spec fn curve_rep_y(m: SplineModel, t: RatVal, count: int) -> RatVal
    decreases count,
{
    if count <= 0 {
        rv_zero()
    } else {
        add_rep(
            curve_rep_y(m, t, count - 1),
            mul_rep(basis_rep(m.knots, m.degree, t, m.degree, count - 1), m.cps[count - 1].y),
        )
    }
}

/// Whether every arithmetic step of the running x-coordinate sum over
/// the first `count` control points fits in 64 bits.
pub open spec fn curve_rep_fits_x(m: SplineModel, t: RatVal, count: int) -> bool
    decreases count,
{
    if count <= 0 {
        true
    } else {
        &&& curve_rep_fits_x(m, t, count - 1)
        &&& basis_rep_fits(m.knots, m.degree, t, m.degree, count - 1)
        &&& mul_fits(basis_rep(m.knots, m.degree, t, m.degree, count - 1), m.cps[count - 1].x)
        &&& add_fits(
            curve_rep_x(m, t, count - 1),
            mul_rep(basis_rep(m.knots, m.degree, t, m.degree, count - 1), m.cps[count - 1].x),
        )
    }
}

/// Whether every arithmetic step of the running y-coordinate sum over
/// the first `count` control points fits in 64 bits.
pub open spec fn curve_rep_fits_y(m: SplineModel, t: RatVal, count: int) -> bool
    decreases count,
{
    if count <= 0 {
        true
    } else {
        &&& curve_rep_fits_y(m, t, count - 1)
        &&& basis_rep_fits(m.knots, m.degree, t, m.degree, count - 1)
        &&& mul_fits(basis_rep(m.knots, m.degree, t, m.degree, count - 1), m.cps[count - 1].y)
        &&& add_fits(
            curve_rep_y(m, t, count - 1),
            mul_rep(basis_rep(m.knots, m.degree, t, m.degree, count - 1), m.cps[count - 1].y),
        )
    }
}

/// When a running sum fits up to `count`, it fits up to every earlier point.
pub proof fn lemma_curve_fits_prefix(m: SplineModel, t: RatVal, count: int, j: int)
    requires
        0 <= j <= count,
    ensures
        curve_rep_fits_x(m, t, count) ==> curve_rep_fits_x(m, t, j),
        curve_rep_fits_y(m, t, count) ==> curve_rep_fits_y(m, t, j),
    decreases count,
{
    if j < count {
        lemma_curve_fits_prefix(m, t, count - 1, j);
    }
}

/// Why an evaluator could not be built or a value could not be computed.
#[derive(Clone, Copy, Debug, PartialEq, Eq, Structural)]
pub enum SplineError {
    /// The number of control points is not `knots.len() - (degree + 1)`.
    InvalidControlPointCount,
    /// An exact intermediate value left the 64-bit range.
    ArithmeticOverflow,
}

/// Evaluates B-spline basis functions over a knot vector and blends
/// control points into curve samples.  Immutable once constructed.
#[derive(Debug)]
pub struct BSpline {
    degree: usize,
    knots: Vec<Rat>,
    t_values: Vec<Rat>,
    control_points: Vec<Point2>,
}

impl View for BSpline {
    type V = SplineModel;

    closed spec fn view(&self) -> SplineModel {
        SplineModel {
            degree: self.degree as int,
            knots: self.knots@.map_values(|q: Rat| q@),
            ts: self.t_values@.map_values(|q: Rat| q@),
            cps: self.control_points@.map_values(|p: Point2| p@),
        }
    }
}

impl BSpline {
    pub open spec fn wf(self) -> bool {
        model_wf(self@)
    }

    /// Builds an evaluator: checks the control-point count against the
    /// knot vector and degree, and samples `num_points` parameters evenly
    /// from the first to the last knot, inclusive.
    #[verifier::loop_isolation(false)]
    pub fn new(
        degree: usize,
        knots: Vec<Rat>,
        num_points: usize,
        control_points: Vec<Point2>,
    ) -> (r: Result<BSpline, SplineError>)
        requires
            2 <= num_points,
            num_points as int <= i64::MAX as int,
            forall|k: int| 0 <= k < knots@.len() ==> (#[trigger] knots@[k]).wf(),
            forall|k: int|
                0 <= k < control_points@.len() ==> (#[trigger] control_points@[k]).x.wf()
                    && control_points@[k].y.wf(),
        ensures
            (knots@.len() as int) < degree as int + 1 || control_points@.len() as int
                != knots@.len() as int - (degree as int) - 1 ==> (r matches Err(e) && e
                == SplineError::InvalidControlPointCount),
            knots@.len() as int >= degree as int + 1 && control_points@.len() as int
                == knots@.len() as int - (degree as int) - 1 ==> (r matches Err(e) ==> e
                == SplineError::ArithmeticOverflow),
            knots@.len() as int >= degree as int + 1 && control_points@.len() as int
                == knots@.len() as int - (degree as int) - 1 && samples_fit(
                knots@[0]@,
                knots@[knots@.len() - 1]@,
                num_points as int,
            ) ==> r is Ok,
            r matches Ok(s) ==> {
                &&& s.wf()
                &&& s@.degree == degree as int
                &&& s@.knots == knots@.map_values(|q: Rat| q@)
                &&& s@.cps == control_points@.map_values(|p: Point2| p@)
                &&& s@.ts.len() == num_points as int
                &&& forall|k: int|
                    0 <= k < num_points as int ==> #[trigger] s@.ts[k] == sample_rep(
                        knots@[0]@,
                        knots@[knots@.len() - 1]@,
                        num_points as int,
                        k,
                    ) && rv_eq(
                        s@.ts[k],
                        sample_val(
                            knots@[0]@,
                            knots@[knots@.len() - 1]@,
                            num_points as int,
                            k,
                        ),
                    )
            },
    {
        if degree >= knots.len() || control_points.len() != knots.len() - (degree + 1) {
            return Err(SplineError::InvalidControlPointCount);
        }
        let lo = knots[0];
        let hi = knots[knots.len() - 1];
        let nm1 = Rat::from_int((num_points - 1) as i64);
        let diff = match hi.sub(lo) {
            Some(v) => v,
            None => return Err(SplineError::ArithmeticOverflow),
        };
        proof {
            lemma_rv_sub_congruence(hi@, hi@, lo@, lo@);
        }
        let step = match diff.div(nm1) {
            Some(v) => v,
            None => return Err(SplineError::ArithmeticOverflow),
        };
        proof {
            lemma_rv_div_congruence(diff@, rv_sub(hi@, lo@), nm1@, nm1@);
            lemma_rv_eq_trans(step@, rv_div(diff@, nm1@), rv_div(rv_sub(hi@, lo@), nm1@));
        }
        let ghost n = num_points as int;
        let mut t_values: Vec<Rat> = Vec::new();
        let mut k: usize = 0;
        while k < num_points
            invariant
                k as int <= num_points as int,
                t_values@.len() == k as int,
                forall|j: int|
                    0 <= j < k as int ==> (#[trigger] t_values@[j]).wf() && t_values@[j]@
                        == sample_rep(lo@, hi@, n, j) && rv_eq(
                        t_values@[j]@,
                        sample_val(lo@, hi@, n, j),
                    ),
            decreases num_points - k,
        {
            let kr = Rat::from_int(k as i64);
            proof {
                assert(kr@ == RatVal { n: k as int, d: 1 });
                assert(step@ == step_rep(lo@, hi@, n));
            }
            let prod = match kr.mul(step) {
                Some(v) => v,
                None => {
                    proof {
                        assert(!mul_fits(RatVal { n: k as int, d: 1 }, step_rep(lo@, hi@, n)));
                        assert(!samples_fit(lo@, hi@, n));
                    }
                    return Err(SplineError::ArithmeticOverflow);
                },
            };
            let t = match lo.add(prod) {
                Some(v) => v,
                None => {
                    proof {
                        assert(!add_fits(
                            lo@,
                            mul_rep(RatVal { n: k as int, d: 1 }, step_rep(lo@, hi@, n)),
                        ));
                        assert(!samples_fit(lo@, hi@, n));
                    }
                    return Err(SplineError::ArithmeticOverflow);
                },
            };
            proof {
                let stepv = rv_div(rv_sub(hi@, lo@), RatVal { n: n - 1, d: 1 });
                assert(nm1@ == RatVal { n: n - 1, d: 1 });
                lemma_rv_mul_congruence(kr@, RatVal { n: k as int, d: 1 }, step@, stepv);
                lemma_rv_eq_trans(
                    prod@,
                    rv_mul(kr@, step@),
                    rv_mul(RatVal { n: k as int, d: 1 }, stepv),
                );
                lemma_rv_add_congruence(
                    lo@,
                    lo@,
                    prod@,
                    rv_mul(RatVal { n: k as int, d: 1 }, stepv),
                );
                lemma_rv_eq_trans(
                    t@,
                    rv_add(lo@, prod@),
                    rv_add(lo@, rv_mul(RatVal { n: k as int, d: 1 }, stepv)),
                );
            }
            t_values.push(t);
            k += 1;
        }
        let ghost tsv = t_values@;
        let ghost knv = knots@;
        let ghost cpv = control_points@;
        let s = BSpline { degree, knots, t_values, control_points };
        proof {
            assert(s@.knots.len() == knv.len());
            assert(s@.ts.len() == num_points as int);
            assert(s@.cps.len() == cpv.len());
            assert(forall|q: int|
                0 <= q < knv.len() ==> s@.knots[q] == (#[trigger] knv[q])@);
            assert(forall|q: int| 0 <= q < tsv.len() ==> s@.ts[q] == (#[trigger] tsv[q])@);
            assert(forall|q: int| 0 <= q < cpv.len() ==> s@.cps[q] == (#[trigger] cpv[q])@);
        }
        Ok(s)
    }

    /// Value of the `i`-th basis function of degree `p` at parameter `t`,
    /// computed by a table over the levels of the recursion.
    #[verifier::loop_isolation(false)]
    pub fn cox_de_boor(&self, t: Rat, p: usize, i: usize) -> (r: Result<Rat, SplineError>)
        requires
            self.wf(),
            t.wf(),
            p as int <= self@.degree,
            i as int + self@.degree + 2 <= self@.knots.len(),
        ensures
            r matches Ok(v) ==> v.wf() && v@ == basis_rep(
                self@.knots,
                self@.degree,
                t@,
                p as int,
                i as int,
            ) && rv_eq(v@, basis_val(self@.knots, self@.degree, t@, p as int, i as int)),
            basis_rep_fits(self@.knots, self@.degree, t@, p as int, i as int) ==> r is Ok,
            r matches Err(e) ==> e == SplineError::ArithmeticOverflow,
    {
        let ghost m = self@;
        proof {
            assert(m.knots.len() == self.knots@.len());
            assert(forall|q: int|
                0 <= q < m.knots.len() ==> m.knots[q] == (#[trigger] self.knots@[q])@);
        }
        let nk = self.knots.len();
        let pp1 = p + 1;
        let mut prev: Vec<Rat> = Vec::new();
        let mut j: usize = 0;
        while j < pp1
            invariant
                j as int <= pp1 as int,
                prev@.len() == j as int,
                forall|jj: int|
                    0 <= jj < j as int ==> (#[trigger] prev@[jj]).wf() && prev@[jj]@ == basis_rep(
                        m.knots,
                        m.degree,
                        t@,
                        0,
                        i as int + jj,
                    ) && rv_eq(prev@[jj]@, basis_val(m.knots, m.degree, t@, 0, i as int + jj)),
            decreases pp1 - j,
        {
            let lo = self.knots[i + j];
            let hi = self.knots[i + j + 1];
            let in_span = lo.le_value(t) && t.lt_value(hi);
            let at_edge = i + j == self.knots.len() - (self.degree + 2) && t.eq_value(hi);
            let v = if in_span || at_edge {
                Rat::from_int(1)
            } else {
                Rat::from_int(0)
            };
            prev.push(v);
            j += 1;
        }
        let mut k: usize = 1;
        while k < pp1
            invariant
                1 <= k as int <= pp1 as int,
                prev@.len() == pp1 as int - k as int + 1,
                forall|jj: int|
                    0 <= jj < prev@.len() ==> (#[trigger] prev@[jj]).wf() && prev@[jj]@
                        == basis_rep(m.knots, m.degree, t@, k as int - 1, i as int + jj) && rv_eq(
                        prev@[jj]@,
                        basis_val(m.knots, m.degree, t@, k as int - 1, i as int + jj),
                    ),
            decreases pp1 - k,
        {
            let width = pp1 - k;
            let mut cur: Vec<Rat> = Vec::new();
            let mut j2: usize = 0;
            while j2 < width
                invariant
                    j2 as int <= width as int,
                    cur@.len() == j2 as int,
                    forall|jj: int|
                        0 <= jj < j2 as int ==> (#[trigger] cur@[jj]).wf() && cur@[jj]@
                            == basis_rep(m.knots, m.degree, t@, k as int, i as int + jj) && rv_eq(
                            cur@[jj]@,
                            basis_val(m.knots, m.degree, t@, k as int, i as int + jj),
                        ),
                decreases width - j2,
            {
                let ghost sa = if rv_eq(m.knots[i as int + j2 + k], m.knots[i as int + j2]) {
                    rv_zero()
                } else {
                    rv_div(
                        rv_sub(t@, m.knots[i as int + j2]),
                        rv_sub(m.knots[i as int + j2 + k], m.knots[i as int + j2]),
                    )
                };
                let ghost sb = if rv_eq(
                    m.knots[i as int + j2 + k + 1],
                    m.knots[i as int + j2 + 1],
                ) {
                    rv_zero()
                } else {
                    rv_div(
                        rv_sub(m.knots[i as int + j2 + k + 1], t@),
                        rv_sub(m.knots[i as int + j2 + k + 1], m.knots[i as int + j2 + 1]),
                    )
                };
                let ghost ra = if rv_eq(m.knots[i as int + j2 + k], m.knots[i as int + j2]) {
                    rv_zero()
                } else {
                    div_rep(
                        sub_rep(t@, m.knots[i as int + j2]),
                        sub_rep(m.knots[i as int + j2 + k], m.knots[i as int + j2]),
                    )
                };
                let ghost rb = if rv_eq(
                    m.knots[i as int + j2 + k + 1],
                    m.knots[i as int + j2 + 1],
                ) {
                    rv_zero()
                } else {
                    div_rep(
                        sub_rep(m.knots[i as int + j2 + k + 1], t@),
                        sub_rep(m.knots[i as int + j2 + k + 1], m.knots[i as int + j2 + 1]),
                    )
                };
                let lo_a = self.knots[i + j2];
                let hi_a = self.knots[i + j2 + k];
                let a = if hi_a.eq_value(lo_a) {
                    Rat::from_int(0)
                } else {
                    let den = match hi_a.sub(lo_a) {
                        Some(v) => v,
                        None => {
                            proof {
                                assert(!basis_rep_fits(
                                    m.knots,
                                    m.degree,
                                    t@,
                                    k as int,
                                    i as int + j2,
                                ));
                                if basis_rep_fits(m.knots, m.degree, t@, p as int, i as int) {
                                    lemma_rep_fits_down(
                                        m.knots,
                                        m.degree,
                                        t@,
                                        p as int,
                                        i as int,
                                        k as int,
                                        j2 as int,
                                    );
                                }
                            }
                            return Err(SplineError::ArithmeticOverflow);
                        },
                    };
                    let num = match t.sub(lo_a) {
                        Some(v) => v,
                        None => {
                            proof {
                                assert(!basis_rep_fits(
                                    m.knots,
                                    m.degree,
                                    t@,
                                    k as int,
                                    i as int + j2,
                                ));
                                if basis_rep_fits(m.knots, m.degree, t@, p as int, i as int) {
                                    lemma_rep_fits_down(
                                        m.knots,
                                        m.degree,
                                        t@,
                                        p as int,
                                        i as int,
                                        k as int,
                                        j2 as int,
                                    );
                                }
                            }
                            return Err(SplineError::ArithmeticOverflow);
                        },
                    };
                    proof {
                        lemma_rv_sub_congruence(hi_a@, hi_a@, lo_a@, lo_a@);
                        lemma_rv_sub_congruence(t@, t@, lo_a@, lo_a@);
                        lemma_rv_sign(den@, rv_sub(hi_a@, lo_a@));
                    }
                    let q = match num.div(den) {
                        Some(v) => v,
                        None => {
                            proof {
                                assert(!basis_rep_fits(
                                    m.knots,
                                    m.degree,
                                    t@,
                                    k as int,
                                    i as int + j2,
                                ));
                                if basis_rep_fits(m.knots, m.degree, t@, p as int, i as int) {
                                    lemma_rep_fits_down(
                                        m.knots,
                                        m.degree,
                                        t@,
                                        p as int,
                                        i as int,
                                        k as int,
                                        j2 as int,
                                    );
                                }
                            }
                            return Err(SplineError::ArithmeticOverflow);
                        },
                    };
                    proof {
                        lemma_rv_div_congruence(
                            num@,
                            rv_sub(t@, lo_a@),
                            den@,
                            rv_sub(hi_a@, lo_a@),
                        );
                        lemma_rv_eq_trans(
                            q@,
                            rv_div(num@, den@),
                            rv_div(rv_sub(t@, lo_a@), rv_sub(hi_a@, lo_a@)),
                        );
                    }
                    q
                };
                proof {
                    assert(a.wf() && rv_eq(a@, sa));
                    assert(a@ == ra);
                }
                let lo_b = self.knots[i + j2 + 1];
                let hi_b = self.knots[i + j2 + k + 1];
                let b = if hi_b.eq_value(lo_b) {
                    Rat::from_int(0)
                } else {
                    let den = match hi_b.sub(lo_b) {
                        Some(v) => v,
                        None => {
                            proof {
                                assert(!basis_rep_fits(
                                    m.knots,
                                    m.degree,
                                    t@,
                                    k as int,
                                    i as int + j2,
                                ));
                                if basis_rep_fits(m.knots, m.degree, t@, p as int, i as int) {
                                    lemma_rep_fits_down(
                                        m.knots,
                                        m.degree,
                                        t@,
                                        p as int,
                                        i as int,
                                        k as int,
                                        j2 as int,
                                    );
                                }
                            }
                            return Err(SplineError::ArithmeticOverflow);
                        },
                    };
                    let num = match hi_b.sub(t) {
                        Some(v) => v,
                        None => {
                            proof {
                                assert(!basis_rep_fits(
                                    m.knots,
                                    m.degree,
                                    t@,
                                    k as int,
                                    i as int + j2,
                                ));
                                if basis_rep_fits(m.knots, m.degree, t@, p as int, i as int) {
                                    lemma_rep_fits_down(
                                        m.knots,
                                        m.degree,
                                        t@,
                                        p as int,
                                        i as int,
                                        k as int,
                                        j2 as int,
                                    );
                                }
                            }
                            return Err(SplineError::ArithmeticOverflow);
                        },
                    };
                    proof {
                        lemma_rv_sub_congruence(hi_b@, hi_b@, lo_b@, lo_b@);
                        lemma_rv_sub_congruence(hi_b@, hi_b@, t@, t@);
                        lemma_rv_sign(den@, rv_sub(hi_b@, lo_b@));
                    }
                    let q = match num.div(den) {
                        Some(v) => v,
                        None => {
                            proof {
                                assert(!basis_rep_fits(
                                    m.knots,
                                    m.degree,
                                    t@,
                                    k as int,
                                    i as int + j2,
                                ));
                                if basis_rep_fits(m.knots, m.degree, t@, p as int, i as int) {
                                    lemma_rep_fits_down(
                                        m.knots,
                                        m.degree,
                                        t@,
                                        p as int,
                                        i as int,
                                        k as int,
                                        j2 as int,
                                    );
                                }
                            }
                            return Err(SplineError::ArithmeticOverflow);
                        },
                    };
                    proof {
                        lemma_rv_div_congruence(
                            num@,
                            rv_sub(hi_b@, t@),
                            den@,
                            rv_sub(hi_b@, lo_b@),
                        );
                        lemma_rv_eq_trans(
                            q@,
                            rv_div(num@, den@),
                            rv_div(rv_sub(hi_b@, t@), rv_sub(hi_b@, lo_b@)),
                        );
                    }
                    q
                };
                proof {
                    assert(b.wf() && rv_eq(b@, sb));
                    assert(b@ == rb);
                }
                let t1 = prev[j2];
                let t2 = prev[j2 + 1];
                let ghost s1 = basis_val(m.knots, m.degree, t@, k as int - 1, i as int + j2);
                let ghost s2 = basis_val(m.knots, m.degree, t@, k as int - 1, i as int + j2 + 1);
                proof {
                    lemma_basis_valid(m.knots, m.degree, t@, k as int - 1, i as int + j2);
                    lemma_basis_valid(m.knots, m.degree, t@, k as int - 1, i as int + j2 + 1);
                }
                let m1 = match a.mul(t1) {
                    Some(v) => v,
                    None => {
                        proof {
                            assert(!basis_rep_fits(
                                m.knots,
                                m.degree,
                                t@,
                                k as int,
                                i as int + j2,
                            ));
                            if basis_rep_fits(m.knots, m.degree, t@, p as int, i as int) {
                                lemma_rep_fits_down(
                                    m.knots,
                                    m.degree,
                                    t@,
                                    p as int,
                                    i as int,
                                    k as int,
                                    j2 as int,
                                );
                            }
                        }
                        return Err(SplineError::ArithmeticOverflow);
                    },
                };
                let m2 = match b.mul(t2) {
                    Some(v) => v,
                    None => {
                        proof {
                            assert(!basis_rep_fits(
                                m.knots,
                                m.degree,
                                t@,
                                k as int,
                                i as int + j2,
                            ));
                            if basis_rep_fits(m.knots, m.degree, t@, p as int, i as int) {
                                lemma_rep_fits_down(
                                    m.knots,
                                    m.degree,
                                    t@,
                                    p as int,
                                    i as int,
                                    k as int,
                                    j2 as int,
                                );
                            }
                        }
                        return Err(SplineError::ArithmeticOverflow);
                    },
                };
                proof {
                    lemma_rv_mul_congruence(a@, sa, t1@, s1);
                    lemma_rv_eq_trans(m1@, rv_mul(a@, t1@), rv_mul(sa, s1));
                    lemma_rv_mul_congruence(b@, sb, t2@, s2);
                    lemma_rv_eq_trans(m2@, rv_mul(b@, t2@), rv_mul(sb, s2));
                }
                let val = match m1.add(m2) {
                    Some(v) => v,
                    None => {
                        proof {
                            assert(!basis_rep_fits(
                                m.knots,
                                m.degree,
                                t@,
                                k as int,
                                i as int + j2,
                            ));
                            if basis_rep_fits(m.knots, m.degree, t@, p as int, i as int) {
                                lemma_rep_fits_down(
                                    m.knots,
                                    m.degree,
                                    t@,
                                    p as int,
                                    i as int,
                                    k as int,
                                    j2 as int,
                                );
                            }
                        }
                        return Err(SplineError::ArithmeticOverflow);
                    },
                };
                proof {
                    lemma_rv_add_congruence(m1@, rv_mul(sa, s1), m2@, rv_mul(sb, s2));
                    lemma_rv_eq_trans(
                        val@,
                        rv_add(m1@, m2@),
                        rv_add(rv_mul(sa, s1), rv_mul(sb, s2)),
                    );
                    assert(basis_val(m.knots, m.degree, t@, k as int, i as int + j2) == rv_add(
                        rv_mul(sa, s1),
                        rv_mul(sb, s2),
                    ));
                    assert(val@ == basis_rep(m.knots, m.degree, t@, k as int, i as int + j2));
                }
                cur.push(val);
                j2 += 1;
            }
            prev = cur;
            k += 1;
        }
        let out = prev[0];
        Ok(out)
    }

    /// Samples every basis function of the configured degree at every
    /// configured parameter value: one sequence per basis function, each
    /// as long as the parameter grid, as many sequences as control points.
    #[verifier::loop_isolation(false)]
    pub fn generate_bases(&self) -> (r: Result<Vec<Vec<Rat>>, SplineError>)
        requires
            self.wf(),
        ensures
            r matches Ok(bases) ==> {
                &&& bases@.len() == self@.cps.len()
                &&& forall|bi: int|
                    0 <= bi < bases@.len() ==> (#[trigger] bases@[bi])@.len() == self@.ts.len()
                &&& forall|bi: int, sk: int|
                    0 <= bi < bases@.len() && 0 <= sk < self@.ts.len() ==> (#[trigger] bases@[bi]@[sk]).wf() && bases@[bi]@[sk]@ == basis_rep(
                        self@.knots,
                        self@.degree,
                        self@.ts[sk],
                        self@.degree,
                        bi,
                    ) && rv_eq(
                        bases@[bi]@[sk]@,
                        basis_val(self@.knots, self@.degree, self@.ts[sk], self@.degree, bi),
                    )
            },
            (forall|bi: int, sk: int|
                0 <= bi < self@.cps.len() && 0 <= sk < self@.ts.len() ==> #[trigger] basis_rep_fits(
                    self@.knots,
                    self@.degree,
                    self@.ts[sk],
                    self@.degree,
                    bi,
                )) ==> r is Ok,
            r matches Err(e) ==> e == SplineError::ArithmeticOverflow,
    {
        let ghost m = self@;
        proof {
            assert(m.knots.len() == self.knots@.len());
            assert(m.ts.len() == self.t_values@.len());
            assert(m.cps.len() == self.control_points@.len());
            assert(forall|q: int|
                0 <= q < m.ts.len() ==> m.ts[q] == (#[trigger] self.t_values@[q])@);
        }
        let count = self.knots.len() - (self.degree + 1);
        let samples = self.t_values.len();
        let mut bases: Vec<Vec<Rat>> = Vec::new();
        let mut bi: usize = 0;
        while bi < count
            invariant
                bi as int <= count as int,
                bases@.len() == bi as int,
                forall|q: int| 0 <= q < bi as int ==> (#[trigger] bases@[q])@.len() == samples as int,
                forall|q: int, sk: int|
                    0 <= q < bi as int && 0 <= sk < samples as int ==> (#[trigger] bases@[q]@[sk]).wf() && bases@[q]@[sk]@ == basis_rep(
                        m.knots,
                        m.degree,
                        m.ts[sk],
                        m.degree,
                        q,
                    ) && rv_eq(
                        bases@[q]@[sk]@,
                        basis_val(m.knots, m.degree, m.ts[sk], m.degree, q),
                    ),
            decreases count - bi,
        {
            let mut row: Vec<Rat> = Vec::new();
            let mut sk: usize = 0;
            while sk < samples
                invariant
                    sk as int <= samples as int,
                    row@.len() == sk as int,
                    (bi as int) < count as int,
                    forall|q: int|
                        0 <= q < sk as int ==> (#[trigger] row@[q]).wf() && row@[q]@ == basis_rep(
                            m.knots,
                            m.degree,
                            m.ts[q],
                            m.degree,
                            bi as int,
                        ) && rv_eq(
                            row@[q]@,
                            basis_val(m.knots, m.degree, m.ts[q], m.degree, bi as int),
                        ),
                decreases samples - sk,
            {
                let t = self.t_values[sk];
                let v = match self.cox_de_boor(t, self.degree, bi) {
                    Ok(v) => v,
                    Err(e) => {
                        proof {
                            assert(!basis_rep_fits(
                                m.knots,
                                m.degree,
                                m.ts[sk as int],
                                m.degree,
                                bi as int,
                            ));
                        }
                        return Err(e);
                    },
                };
                row.push(v);
                sk += 1;
            }
            bases.push(row);
            bi += 1;
        }
        Ok(bases)
    }

    /// Blends the control points with the basis functions: for each
    /// parameter sample `t`, the curve point is the sum over all control
    /// points of `basis_i(t)` times the point's coordinates.  Returns the
    /// x and y coordinate sequences, each as long as the parameter grid.
    #[verifier::loop_isolation(false)]
    pub fn interpolate(&self) -> (r: Result<(Vec<Rat>, Vec<Rat>), SplineError>)
        requires
            self.wf(),
        ensures
            r matches Ok(xy) ==> {
                &&& xy.0@.len() == self@.ts.len()
                &&& xy.1@.len() == self@.ts.len()
                &&& forall|sk: int|
                    0 <= sk < self@.ts.len() ==> (#[trigger] xy.0@[sk]).wf() && xy.0@[sk]@
                        == curve_rep_x(self@, self@.ts[sk], self@.cps.len() as int) && rv_eq(
                        xy.0@[sk]@,
                        curve_sum_x(self@, self@.ts[sk], self@.cps.len() as int),
                    )
                &&& forall|sk: int|
                    0 <= sk < self@.ts.len() ==> (#[trigger] xy.1@[sk]).wf() && xy.1@[sk]@
                        == curve_rep_y(self@, self@.ts[sk], self@.cps.len() as int) && rv_eq(
                        xy.1@[sk]@,
                        curve_sum_y(self@, self@.ts[sk], self@.cps.len() as int),
                    )
            },
            (forall|sk: int|
                0 <= sk < self@.ts.len() ==> #[trigger] curve_rep_fits_x(
                    self@,
                    self@.ts[sk],
                    self@.cps.len() as int,
                )) && (forall|sk: int|
                0 <= sk < self@.ts.len() ==> #[trigger] curve_rep_fits_y(
                    self@,
                    self@.ts[sk],
                    self@.cps.len() as int,
                )) ==> r is Ok,
            r matches Err(e) ==> e == SplineError::ArithmeticOverflow,
    {
        let ghost m = self@;
        proof {
            assert(m.knots.len() == self.knots@.len());
            assert(m.ts.len() == self.t_values@.len());
            assert(m.cps.len() == self.control_points@.len());
            assert(forall|q: int|
                0 <= q < m.ts.len() ==> m.ts[q] == (#[trigger] self.t_values@[q])@);
            assert(forall|q: int|
                0 <= q < m.cps.len() ==> m.cps[q] == (#[trigger] self.control_points@[q])@);
        }
        let samples = self.t_values.len();
        let count = self.control_points.len();
        let mut xs: Vec<Rat> = Vec::new();
        let mut ys: Vec<Rat> = Vec::new();
        let mut sk: usize = 0;
        while sk < samples
            invariant
                sk as int <= samples as int,
                xs@.len() == sk as int,
                ys@.len() == sk as int,
                forall|q: int|
                    0 <= q < sk as int ==> (#[trigger] xs@[q]).wf() && xs@[q]@ == curve_rep_x(
                        m,
                        m.ts[q],
                        count as int,
                    ) && rv_eq(xs@[q]@, curve_sum_x(m, m.ts[q], count as int)),
                forall|q: int|
                    0 <= q < sk as int ==> (#[trigger] ys@[q]).wf() && ys@[q]@ == curve_rep_y(
                        m,
                        m.ts[q],
                        count as int,
                    ) && rv_eq(ys@[q]@, curve_sum_y(m, m.ts[q], count as int)),
            decreases samples - sk,
        {
            let t = self.t_values[sk];
            let mut xv = Rat::from_int(0);
            let mut yv = Rat::from_int(0);
            let mut ci: usize = 0;
            while ci < count
                invariant
                    ci as int <= count as int,
                    (sk as int) < samples as int,
                    t == self.t_values@[sk as int],
                    xv.wf(),
                    yv.wf(),
                    rv_valid(curve_sum_x(m, t@, ci as int)),
                    rv_valid(curve_sum_y(m, t@, ci as int)),
                    xv@ == curve_rep_x(m, t@, ci as int),
                    yv@ == curve_rep_y(m, t@, ci as int),
                    rv_eq(xv@, curve_sum_x(m, t@, ci as int)),
                    rv_eq(yv@, curve_sum_y(m, t@, ci as int)),
                decreases count - ci,
            {
                let basis = match self.cox_de_boor(t, self.degree, ci) {
                    Ok(v) => v,
                    Err(e) => {
                        proof {
                            assert(!basis_rep_fits(m.knots, m.degree, t@, m.degree, ci as int));
                            assert(!curve_rep_fits_x(m, t@, ci as int + 1));
                            if curve_rep_fits_x(m, t@, count as int) {
                                lemma_curve_fits_prefix(m, t@, count as int, ci as int + 1);
                            }
                            assert(!curve_rep_fits_x(m, m.ts[sk as int], count as int));
                        }
                        return Err(e);
                    },
                };
                let ghost sb = basis_val(m.knots, m.degree, t@, m.degree, ci as int);
                proof {
                    lemma_basis_valid(m.knots, m.degree, t@, m.degree, ci as int);
                }
                let cp = self.control_points[ci];
                let px = match basis.mul(cp.x) {
                    Some(v) => v,
                    None => {
                        proof {
                            assert(!curve_rep_fits_x(m, t@, ci as int + 1));
                            if curve_rep_fits_x(m, t@, count as int) {
                                lemma_curve_fits_prefix(m, t@, count as int, ci as int + 1);
                            }
                            assert(!curve_rep_fits_x(m, m.ts[sk as int], count as int));
                        }
                        return Err(SplineError::ArithmeticOverflow);
                    },
                };
                let py = match basis.mul(cp.y) {
                    Some(v) => v,
                    None => {
                        proof {
                            assert(!curve_rep_fits_y(m, t@, ci as int + 1));
                            if curve_rep_fits_y(m, t@, count as int) {
                                lemma_curve_fits_prefix(m, t@, count as int, ci as int + 1);
                            }
                            assert(!curve_rep_fits_y(m, m.ts[sk as int], count as int));
                            assert(!(curve_rep_fits_x(m, m.ts[sk as int], count as int)
                                && curve_rep_fits_y(m, m.ts[sk as int], count as int)));
                        }
                        return Err(SplineError::ArithmeticOverflow);
                    },
                };
                let nxv = match xv.add(px) {
                    Some(v) => v,
                    None => {
                        proof {
                            assert(!curve_rep_fits_x(m, t@, ci as int + 1));
                            if curve_rep_fits_x(m, t@, count as int) {
                                lemma_curve_fits_prefix(m, t@, count as int, ci as int + 1);
                            }
                            assert(!curve_rep_fits_x(m, m.ts[sk as int], count as int));
                        }
                        return Err(SplineError::ArithmeticOverflow);
                    },
                };
                let nyv = match yv.add(py) {
                    Some(v) => v,
                    None => {
                        proof {
                            assert(!curve_rep_fits_y(m, t@, ci as int + 1));
                            if curve_rep_fits_y(m, t@, count as int) {
                                lemma_curve_fits_prefix(m, t@, count as int, ci as int + 1);
                            }
                            assert(!curve_rep_fits_y(m, m.ts[sk as int], count as int));
                            assert(!(curve_rep_fits_x(m, m.ts[sk as int], count as int)
                                && curve_rep_fits_y(m, m.ts[sk as int], count as int)));
                        }
                        return Err(SplineError::ArithmeticOverflow);
                    },
                };
                proof {
                    lemma_rv_mul_congruence(basis@, sb, cp.x@, m.cps[ci as int].x);
                    lemma_rv_eq_trans(px@, rv_mul(basis@, cp.x@), rv_mul(sb, m.cps[ci as int].x));
                    lemma_rv_add_congruence(
                        xv@,
                        curve_sum_x(m, t@, ci as int),
                        px@,
                        rv_mul(sb, m.cps[ci as int].x),
                    );
                    lemma_rv_eq_trans(
                        nxv@,
                        rv_add(xv@, px@),
                        rv_add(curve_sum_x(m, t@, ci as int), rv_mul(sb, m.cps[ci as int].x)),
                    );
                    lemma_rv_mul_congruence(basis@, sb, cp.y@, m.cps[ci as int].y);
                    lemma_rv_eq_trans(py@, rv_mul(basis@, cp.y@), rv_mul(sb, m.cps[ci as int].y));
                    lemma_rv_add_congruence(
                        yv@,
                        curve_sum_y(m, t@, ci as int),
                        py@,
                        rv_mul(sb, m.cps[ci as int].y),
                    );
                    lemma_rv_eq_trans(
                        nyv@,
                        rv_add(yv@, py@),
                        rv_add(curve_sum_y(m, t@, ci as int), rv_mul(sb, m.cps[ci as int].y)),
                    );
                }
                xv = nxv;
                yv = nyv;
                ci += 1;
            }
            xs.push(xv);
            ys.push(yv);
            sk += 1;
        }
        Ok((xs, ys))
    }

    pub fn degree(&self) -> (r: usize)
        ensures
            r as int == self@.degree,
    {
        self.degree
    }

    pub fn num_samples(&self) -> (r: usize)
        ensures
            r as int == self@.ts.len(),
    {
        self.t_values.len()
    }

    pub fn num_control_points(&self) -> (r: usize)
        ensures
            r as int == self@.cps.len(),
    {
        self.control_points.len()
    }

    pub fn t_value(&self, k: usize) -> (r: Rat)
        requires
            (k as int) < self@.ts.len(),
        ensures
            r@ == self@.ts[k as int],
    {
        self.t_values[k]
    }

    pub fn knot(&self, k: usize) -> (r: Rat)
        requires
            (k as int) < self@.knots.len(),
        ensures
            r@ == self@.knots[k as int],
    {
        self.knots[k]
    }

    pub fn control_point(&self, k: usize) -> (r: Point2)
        requires
            (k as int) < self@.cps.len(),
        ensures
            r@ == self@.cps[k as int],
    {
        self.control_points[k]
    }
}

} // verus!
