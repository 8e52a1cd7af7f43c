//! Exact rational numbers with a 64-bit numerator and denominator.
//!
//! A `Rat` carries an `i64` numerator and a positive `i64` denominator.
//! Its mathematical value is the ghost `RatVal`, a quotient of unbounded
//! integers compared by cross-multiplication.  Arithmetic is performed in
//! 128-bit intermediates, reduced by the greatest common divisor, and
//! returns `None` exactly when the reduced result does not fit in 64 bits.

use vstd::prelude::*;
use vstd::arithmetic::div_mod::{
    lemma_fundamental_div_mod, lemma_mod_division_less_than_divisor, lemma_mod_multiples_basic,
    lemma_mod_self_0,
};

verus! {

/// Mathematical value of a rational number: numerator `n` over denominator `d`.
pub ghost struct RatVal {
    pub n: int,
    pub d: int,
}

/// A representation is valid when its denominator is positive.
pub open spec fn rv_valid(a: RatVal) -> bool {
    0 < a.d
}

/// Equality of rational values by cross-multiplication.
pub open spec fn rv_eq(a: RatVal, b: RatVal) -> bool {
    a.n * b.d == b.n * a.d
}

/// `a <= b` as rational values (meaningful when both are valid).
pub open spec fn rv_le(a: RatVal, b: RatVal) -> bool {
    a.n * b.d <= b.n * a.d
}

/// `a < b` as rational values (meaningful when both are valid).
pub open spec fn rv_lt(a: RatVal, b: RatVal) -> bool {
    a.n * b.d < b.n * a.d
}

pub open spec fn rv_zero() -> RatVal {
    RatVal { n: 0, d: 1 }
}

pub open spec fn rv_one() -> RatVal {
    RatVal { n: 1, d: 1 }
}

pub open spec fn rv_add(a: RatVal, b: RatVal) -> RatVal {
    RatVal { n: a.n * b.d + b.n * a.d, d: a.d * b.d }
}

pub open spec fn rv_sub(a: RatVal, b: RatVal) -> RatVal {
    RatVal { n: a.n * b.d - b.n * a.d, d: a.d * b.d }
}

pub open spec fn rv_mul(a: RatVal, b: RatVal) -> RatVal {
    RatVal { n: a.n * b.n, d: a.d * b.d }
}

/// Division, with the sign moved into the numerator so that a valid
/// dividend and a nonzero divisor give a valid result.
pub open spec fn rv_div(a: RatVal, b: RatVal) -> RatVal {
    if 0 <= b.n {
        RatVal { n: a.n * b.d, d: a.d * b.n }
    } else {
        RatVal { n: -(a.n * b.d), d: -(a.d * b.n) }
    }
}

pub open spec fn abs_val(x: int) -> int {
    if x < 0 { -x } else { x }
}

/// Euclid's greatest common divisor, by repeated remainders.
pub open spec fn gcd_spec(a: int, b: int) -> int
    decreases a,
{
    if a <= 0 {
        b
    } else {
        gcd_spec(b % a, a)
    }
}

/// Whether the fraction `n / d` still fits in 64 bits once it is reduced
/// by the greatest common divisor of its parts.
pub open spec fn reduced_fits(n: int, d: int) -> bool {
    let g = gcd_spec(abs_val(n), d);
    abs_val(n) / g <= i64::MAX as int && d / g <= i64::MAX as int
}

/// The representative that reducing `n / d` by the greatest common
/// divisor produces: the unique lowest-terms form with a positive
/// denominator.  Every arithmetic result below is pinned to this form,
/// so equal inputs give bit-equal outputs.
pub open spec fn reduce_val(n: int, d: int) -> RatVal {
    let g = gcd_spec(abs_val(n), d);
    RatVal {
        n: if n < 0 {
            -(abs_val(n) / g)
        } else {
            abs_val(n) / g
        },
        d: d / g,
    }
}

/// Whether the exact sum of `a` and `b` fits in 64 bits once reduced.
pub open spec fn add_fits(a: RatVal, b: RatVal) -> bool {
    reduced_fits(rv_add(a, b).n, rv_add(a, b).d)
}

/// The representative that `add` returns on success.
pub open spec fn add_rep(a: RatVal, b: RatVal) -> RatVal {
    reduce_val(rv_add(a, b).n, rv_add(a, b).d)
}

/// Whether the exact difference of `a` and `b` fits in 64 bits once reduced.
pub open spec fn sub_fits(a: RatVal, b: RatVal) -> bool {
    reduced_fits(rv_sub(a, b).n, rv_sub(a, b).d)
}

/// The representative that `sub` returns on success.
pub open spec fn sub_rep(a: RatVal, b: RatVal) -> RatVal {
    reduce_val(rv_sub(a, b).n, rv_sub(a, b).d)
}

/// Whether the exact product of `a` and `b` fits in 64 bits once reduced.
pub open spec fn mul_fits(a: RatVal, b: RatVal) -> bool {
    reduced_fits(rv_mul(a, b).n, rv_mul(a, b).d)
}

/// The representative that `mul` returns on success.
pub open spec fn mul_rep(a: RatVal, b: RatVal) -> RatVal {
    reduce_val(rv_mul(a, b).n, rv_mul(a, b).d)
}

/// Whether the exact quotient of `a` by `b` fits in 64 bits once reduced.
pub open spec fn div_fits(a: RatVal, b: RatVal) -> bool {
    reduced_fits(rv_div(a, b).n, rv_div(a, b).d)
}

/// The representative that `div` returns on success.
pub open spec fn div_rep(a: RatVal, b: RatVal) -> RatVal {
    reduce_val(rv_div(a, b).n, rv_div(a, b).d)
}

/// An exact rational number; the mathematical value is `self@`.
#[derive(Clone, Copy, Debug, PartialEq, Eq, Structural)]
pub struct Rat {
    num: i64,
    den: i64,
}

impl View for Rat {
    type V = RatVal;

    closed spec fn view(&self) -> RatVal {
        RatVal { n: self.num as int, d: self.den as int }
    }
}

pub proof fn lemma_gcd_properties(a: int, b: int)
    requires
        0 <= a,
        0 < b,
    ensures
        0 < gcd_spec(a, b),
        a % gcd_spec(a, b) == 0,
        b % gcd_spec(a, b) == 0,
    decreases a,
{
    let g = gcd_spec(a, b);
    if a <= 0 {
        assert(g == b);
        lemma_mod_self_0(b);
        lemma_mod_multiples_basic(0, b);
    } else {
        lemma_mod_division_less_than_divisor(b, a);
        lemma_gcd_properties(b % a, a);
        assert(g == gcd_spec(b % a, a));
        lemma_fundamental_div_mod(b, a);
        lemma_fundamental_div_mod(b % a, g);
        lemma_fundamental_div_mod(a, g);
        let k = (a / g) * (b / a) + (b % a) / g;
        assert(b == g * k) by (nonlinear_arith)
            requires
                b == a * (b / a) + b % a,
                a == g * (a / g),
                b % a == g * ((b % a) / g),
                k == (a / g) * (b / a) + (b % a) / g;
        lemma_mod_multiples_basic(k, g);
    }
}

/// Bound on a product of a full-range `i64` and a nonnegative one.
proof fn lemma_mul_bound_mixed(x: int, y: int)
    by (nonlinear_arith)
    requires
        -0x8000_0000_0000_0000 <= x <= 0x7fff_ffff_ffff_ffff,
        0 <= y <= 0x7fff_ffff_ffff_ffff,
    ensures
        -(0x8000_0000_0000_0000 * 0x7fff_ffff_ffff_ffff) <= x * y,
        x * y <= 0x8000_0000_0000_0000 * 0x7fff_ffff_ffff_ffff,
{
}

/// Bound on a product of two full-range `i64` values.
proof fn lemma_mul_bound_full(x: int, y: int)
    by (nonlinear_arith)
    requires
        -0x8000_0000_0000_0000 <= x <= 0x7fff_ffff_ffff_ffff,
        -0x8000_0000_0000_0000 <= y <= 0x7fff_ffff_ffff_ffff,
    ensures
        -(0x8000_0000_0000_0000 * 0x8000_0000_0000_0000) <= x * y,
        x * y <= 0x8000_0000_0000_0000 * 0x8000_0000_0000_0000,
{
}

fn gcd_u128(a0: u128, b0: u128) -> (g: u128)
    ensures
        g as int == gcd_spec(a0 as int, b0 as int),
{
    let mut a = a0;
    let mut b = b0;
    while a != 0
        invariant
            gcd_spec(a as int, b as int) == gcd_spec(a0 as int, b0 as int),
        decreases a,
    {
        let t = b % a;
        b = a;
        a = t;
    }
    b
}

/// Reduces `n / d` by the greatest common divisor and narrows it to 64 bits.
fn reduce_parts(n: i128, d: i128) -> (r: Option<Rat>)
    requires
        0 < d,
        i128::MIN < n,
    ensures
        r is Some <==> reduced_fits(n as int, d as int),
        r matches Some(q) ==> q.wf() && q@ == reduce_val(n as int, d as int) && rv_eq(
            q@,
            RatVal { n: n as int, d: d as int },
        ),
{
    let neg = n < 0;
    let mag: u128 = if neg {
        (-n) as u128
    } else {
        n as u128
    };
    let du: u128 = d as u128;
    let g: u128 = gcd_u128(mag, du);
    proof {
        lemma_gcd_properties(mag as int, du as int);
    }
    let qn: u128 = mag / g;
    let qd: u128 = du / g;
    if qn <= (i64::MAX as u128) && qd <= (i64::MAX as u128) {
        let den: i64 = qd as i64;
        let num: i64 = if neg {
            -(qn as i64)
        } else {
            qn as i64
        };
        proof {
            let ni = n as int;
            let di = d as int;
            let magi = mag as int;
            let gi = g as int;
            let qni = qn as int;
            let qdi = qd as int;
            lemma_fundamental_div_mod(magi, gi);
            lemma_fundamental_div_mod(di, gi);
            assert(magi == gi * qni);
            assert(di == gi * qdi);
            assert(0 < qdi) by (nonlinear_arith)
                requires
                    di == gi * qdi,
                    0 < di,
                    0 < gi;
            if neg {
                assert((-qni) * di == ni * qdi) by (nonlinear_arith)
                    requires
                        magi == gi * qni,
                        di == gi * qdi,
                        ni == -magi;
            } else {
                assert(qni * di == ni * qdi) by (nonlinear_arith)
                    requires
                        magi == gi * qni,
                        di == gi * qdi,
                        ni == magi;
            }
        }
        Some(Rat { num, den })
    } else {
        None
    }
}

impl Rat {
    /// The representation is valid: positive denominator.
    pub open spec fn wf(self) -> bool {
        0 < self@.d
    }

    /// Builds the rational `num / den` from a positive denominator.
    pub fn new(num: i64, den: i64) -> (r: Rat)
        requires
            0 < den,
        ensures
            r.wf(),
            r@.n == num as int,
            r@.d == den as int,
    {
        Rat { num, den }
    }

    /// The integer `v`, as a rational.
    pub fn from_int(v: i64) -> (r: Rat)
        ensures
            r.wf(),
            r@.n == v as int,
            r@.d == 1,
    {
        Rat { num: v, den: 1 }
    }

    pub fn num(self) -> (r: i64)
        ensures
            r as int == self@.n,
    {
        self.num
    }

    pub fn den(self) -> (r: i64)
        ensures
            r as int == self@.d,
    {
        self.den
    }

    /// Whether `self` and `o` denote the same rational value.
    pub fn eq_value(self, o: Rat) -> (r: bool)
        requires
            self.wf(),
            o.wf(),
        ensures
            r == rv_eq(self@, o@),
    {
        proof {
            lemma_mul_bound_mixed(self.num as int, o.den as int);
            lemma_mul_bound_mixed(o.num as int, self.den as int);
        }
        (self.num as i128) * (o.den as i128) == (o.num as i128) * (self.den as i128)
    }

    /// Whether `self <= o` as rational values.
    pub fn le_value(self, o: Rat) -> (r: bool)
        requires
            self.wf(),
            o.wf(),
        ensures
            r == rv_le(self@, o@),
    {
        proof {
            lemma_mul_bound_mixed(self.num as int, o.den as int);
            lemma_mul_bound_mixed(o.num as int, self.den as int);
        }
        (self.num as i128) * (o.den as i128) <= (o.num as i128) * (self.den as i128)
    }

    /// Whether `self < o` as rational values.
    pub fn lt_value(self, o: Rat) -> (r: bool)
        requires
            self.wf(),
            o.wf(),
        ensures
            r == rv_lt(self@, o@),
    {
        proof {
            lemma_mul_bound_mixed(self.num as int, o.den as int);
            lemma_mul_bound_mixed(o.num as int, self.den as int);
        }
        (self.num as i128) * (o.den as i128) < (o.num as i128) * (self.den as i128)
    }

    /// Exact sum; `None` exactly when the reduced sum leaves 64 bits.
    pub fn add(self, o: Rat) -> (r: Option<Rat>)
        requires
            self.wf(),
            o.wf(),
        ensures
            r is Some <==> add_fits(self@, o@),
            r matches Some(q) ==> q.wf() && q@ == add_rep(self@, o@) && rv_eq(
                q@,
                rv_add(self@, o@),
            ),
    {
        proof {
            lemma_mul_bound_mixed(self.num as int, o.den as int);
            lemma_mul_bound_mixed(o.num as int, self.den as int);
            lemma_mul_bound_mixed(self.den as int, o.den as int);
            assert(0 < (self.den as int) * (o.den as int)) by (nonlinear_arith)
                requires
                    0 < self.den as int,
                    0 < o.den as int;
        }
        let n: i128 = (self.num as i128) * (o.den as i128) + (o.num as i128) * (self.den as i128);
        let d: i128 = (self.den as i128) * (o.den as i128);
        reduce_parts(n, d)
    }

    /// Exact difference; `None` exactly when the reduced result leaves 64 bits.
    pub fn sub(self, o: Rat) -> (r: Option<Rat>)
        requires
            self.wf(),
            o.wf(),
        ensures
            r is Some <==> sub_fits(self@, o@),
            r matches Some(q) ==> q.wf() && q@ == sub_rep(self@, o@) && rv_eq(
                q@,
                rv_sub(self@, o@),
            ),
    {
        proof {
            lemma_mul_bound_mixed(self.num as int, o.den as int);
            lemma_mul_bound_mixed(o.num as int, self.den as int);
            lemma_mul_bound_mixed(self.den as int, o.den as int);
            assert(0 < (self.den as int) * (o.den as int)) by (nonlinear_arith)
                requires
                    0 < self.den as int,
                    0 < o.den as int;
        }
        let n: i128 = (self.num as i128) * (o.den as i128) - (o.num as i128) * (self.den as i128);
        let d: i128 = (self.den as i128) * (o.den as i128);
        reduce_parts(n, d)
    }

    /// Exact product; `None` exactly when the reduced result leaves 64 bits.
    pub fn mul(self, o: Rat) -> (r: Option<Rat>)
        requires
            self.wf(),
            o.wf(),
        ensures
            r is Some <==> mul_fits(self@, o@),
            r matches Some(q) ==> q.wf() && q@ == mul_rep(self@, o@) && rv_eq(
                q@,
                rv_mul(self@, o@),
            ),
    {
        proof {
            lemma_mul_bound_full(self.num as int, o.num as int);
            lemma_mul_bound_mixed(self.den as int, o.den as int);
            assert(0 < (self.den as int) * (o.den as int)) by (nonlinear_arith)
                requires
                    0 < self.den as int,
                    0 < o.den as int;
        }
        let n: i128 = (self.num as i128) * (o.num as i128);
        let d: i128 = (self.den as i128) * (o.den as i128);
        reduce_parts(n, d)
    }

    /// Exact quotient by a nonzero rational; `None` exactly when the
    /// reduced result leaves 64 bits.
    pub fn div(self, o: Rat) -> (r: Option<Rat>)
        requires
            self.wf(),
            o.wf(),
            o@.n != 0,
        ensures
            r is Some <==> div_fits(self@, o@),
            r matches Some(q) ==> q.wf() && q@ == div_rep(self@, o@) && rv_eq(
                q@,
                rv_div(self@, o@),
            ),
    {
        proof {
            lemma_mul_bound_mixed(self.num as int, o.den as int);
            lemma_mul_bound_mixed(o.num as int, self.den as int);
            assert((self.den as int) * (o.num as int) != 0) by (nonlinear_arith)
                requires
                    0 < self.den as int,
                    o.num as int != 0;
            assert(((self.den as int) * (o.num as int) < 0) == ((o.num as int) < 0))
                by (nonlinear_arith)
                requires
                    0 < self.den as int;
        }
        let n0: i128 = (self.num as i128) * (o.den as i128);
        let d0: i128 = (self.den as i128) * (o.num as i128);
        if d0 < 0 {
            reduce_parts(-n0, -d0)
        } else {
            reduce_parts(n0, d0)
        }
    }
}

pub proof fn lemma_rv_eq_trans(a: RatVal, b: RatVal, c: RatVal)
    requires
        rv_valid(a),
        rv_valid(b),
        rv_valid(c),
        rv_eq(a, b),
        rv_eq(b, c),
    ensures
        rv_eq(a, c),
{
    assert(a.n * c.d == c.n * a.d) by (nonlinear_arith)
        requires
            0 < a.d,
            0 < b.d,
            0 < c.d,
            a.n * b.d == b.n * a.d,
            b.n * c.d == c.n * b.d;
}

/// Two representations of one value agree on the sign of the numerator.
pub proof fn lemma_rv_sign(a: RatVal, b: RatVal)
    requires
        rv_valid(a),
        rv_valid(b),
        rv_eq(a, b),
    ensures
        (0 < a.n) == (0 < b.n),
        (a.n == 0) == (b.n == 0),
        (a.n < 0) == (b.n < 0),
{
    assert(((0 < a.n) == (0 < b.n)) && ((a.n == 0) == (b.n == 0)) && ((a.n < 0) == (b.n < 0)))
        by (nonlinear_arith)
        requires
            0 < a.d,
            0 < b.d,
            a.n * b.d == b.n * a.d;
}

/// Replacing both sides by equal values preserves order comparisons.
pub proof fn lemma_rv_cmp_congruence(a: RatVal, a2: RatVal, b: RatVal, b2: RatVal)
    requires
        rv_valid(a),
        rv_valid(a2),
        rv_valid(b),
        rv_valid(b2),
        rv_eq(a, a2),
        rv_eq(b, b2),
    ensures
        rv_le(a, b) == rv_le(a2, b2),
        rv_lt(a, b) == rv_lt(a2, b2),
        rv_eq(a, b) == rv_eq(a2, b2),
{
    assert((a.n * b.d <= b.n * a.d) == (a2.n * b2.d <= b2.n * a2.d)) by (nonlinear_arith)
        requires
            0 < a.d,
            0 < a2.d,
            0 < b.d,
            0 < b2.d,
            a.n * a2.d == a2.n * a.d,
            b.n * b2.d == b2.n * b.d;
    assert((a.n * b.d < b.n * a.d) == (a2.n * b2.d < b2.n * a2.d)) by (nonlinear_arith)
        requires
            0 < a.d,
            0 < a2.d,
            0 < b.d,
            0 < b2.d,
            a.n * a2.d == a2.n * a.d,
            b.n * b2.d == b2.n * b.d;
    assert((a.n * b.d == b.n * a.d) == (a2.n * b2.d == b2.n * a2.d)) by (nonlinear_arith)
        requires
            0 < a.d,
            0 < a2.d,
            0 < b.d,
            0 < b2.d,
            a.n * a2.d == a2.n * a.d,
            b.n * b2.d == b2.n * b.d;
}

pub proof fn lemma_rv_le_trans(a: RatVal, b: RatVal, c: RatVal)
    requires
        rv_valid(a),
        rv_valid(b),
        rv_valid(c),
        rv_le(a, b),
        rv_le(b, c),
    ensures
        rv_le(a, c),
{
    assert(a.n * c.d <= c.n * a.d) by (nonlinear_arith)
        requires
            0 < a.d,
            0 < b.d,
            0 < c.d,
            a.n * b.d <= b.n * a.d,
            b.n * c.d <= c.n * b.d;
}

pub proof fn lemma_rv_lt_le_trans(a: RatVal, b: RatVal, c: RatVal)
    requires
        rv_valid(a),
        rv_valid(b),
        rv_valid(c),
        rv_lt(a, b),
        rv_le(b, c),
    ensures
        rv_lt(a, c),
{
    assert(a.n * c.d < c.n * a.d) by (nonlinear_arith)
        requires
            0 < a.d,
            0 < b.d,
            0 < c.d,
            a.n * b.d < b.n * a.d,
            b.n * c.d <= c.n * b.d;
}

pub proof fn lemma_rv_le_lt_trans(a: RatVal, b: RatVal, c: RatVal)
    requires
        rv_valid(a),
        rv_valid(b),
        rv_valid(c),
        rv_le(a, b),
        rv_lt(b, c),
    ensures
        rv_lt(a, c),
{
    assert(a.n * c.d < c.n * a.d) by (nonlinear_arith)
        requires
            0 < a.d,
            0 < b.d,
            0 < c.d,
            a.n * b.d <= b.n * a.d,
            b.n * c.d < c.n * b.d;
}

/// Cross-multiplied congruence for a sum or difference of two fractions:
/// replacing `an / ad` and `bn / bd` by the equal `a2n / a2d` and
/// `b2n / b2d` keeps `(an * bd + bn * ad) / (ad * bd)` equal.
proof fn lemma_cross_sum_congruence(
    an: int, ad: int, a2n: int, a2d: int, bn: int, bd: int, b2n: int, b2d: int,
)
    requires
        an * a2d == a2n * ad,
        bn * b2d == b2n * bd,
    ensures
        (an * bd + bn * ad) * (a2d * b2d) == (a2n * b2d + b2n * a2d) * (ad * bd),
{
    assert((an * bd) * (a2d * b2d) == (a2n * b2d) * (ad * bd)) by (nonlinear_arith)
        requires
            an * a2d == a2n * ad;
    assert((bn * ad) * (a2d * b2d) == (b2n * a2d) * (ad * bd)) by (nonlinear_arith)
        requires
            bn * b2d == b2n * bd;
    assert((an * bd + bn * ad) * (a2d * b2d) == (an * bd) * (a2d * b2d) + (bn * ad) * (a2d * b2d))
        by (nonlinear_arith);
    assert((a2n * b2d + b2n * a2d) * (ad * bd) == (a2n * b2d) * (ad * bd) + (b2n * a2d) * (ad * bd))
        by (nonlinear_arith);
}

pub proof fn lemma_rv_add_congruence(a: RatVal, a2: RatVal, b: RatVal, b2: RatVal)
    requires
        rv_valid(a),
        rv_valid(a2),
        rv_valid(b),
        rv_valid(b2),
        rv_eq(a, a2),
        rv_eq(b, b2),
    ensures
        rv_eq(rv_add(a, b), rv_add(a2, b2)),
        rv_valid(rv_add(a, b)),
        rv_valid(rv_add(a2, b2)),
{
    lemma_cross_sum_congruence(a.n, a.d, a2.n, a2.d, b.n, b.d, b2.n, b2.d);
    assert(0 < a.d * b.d && 0 < a2.d * b2.d) by (nonlinear_arith)
        requires
            0 < a.d,
            0 < b.d,
            0 < a2.d,
            0 < b2.d;
}

pub proof fn lemma_rv_sub_congruence(a: RatVal, a2: RatVal, b: RatVal, b2: RatVal)
    requires
        rv_valid(a),
        rv_valid(a2),
        rv_valid(b),
        rv_valid(b2),
        rv_eq(a, a2),
        rv_eq(b, b2),
    ensures
        rv_eq(rv_sub(a, b), rv_sub(a2, b2)),
        rv_valid(rv_sub(a, b)),
        rv_valid(rv_sub(a2, b2)),
{
    assert((-b.n) * b2.d == (-b2.n) * b.d) by (nonlinear_arith)
        requires
            b.n * b2.d == b2.n * b.d;
    lemma_cross_sum_congruence(a.n, a.d, a2.n, a2.d, -b.n, b.d, -b2.n, b2.d);
    assert(a.n * b.d + (-b.n) * a.d == a.n * b.d - b.n * a.d) by (nonlinear_arith);
    assert(a2.n * b2.d + (-b2.n) * a2.d == a2.n * b2.d - b2.n * a2.d) by (nonlinear_arith);
    assert(0 < a.d * b.d && 0 < a2.d * b2.d) by (nonlinear_arith)
        requires
            0 < a.d,
            0 < b.d,
            0 < a2.d,
            0 < b2.d;
}

pub proof fn lemma_rv_mul_congruence(a: RatVal, a2: RatVal, b: RatVal, b2: RatVal)
    requires
        rv_valid(a),
        rv_valid(a2),
        rv_valid(b),
        rv_valid(b2),
        rv_eq(a, a2),
        rv_eq(b, b2),
    ensures
        rv_eq(rv_mul(a, b), rv_mul(a2, b2)),
        rv_valid(rv_mul(a, b)),
        rv_valid(rv_mul(a2, b2)),
{
    assert((a.n * b.n) * (a2.d * b2.d) == (a2.n * b2.n) * (a.d * b.d)) by (nonlinear_arith)
        requires
            a.n * a2.d == a2.n * a.d,
            b.n * b2.d == b2.n * b.d;
    assert(0 < a.d * b.d && 0 < a2.d * b2.d) by (nonlinear_arith)
        requires
            0 < a.d,
            0 < b.d,
            0 < a2.d,
            0 < b2.d;
}

pub proof fn lemma_rv_div_congruence(a: RatVal, a2: RatVal, b: RatVal, b2: RatVal)
    requires
        rv_valid(a),
        rv_valid(a2),
        rv_valid(b),
        rv_valid(b2),
        rv_eq(a, a2),
        rv_eq(b, b2),
        b.n != 0,
    ensures
        rv_eq(rv_div(a, b), rv_div(a2, b2)),
        rv_valid(rv_div(a, b)),
        rv_valid(rv_div(a2, b2)),
{
    lemma_rv_sign(b, b2);
    if 0 < b.n {
        assert((a.n * b.d) * (a2.d * b2.n) == (a2.n * b2.d) * (a.d * b.n)) by (nonlinear_arith)
            requires
                a.n * a2.d == a2.n * a.d,
                b.n * b2.d == b2.n * b.d;
        assert(0 < a.d * b.n && 0 < a2.d * b2.n) by (nonlinear_arith)
            requires
                0 < a.d,
                0 < b.n,
                0 < a2.d,
                0 < b2.n;
    } else {
        assert((a.n * b.d) * (a2.d * b2.n) == (a2.n * b2.d) * (a.d * b.n)) by (nonlinear_arith)
            requires
                a.n * a2.d == a2.n * a.d,
                b.n * b2.d == b2.n * b.d;
        assert((-(a.n * b.d)) * (-(a2.d * b2.n)) == (-(a2.n * b2.d)) * (-(a.d * b.n)))
            by (nonlinear_arith)
            requires
                (a.n * b.d) * (a2.d * b2.n) == (a2.n * b2.d) * (a.d * b.n);
        assert(0 < -(a.d * b.n) && 0 < -(a2.d * b2.n)) by (nonlinear_arith)
            requires
                0 < a.d,
                b.n < 0,
                0 < a2.d,
                b2.n < 0;
    }
}

} // verus!
