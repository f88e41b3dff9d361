//! Exact rational scalars.
//!
//! Specifications model a rational as a pair `(int, int)` of numerator and
//! denominator; two pairs denote the same rational exactly when they
//! cross-multiply equally (`peq`). Executable values keep the numerator and a
//! positive denominator in `i64`, reduced by a common divisor after every
//! operation so intermediate growth stays representable as long as possible.
//! Every operation whose exact result might leave that range is checked and
//! returns `None` instead of a rounded value.

use vstd::prelude::*;
use vstd::arithmetic::div_mod::lemma_fundamental_div_mod;
use vstd::arithmetic::div_mod::lemma_mod_multiples_basic;
use vstd::arithmetic::div_mod::lemma_mod_self_0;

verus! {

/// A well-formed specification-level rational: positive denominator.
pub open spec fn pwf(x: (int, int)) -> bool {
    x.1 > 0
}

/// The rational zero.
pub open spec fn pzero() -> (int, int) {
    (0, 1)
}

/// The rational one.
pub open spec fn pone() -> (int, int) {
    (1, 1)
}

/// The rational with integer value `n`.
pub open spec fn pfrom(n: int) -> (int, int) {
    (n, 1)
}

/// Sum of two rationals.
pub open spec fn padd(x: (int, int), y: (int, int)) -> (int, int) {
    (x.0 * y.1 + y.0 * x.1, x.1 * y.1)
}

/// Difference of two rationals.
pub open spec fn psub(x: (int, int), y: (int, int)) -> (int, int) {
    (x.0 * y.1 - y.0 * x.1, x.1 * y.1)
}

/// Product of two rationals.
pub open spec fn pmul(x: (int, int), y: (int, int)) -> (int, int) {
    (x.0 * y.0, x.1 * y.1)
}

/// Additive inverse.
pub open spec fn pneg(x: (int, int)) -> (int, int) {
    (-x.0, x.1)
}

/// Multiplicative inverse, with the sign moved into the numerator so that a
/// well-formed argument with nonzero numerator yields a well-formed result.
pub open spec fn pinv(y: (int, int)) -> (int, int) {
    if y.0 >= 0 {
        (y.1, y.0)
    } else {
        (-y.1, -y.0)
    }
}

/// Quotient of two rationals (meaningful when `y` has a nonzero numerator).
pub open spec fn pdiv(x: (int, int), y: (int, int)) -> (int, int) {
    pmul(x, pinv(y))
}

/// The two pairs denote the same rational number.
pub open spec fn peq(x: (int, int), y: (int, int)) -> bool {
    x.0 * y.1 == y.0 * x.1
}

/// `x <= y` as rationals (meaningful when both are well-formed).
pub open spec fn ple(x: (int, int), y: (int, int)) -> bool {
    x.0 * y.1 <= y.0 * x.1
}

/// `x >= 0` as a rational (meaningful when `x` is well-formed).
pub open spec fn pnonneg(x: (int, int)) -> bool {
    x.0 >= 0
}

/// The pair itself lies inside the scalar range: a numerator and a positive
/// denominator that both fit the representation, before any reduction.
pub open spec fn fits(x: (int, int)) -> bool {
    -0x7fff_ffff_ffff_ffff <= x.0 <= 0x7fff_ffff_ffff_ffff && 0 < x.1 <= 0x7fff_ffff_ffff_ffff
}

/// Sums, differences and products of well-formed rationals are well-formed.
pub proof fn lemma_pops_wf(x: (int, int), y: (int, int))
    requires
        pwf(x),
        pwf(y),
    ensures
        pwf(padd(x, y)),
        pwf(psub(x, y)),
        pwf(pmul(x, y)),
        pwf(pneg(x)),
{
    assert(x.1 * y.1 > 0) by (nonlinear_arith)
        requires x.1 > 0, y.1 > 0;
}

/// A quotient by a rational with nonzero numerator is well-formed.
pub proof fn lemma_pdiv_wf(x: (int, int), y: (int, int))
    requires
        pwf(x),
        pwf(y),
        y.0 != 0,
    ensures
        pwf(pdiv(x, y)),
{
    if y.0 >= 0 {
        assert(x.1 * y.0 > 0) by (nonlinear_arith)
            requires x.1 > 0, y.0 > 0;
    } else {
        assert(x.1 * (-y.0) > 0) by (nonlinear_arith)
            requires x.1 > 0, y.0 < 0;
    }
}

/// `peq` is reflexive and symmetric by definition; it is transitive across a
/// middle value with nonzero denominator.
pub proof fn lemma_peq_trans(x: (int, int), y: (int, int), z: (int, int))
    requires
        peq(x, y),
        peq(y, z),
        y.1 != 0,
    ensures
        peq(x, z),
{
    assert(x.0 * z.1 == z.0 * x.1) by (nonlinear_arith)
        requires
            x.0 * y.1 == y.0 * x.1,
            y.0 * z.1 == z.0 * y.1,
            y.1 != 0;
}

/// Pure regrouping of a product of two products.
proof fn lemma_mul_regroup(p: int, q: int, r: int, s: int) by (nonlinear_arith)
    ensures
        (p * q) * (r * s) == (p * r) * (q * s),
        (p * q) * (r * s) == (p * s) * (q * r),
{
}

/// Replacing each operand by an equal rational keeps sums and differences equal.
pub proof fn lemma_padd_congr(a: (int, int), a2: (int, int), b: (int, int), b2: (int, int))
    requires
        peq(a, a2),
        peq(b, b2),
    ensures
        peq(padd(a, b), padd(a2, b2)),
        peq(psub(a, b), psub(a2, b2)),
{
    // Distribute each side over the common denominator product, regroup every
    // term around the cross products `a.0 * a2.1` and `b.0 * b2.1`, and let
    // the hypotheses close the gap.
    vstd::arithmetic::mul::lemma_mul_is_distributive_add_other_way(
        a2.1 * b2.1,
        a.0 * b.1,
        b.0 * a.1,
    );
    vstd::arithmetic::mul::lemma_mul_is_distributive_sub_other_way(
        a2.1 * b2.1,
        a.0 * b.1,
        b.0 * a.1,
    );
    vstd::arithmetic::mul::lemma_mul_is_distributive_add_other_way(
        a.1 * b.1,
        a2.0 * b2.1,
        b2.0 * a2.1,
    );
    vstd::arithmetic::mul::lemma_mul_is_distributive_sub_other_way(
        a.1 * b.1,
        a2.0 * b2.1,
        b2.0 * a2.1,
    );
    lemma_mul_regroup(a.0, b.1, a2.1, b2.1);
    lemma_mul_regroup(b.0, a.1, a2.1, b2.1);
    lemma_mul_regroup(a2.0, b2.1, a.1, b.1);
    lemma_mul_regroup(b2.0, a2.1, a.1, b.1);
    vstd::arithmetic::mul::lemma_mul_is_commutative(b2.1, b.1);
    vstd::arithmetic::mul::lemma_mul_is_commutative(a2.1, a.1);
    vstd::arithmetic::mul::lemma_mul_is_commutative(b.1, b2.1);
    vstd::arithmetic::mul::lemma_mul_is_commutative(a.1, a2.1);
}

/// Replacing each operand by an equal rational keeps products equal.
pub proof fn lemma_pmul_congr(a: (int, int), a2: (int, int), b: (int, int), b2: (int, int))
    requires
        peq(a, a2),
        peq(b, b2),
    ensures
        peq(pmul(a, b), pmul(a2, b2)),
{
    assert((a.0 * b.0) * (a2.1 * b2.1) == (a2.0 * b2.0) * (a.1 * b.1)) by (nonlinear_arith)
        requires
            a.0 * a2.1 == a2.0 * a.1,
            b.0 * b2.1 == b2.0 * b.1;
}

/// Equal well-formed rationals have equal multiplicative inverses.
pub proof fn lemma_pinv_congr(y: (int, int), y2: (int, int))
    requires
        peq(y, y2),
        pwf(y),
        pwf(y2),
    ensures
        peq(pinv(y), pinv(y2)),
{
    if y.0 >= 0 && y2.0 < 0 {
        assert(false) by (nonlinear_arith)
            requires y.0 * y2.1 == y2.0 * y.1, y.1 > 0, y2.1 > 0, y.0 >= 0, y2.0 < 0;
    }
    if y.0 < 0 && y2.0 >= 0 {
        assert(false) by (nonlinear_arith)
            requires y.0 * y2.1 == y2.0 * y.1, y.1 > 0, y2.1 > 0, y.0 < 0, y2.0 >= 0;
    }
    if y.0 >= 0 {
        assert(y.1 * y2.0 == y2.1 * y.0) by (nonlinear_arith)
            requires y.0 * y2.1 == y2.0 * y.1;
    } else {
        assert((-y.1) * (-y2.0) == (-y2.1) * (-y.0)) by (nonlinear_arith)
            requires y.0 * y2.1 == y2.0 * y.1;
    }
}

/// Replacing dividend and divisor by equal well-formed rationals (divisors
/// with nonzero numerator) keeps the quotient equal.
pub proof fn lemma_pdiv_congr(a: (int, int), a2: (int, int), b: (int, int), b2: (int, int))
    requires
        peq(a, a2),
        peq(b, b2),
        pwf(b),
        pwf(b2),
    ensures
        peq(pdiv(a, b), pdiv(a2, b2)),
{
    lemma_pinv_congr(b, b2);
    lemma_pmul_congr(a, a2, pinv(b), pinv(b2));
}

/// A rational equals zero exactly when its numerator is zero.
pub proof fn lemma_peq_zero(x: (int, int))
    ensures
        peq(x, pzero()) <==> x.0 == 0,
{
    assert(x.0 * 1 == x.0);
    assert(0 * x.1 == 0);
}

/// Equal well-formed rationals are zero together.
pub proof fn lemma_peq_nonzero(a: (int, int), b: (int, int))
    requires
        peq(a, b),
        pwf(a),
        pwf(b),
    ensures
        (a.0 == 0) <==> (b.0 == 0),
{
    assert((a.0 == 0) <==> (b.0 == 0)) by (nonlinear_arith)
        requires a.0 * b.1 == b.0 * a.1, a.1 > 0, b.1 > 0;
}

/// Equal well-formed rationals are nonnegative together.
pub proof fn lemma_peq_nonneg(a: (int, int), b: (int, int))
    requires
        peq(a, b),
        pwf(a),
        pwf(b),
        pnonneg(b),
    ensures
        pnonneg(a),
{
    assert(a.0 >= 0) by (nonlinear_arith)
        requires a.0 * b.1 == b.0 * a.1, a.1 > 0, b.1 > 0, b.0 >= 0;
}

/// A well-formed nonzero rational, times any rational equal to its
/// reciprocal, gives one (in either order).
pub proof fn lemma_pmul_inv(v: (int, int), w: (int, int))
    requires
        pwf(v),
        pwf(w),
        v.0 != 0,
        peq(w, pdiv(pone(), v)),
    ensures
        peq(pmul(v, w), pone()),
        peq(pmul(w, v), pone()),
{
    let pd = pdiv(pone(), v);
    if v.0 >= 0 {
        assert(pd.0 == 1 * v.1 && pd.1 == 1 * v.0);
        assert(v.0 * w.0 == v.1 * w.1) by (nonlinear_arith)
            requires w.0 * (1 * v.0) == (1 * v.1) * w.1;
    } else {
        assert(pd.0 == 1 * (-v.1) && pd.1 == 1 * (-v.0));
        assert(v.0 * w.0 == v.1 * w.1) by (nonlinear_arith)
            requires w.0 * (1 * (-v.0)) == (1 * (-v.1)) * w.1;
    }
    assert(w.0 * v.0 == w.1 * v.1) by (nonlinear_arith)
        requires v.0 * w.0 == v.1 * w.1;
}

/// The square of a well-formed rational is well-formed and nonnegative.
pub proof fn lemma_psquare_nonneg(x: (int, int))
    requires
        pwf(x),
    ensures
        pwf(pmul(x, x)),
        pnonneg(pmul(x, x)),
{
    assert(x.0 * x.0 >= 0 && x.1 * x.1 > 0) by (nonlinear_arith)
        requires x.1 > 0;
}

/// The sum of nonnegative well-formed rationals is nonnegative.
pub proof fn lemma_padd_nonneg(x: (int, int), y: (int, int))
    requires
        pwf(x),
        pwf(y),
        pnonneg(x),
        pnonneg(y),
    ensures
        pnonneg(padd(x, y)),
{
    assert(x.0 * y.1 + y.0 * x.1 >= 0) by (nonlinear_arith)
        requires x.0 >= 0, y.0 >= 0, x.1 > 0, y.1 > 0;
}

/// An exact rational scalar: numerator over positive denominator, both `i64`.
#[derive(Clone, Copy, Debug, PartialEq, Eq, Structural)]
pub struct Rat {
    num: i64,
    den: i64,
}

impl View for Rat {
    type V = (int, int);

    closed spec fn view(&self) -> (int, int) {
        (self.num as int, self.den as int)
    }
}

/// Widening product of two `i64` values, with its exact value and a bound.
fn mul_i64_wide(x: i64, y: i64) -> (r: i128)
    requires
        x as int > -0x8000_0000_0000_0000,
        y as int > -0x8000_0000_0000_0000,
    ensures
        r as int == x as int * y as int,
        -0x3fff_ffff_ffff_ffff_0000_0000_0000_0001 <= r as int
            <= 0x3fff_ffff_ffff_ffff_0000_0000_0000_0001,
{
    proof {
        assert(-0x3fff_ffff_ffff_ffff_0000_0000_0000_0001 <= (x as int) * (y as int)
            <= 0x3fff_ffff_ffff_ffff_0000_0000_0000_0001) by (nonlinear_arith)
            requires
                -0x7fff_ffff_ffff_ffff <= x as int <= 0x7fff_ffff_ffff_ffff,
                -0x7fff_ffff_ffff_ffff <= y as int <= 0x7fff_ffff_ffff_ffff;
    }
    (x as i128) * (y as i128)
}

/// If `d` divides `y` and `x % y`, it divides `x`.
proof fn lemma_dvd_from_mod(x: int, y: int, d: int)
    requires
        x >= 0,
        y > 0,
        d >= 1,
        y % d == 0,
        (x % y) % d == 0,
    ensures
        x % d == 0,
{
    lemma_fundamental_div_mod(x, y);
    lemma_fundamental_div_mod(y, d);
    lemma_fundamental_div_mod(x % y, d);
    let q = (y / d) * (x / y) + (x % y) / d;
    assert(x == d * q) by (nonlinear_arith)
        requires
            x == y * (x / y) + x % y,
            y == d * (y / d),
            x % y == d * ((x % y) / d),
            q == (y / d) * (x / y) + (x % y) / d;
    lemma_mod_multiples_basic(q, d);
    assert(q * d == d * q) by (nonlinear_arith);
}

/// If `d` divides `x` and `y`, it divides `x % y`.
proof fn lemma_dvd_of_mod(x: int, y: int, d: int)
    requires
        x >= 0,
        y > 0,
        d >= 1,
        x % d == 0,
        y % d == 0,
    ensures
        (x % y) % d == 0,
{
    lemma_fundamental_div_mod(x, y);
    lemma_fundamental_div_mod(x, d);
    lemma_fundamental_div_mod(y, d);
    let q = (x / d) - (y / d) * (x / y);
    assert(x % y == d * q) by (nonlinear_arith)
        requires
            x % y == x - y * (x / y),
            x == d * (x / d),
            y == d * (y / d),
            q == (x / d) - (y / d) * (x / y);
    lemma_mod_multiples_basic(q, d);
    assert(q * d == d * q) by (nonlinear_arith);
}

/// The greatest common divisor of `a` and `b`, by Euclid's algorithm: a
/// positive common divisor that every common divisor divides.
pub fn gcd_u128(a: u128, b: u128) -> (g: u128)
    requires
        a > 0 || b > 0,
    ensures
        g > 0,
        (a as int) % (g as int) == 0,
        (b as int) % (g as int) == 0,
        forall|d: int|
            1 <= d && #[trigger] ((a as int) % d) == 0 && (b as int) % d == 0 ==> (g as int) % d
                == 0,
{
    let mut x: u128 = a;
    let mut y: u128 = b;
    while y != 0
        invariant
            x > 0 || y > 0,
            forall|d: int|
                1 <= d && #[trigger] ((x as int) % d) == 0 && (y as int) % d == 0 ==> (a as int)
                    % d == 0 && (b as int) % d == 0,
            forall|d: int|
                1 <= d && #[trigger] ((a as int) % d) == 0 && (b as int) % d == 0 ==> (x as int)
                    % d == 0 && (y as int) % d == 0,
        decreases y,
    {
        let t: u128 = x % y;
        proof {
            assert forall|d: int|
                1 <= d && #[trigger] ((y as int) % d) == 0 && (t as int) % d == 0 implies (
            a as int) % d == 0 && (b as int) % d == 0 by {
                lemma_dvd_from_mod(x as int, y as int, d);
            }
            assert forall|d: int|
                1 <= d && #[trigger] ((a as int) % d) == 0 && (b as int) % d == 0 implies (
            y as int) % d == 0 && (t as int) % d == 0 by {
                lemma_dvd_of_mod(x as int, y as int, d);
            }
        }
        x = y;
        y = t;
    }
    proof {
        lemma_mod_self_0(x as int);
    }
    x
}

/// Reduce `n / d` (with `d > 0`) by a common divisor and pack it into `Rat`;
/// `None` exactly when the reduced pair does not fit the scalar range.
fn rat_reduce(n: i128, d: i128) -> (r: Option<Rat>)
    requires
        d > 0,
        n > -0x8000_0000_0000_0000_0000_0000_0000_0000,
    ensures
        r matches Some(v) ==> v.wf() && peq(v@, (n as int, d as int)),
        (-0x7fff_ffff_ffff_ffff <= n <= 0x7fff_ffff_ffff_ffff && d <= 0x7fff_ffff_ffff_ffff)
            ==> r is Some,
        r matches Some(v) ==> v@.1 <= d as int && (if n >= 0 {
            0 <= v@.0 <= n as int
        } else {
            n as int <= v@.0 <= 0
        }),
        n == 0 ==> r is Some,
{
    let neg: bool = n < 0;
    let mag128: i128 = if neg {
        -n
    } else {
        n
    };
    let mag: u128 = mag128 as u128;
    if mag == 0 {
        return Some(Rat { num: 0, den: 1 });
    }
    let d128: u128 = d as u128;
    let g: u128 = gcd_u128(mag, d128);
    let nm: u128 = mag / g;
    let dq: u128 = d128 / g;
    proof {
        lemma_fundamental_div_mod(mag as int, g as int);
        lemma_fundamental_div_mod(d128 as int, g as int);
        assert(nm as int <= mag as int && dq as int <= d128 as int && dq as int > 0)
            by (nonlinear_arith)
            requires
                mag as int == g as int * (nm as int) + 0,
                d128 as int == g as int * (dq as int) + 0,
                mag as int > 0,
                d128 as int > 0,
                g as int > 0,
                nm as int >= 0,
                dq as int >= 0;
        assert((nm as int) * (d as int) == (mag as int) * (dq as int)) by (nonlinear_arith)
            requires
                mag as int == g as int * (nm as int),
                d as int == g as int * (dq as int);
    }
    if nm > (i64::MAX as u128) || dq > (i64::MAX as u128) {
        return None;
    }
    let num_mag: i64 = nm as i64;
    let num: i64 = if neg {
        -num_mag
    } else {
        num_mag
    };
    proof {
        if neg {
            assert((-(nm as int)) * (d as int) == (-(mag as int)) * (dq as int))
                by (nonlinear_arith)
                requires (nm as int) * (d as int) == (mag as int) * (dq as int);
        }
    }
    Some(Rat { num, den: dq as i64 })
}

impl Rat {
    /// The scalar is well-formed: the pair it denotes fits the scalar range
    /// (so in particular its negation stays representable).
    pub open spec fn wf(self) -> bool {
        fits(self@)
    }

    /// The rational zero.
    pub fn zero() -> (r: Rat)
        ensures
            r.wf(),
            r@ == pzero(),
    {
        Rat { num: 0, den: 1 }
    }

    /// The rational one.
    pub fn one() -> (r: Rat)
        ensures
            r.wf(),
            r@ == pone(),
    {
        Rat { num: 1, den: 1 }
    }

    /// The rational with integer value `n`.
    pub fn from_integer(n: i64) -> (r: Rat)
        requires
            n as int > -0x8000_0000_0000_0000,
        ensures
            r.wf(),
            r@ == pfrom(n as int),
    {
        Rat { num: n, den: 1 }
    }

    /// Build the rational `num / den` in reduced form. Fails exactly on a
    /// zero denominator or on the one unrepresentable extreme operand.
    pub fn new(num: i64, den: i64) -> (r: Option<Rat>)
        ensures
            r matches Some(v) ==> v.wf() && peq(v@, (num as int, den as int)),
            den == 0 ==> r is None,
            den != 0 && num as int > -0x8000_0000_0000_0000 && den as int
                > -0x8000_0000_0000_0000 ==> r is Some,
    {
        if den == 0 {
            return None;
        }
        if num == i64::MIN || den == i64::MIN {
            return None;
        }
        let n2: i64 = if den < 0 {
            -num
        } else {
            num
        };
        let d2: i64 = if den < 0 {
            -den
        } else {
            den
        };
        let r = rat_reduce(n2 as i128, d2 as i128);
        proof {
            if den < 0 {
                if let Some(v) = r {
                    assert(v@.0 * (den as int) == (num as int) * v@.1) by (nonlinear_arith)
                        requires v@.0 * (-(den as int)) == (-(num as int)) * v@.1;
                }
            }
        }
        r
    }

    /// Numerator of the reduced representation.
    pub fn numerator(&self) -> (r: i64)
        ensures
            r as int == self@.0,
    {
        self.num
    }

    /// Denominator of the reduced representation (always positive).
    pub fn denominator(&self) -> (r: i64)
        ensures
            r as int == self@.1,
    {
        self.den
    }

    /// The rational with the value of a machine word, when it fits the
    /// scalar range.
    pub fn from_usize(n: usize) -> (r: Option<Rat>)
        ensures
            r matches Some(v) ==> v.wf() && v@ == pfrom(n as int),
            (r is Some) <==> n <= 0x7fff_ffff_ffff_ffff,
    {
        if (n as u64) > 0x7fff_ffff_ffff_ffffu64 {
            None
        } else {
            Some(Rat { num: n as i64, den: 1 })
        }
    }

    /// Exact equality of the two rational values.
    pub fn equals(&self, other: &Rat) -> (r: bool)
        requires
            self.wf(),
            other.wf(),
        ensures
            r == peq(self@, other@),
    {
        let l: i128 = mul_i64_wide(self.num, other.den);
        let rr: i128 = mul_i64_wide(other.num, self.den);
        l == rr
    }

    /// Exact order on the two rational values.
    pub fn le(&self, other: &Rat) -> (r: bool)
        requires
            self.wf(),
            other.wf(),
        ensures
            r == ple(self@, other@),
    {
        let l: i128 = mul_i64_wide(self.num, other.den);
        let rr: i128 = mul_i64_wide(other.num, self.den);
        l <= rr
    }

    /// The value is zero.
    pub fn is_zero(&self) -> (r: bool)
        ensures
            r == (self@.0 == 0),
    {
        self.num == 0
    }

    /// The value is nonnegative.
    pub fn is_nonneg(&self) -> (r: bool)
        ensures
            r == pnonneg(self@),
    {
        self.num >= 0
    }

    /// Additive inverse (always exact).
    pub fn neg(&self) -> (r: Rat)
        requires
            self.wf(),
        ensures
            r.wf(),
            r@ == pneg(self@),
    {
        Rat { num: -self.num, den: self.den }
    }

    /// Exact sum; `None` only when the reduced result leaves the range.
    pub fn checked_add(&self, other: &Rat) -> (r: Option<Rat>)
        requires
            self.wf(),
            other.wf(),
        ensures
            r matches Some(v) ==> v.wf() && peq(v@, padd(self@, other@)),
            fits(padd(self@, other@)) ==> r is Some,
            r matches Some(v) ==> v@.1 <= padd(self@, other@).1 && (if padd(self@, other@).0 >= 0 {
                0 <= v@.0 <= padd(self@, other@).0
            } else {
                padd(self@, other@).0 <= v@.0 <= 0
            }),
            padd(self@, other@).0 == 0 ==> r is Some,
    {
        let p1: i128 = mul_i64_wide(self.num, other.den);
        let p2: i128 = mul_i64_wide(other.num, self.den);
        let dd: i128 = mul_i64_wide(self.den, other.den);
        proof {
            assert((self.den as int) * (other.den as int) > 0) by (nonlinear_arith)
                requires self.den as int > 0, other.den as int > 0;
        }
        rat_reduce(p1 + p2, dd)
    }

    /// Exact difference; `None` only when the reduced result leaves the range.
    pub fn checked_sub(&self, other: &Rat) -> (r: Option<Rat>)
        requires
            self.wf(),
            other.wf(),
        ensures
            r matches Some(v) ==> v.wf() && peq(v@, psub(self@, other@)),
            fits(psub(self@, other@)) ==> r is Some,
            peq(self@, other@) ==> r is Some,
            r matches Some(v) ==> v@.1 <= psub(self@, other@).1 && (if psub(self@, other@).0 >= 0 {
                0 <= v@.0 <= psub(self@, other@).0
            } else {
                psub(self@, other@).0 <= v@.0 <= 0
            }),
    {
        let p1: i128 = mul_i64_wide(self.num, other.den);
        let p2: i128 = mul_i64_wide(other.num, self.den);
        let dd: i128 = mul_i64_wide(self.den, other.den);
        proof {
            assert((self.den as int) * (other.den as int) > 0) by (nonlinear_arith)
                requires self.den as int > 0, other.den as int > 0;
        }
        rat_reduce(p1 - p2, dd)
    }

    /// Exact product; `None` only when the reduced result leaves the range.
    pub fn checked_mul(&self, other: &Rat) -> (r: Option<Rat>)
        requires
            self.wf(),
            other.wf(),
        ensures
            r matches Some(v) ==> v.wf() && peq(v@, pmul(self@, other@)),
            fits(pmul(self@, other@)) ==> r is Some,
            self@.0 == 0 || other@.0 == 0 ==> r is Some,
            r matches Some(v) ==> v@.1 <= pmul(self@, other@).1 && (if pmul(self@, other@).0 >= 0 {
                0 <= v@.0 <= pmul(self@, other@).0
            } else {
                pmul(self@, other@).0 <= v@.0 <= 0
            }),
    {
        let nn: i128 = mul_i64_wide(self.num, other.num);
        let dd: i128 = mul_i64_wide(self.den, other.den);
        proof {
            assert((self.den as int) * (other.den as int) > 0) by (nonlinear_arith)
                requires self.den as int > 0, other.den as int > 0;
            if self@.0 == 0 || other@.0 == 0 {
                assert(nn as int == 0) by (nonlinear_arith)
                    requires
                        nn as int == (self.num as int) * (other.num as int),
                        self.num as int == 0 || other.num as int == 0;
            }
        }
        rat_reduce(nn, dd)
    }

    /// Exact quotient; `None` when the divisor is zero or the reduced result
    /// leaves the range.
    pub fn checked_div(&self, other: &Rat) -> (r: Option<Rat>)
        requires
            self.wf(),
            other.wf(),
        ensures
            r matches Some(v) ==> v.wf() && peq(v@, pdiv(self@, other@)),
            other@.0 == 0 ==> r is None,
            other@.0 != 0 && fits(pdiv(self@, other@)) ==> r is Some,
            self@.0 == 0 && other@.0 != 0 ==> r is Some,
            r matches Some(v) ==> v@.1 <= pdiv(self@, other@).1 && (if pdiv(self@, other@).0 >= 0 {
                0 <= v@.0 <= pdiv(self@, other@).0
            } else {
                pdiv(self@, other@).0 <= v@.0 <= 0
            }),
    {
        if other.num == 0 {
            return None;
        }
        let n1: i128 = mul_i64_wide(self.num, other.den);
        let d1: i128 = mul_i64_wide(self.den, other.num);
        proof {
            if self@.0 == 0 {
                assert(n1 as int == 0) by (nonlinear_arith)
                    requires
                        n1 as int == (self.num as int) * (other.den as int),
                        self.num as int == 0;
            }
            if other.num > 0 {
                assert((self.den as int) * (other.num as int) > 0) by (nonlinear_arith)
                    requires self.den as int > 0, other.num as int > 0;
            } else {
                assert((self.den as int) * (other.num as int) < 0) by (nonlinear_arith)
                    requires self.den as int > 0, (other.num as int) < 0;
                assert((-(self.num as int * other.den as int)) == (self.num as int) * (-(
                other.den as int)) && (-(self.den as int * other.num as int)) == (self.den as int)
                    * (-(other.num as int))) by (nonlinear_arith);
            }
        }
        if d1 < 0 {
            rat_reduce(-n1, -d1)
        } else {
            rat_reduce(n1, d1)
        }
    }
}

} // verus!
