//! The element type: an exact fraction with a positive denominator.
use vstd::prelude::*;

verus! {

/// A fraction `num / den`; well formed when `den > 0`.
///
/// Fractions are not normalised: `1/2` and `2/4` are different values of the
/// type that denote the same number (see `same_value`).
#[derive(Clone, Copy, Debug, PartialEq, Eq, Structural)]
pub struct Ratio {
    pub num: i64,
    pub den: i64,
}

pub open spec fn fits_i64(x: int) -> bool {
    i64::MIN <= x <= i64::MAX
}

/// The fraction with the given integer parts, where both fit in `i64`.
pub open spec fn ratio_of(n: int, d: int) -> Option<Ratio> {
    if fits_i64(n) && fits_i64(d) {
        Some(Ratio { num: n as i64, den: d as i64 })
    } else {
        None
    }
}

/// The sum of two fractions: a shared denominator is kept, otherwise the
/// denominators are multiplied. `None` where a part leaves `i64`.
pub open spec fn ratio_add(a: Ratio, b: Ratio) -> Option<Ratio> {
    if a.den == b.den {
        ratio_of(a.num + b.num, a.den as int)
    } else {
        ratio_of(a.num * b.den + b.num * a.den, a.den * b.den)
    }
}

/// The product of two fractions, part by part.
pub open spec fn ratio_mul(a: Ratio, b: Ratio) -> Option<Ratio> {
    ratio_of(a.num * b.num, a.den * b.den)
}

/// The two fractions denote the same number.
pub open spec fn same_value(a: Ratio, b: Ratio) -> bool {
    a.num * b.den == b.num * a.den
}

/// `a` denotes a smaller number than `b`.
pub open spec fn less_than(a: Ratio, b: Ratio) -> bool {
    a.num * b.den < b.num * a.den
}

pub open spec fn zero_ratio() -> Ratio {
    Ratio { num: 0, den: 1 }
}

pub open spec fn one_ratio() -> Ratio {
    Ratio { num: 1, den: 1 }
}

/// The largest value of the type, which starts a minimum search.
pub open spec fn infinity_ratio() -> Ratio {
    Ratio { num: i64::MAX, den: 1 }
}

/// Relies on `num_traits::Bounded::max_value` for `i64`: it is `i64::MAX`.
#[verifier::external_body]
fn i64_upper_bound() -> (r: i64)
    ensures
        r == i64::MAX,
{
    <i64 as num_traits::Bounded>::max_value()
}

proof fn lemma_mul_bound(x: int, y: int)
    requires
        fits_i64(x),
        fits_i64(y),
    ensures
        -0x4000_0000_0000_0000_0000_0000_0000_0000 <= x * y <= 0x4000_0000_0000_0000_0000_0000_0000_0000,
{
    assert(-0x8000_0000_0000_0000 <= x <= 0x8000_0000_0000_0000);
    assert(-0x8000_0000_0000_0000 <= y <= 0x8000_0000_0000_0000);
    assert(-0x4000_0000_0000_0000_0000_0000_0000_0000 <= x * y <= 0x4000_0000_0000_0000_0000_0000_0000_0000)
        by (nonlinear_arith)
        requires
            -0x8000_0000_0000_0000 <= x <= 0x8000_0000_0000_0000,
            -0x8000_0000_0000_0000 <= y <= 0x8000_0000_0000_0000,
    ;
}

proof fn lemma_mul_den_bound(x: int, d: int)
    requires
        fits_i64(x),
        fits_i64(d),
        d > 0,
    ensures
        -0x4000_0000_0000_0000_0000_0000_0000_0000 < x * d < 0x4000_0000_0000_0000_0000_0000_0000_0000,
{
    assert(-0x4000_0000_0000_0000_0000_0000_0000_0000 < x * d < 0x4000_0000_0000_0000_0000_0000_0000_0000)
        by (nonlinear_arith)
        requires
            -0x8000_0000_0000_0000 <= x < 0x8000_0000_0000_0000,
            0 < d < 0x8000_0000_0000_0000,
    ;
}

fn narrow(n: i128, d: i128) -> (r: Option<Ratio>)
    ensures
        r == ratio_of(n as int, d as int),
{
    if n < i64::MIN as i128 || n > i64::MAX as i128 || d < i64::MIN as i128 || d > i64::MAX as i128 {
        None
    } else {
        Some(Ratio { num: n as i64, den: d as i64 })
    }
}

impl Ratio {
    pub open spec fn wf(self) -> bool {
        self.den > 0
    }

    /// The fraction `num / den`.
    pub fn new(num: i64, den: i64) -> (r: Ratio)
        requires
            den > 0,
        ensures
            r.num == num,
            r.den == den,
            r.wf(),
    {
        Ratio { num, den }
    }

    /// The integer `n` as the fraction `n / 1`.
    pub fn from_int(n: i64) -> (r: Ratio)
        ensures
            r.num == n,
            r.den == 1,
    {
        Ratio { num: n, den: 1 }
    }

    pub fn zero() -> (r: Ratio)
        ensures
            r == zero_ratio(),
    {
        Ratio { num: 0, den: 1 }
    }

    pub fn one() -> (r: Ratio)
        ensures
            r == one_ratio(),
    {
        Ratio { num: 1, den: 1 }
    }

    /// The starting point of a minimum search: no value of the type is larger.
    pub fn infinity() -> (r: Ratio)
        ensures
            r == infinity_ratio(),
    {
        Ratio { num: i64_upper_bound(), den: 1 }
    }

    /// The sum, or `None` where it cannot be held.
    pub fn checked_add(&self, other: &Ratio) -> (r: Option<Ratio>)
        requires
            self.wf(),
            other.wf(),
        ensures
            r == ratio_add(*self, *other),
            r matches Some(s) ==> s.wf(),
    {
        let a = *self;
        let b = *other;
        proof {
            lemma_mul_den_bound(a.num as int, b.den as int);
            lemma_mul_den_bound(b.num as int, a.den as int);
            lemma_mul_bound(a.den as int, b.den as int);
            assert(a.den * b.den > 0) by (nonlinear_arith)
                requires a.den > 0, b.den > 0;
        }
        if a.den == b.den {
            narrow(a.num as i128 + b.num as i128, a.den as i128)
        } else {
            narrow(
                a.num as i128 * b.den as i128 + b.num as i128 * a.den as i128,
                a.den as i128 * b.den as i128,
            )
        }
    }

    /// The product, or `None` where it cannot be held.
    pub fn checked_mul(&self, other: &Ratio) -> (r: Option<Ratio>)
        requires
            self.wf(),
            other.wf(),
        ensures
            r == ratio_mul(*self, *other),
            r matches Some(s) ==> s.wf(),
    {
        let a = *self;
        let b = *other;
        proof {
            lemma_mul_bound(a.num as int, b.num as int);
            lemma_mul_bound(a.den as int, b.den as int);
            assert(a.den * b.den > 0) by (nonlinear_arith)
                requires a.den > 0, b.den > 0;
        }
        narrow(a.num as i128 * b.num as i128, a.den as i128 * b.den as i128)
    }

    /// Whether the two fractions denote the same number.
    pub fn same_value(&self, other: &Ratio) -> (r: bool)
        ensures
            r == same_value(*self, *other),
    {
        proof {
            lemma_mul_bound(self.num as int, other.den as int);
            lemma_mul_bound(other.num as int, self.den as int);
        }
        self.num as i128 * other.den as i128 == other.num as i128 * self.den as i128
    }

    /// Whether `self` denotes a smaller number than `other`.
    pub fn less_than(&self, other: &Ratio) -> (r: bool)
        ensures
            r == less_than(*self, *other),
    {
        proof {
            lemma_mul_bound(self.num as int, other.den as int);
            lemma_mul_bound(other.num as int, self.den as int);
        }
        (self.num as i128 * other.den as i128) < other.num as i128 * self.den as i128
    }
}

/// The order of values is transitive: `a <= b <= c` gives `a <= c`.
pub proof fn lemma_le_trans(a: Ratio, b: Ratio, c: Ratio)
    requires
        a.wf(),
        b.wf(),
        c.wf(),
        !less_than(b, a),
        !less_than(c, b),
    ensures
        !less_than(c, a),
{
    let (an, ad, bn, bd, cn, cd) = (a.num as int, a.den as int, b.num as int, b.den as int, c.num as int, c.den as int);
    assert(an * bd * cd <= bn * ad * cd) by (nonlinear_arith)
        requires an * bd <= bn * ad, cd > 0;
    assert(bn * cd * ad <= cn * bd * ad) by (nonlinear_arith)
        requires bn * cd <= cn * bd, ad > 0;
    assert(an * cd * bd <= cn * ad * bd) by (nonlinear_arith)
        requires an * bd * cd <= bn * ad * cd, bn * cd * ad <= cn * bd * ad;
    assert(an * cd <= cn * ad) by (nonlinear_arith)
        requires an * cd * bd <= cn * ad * bd, bd > 0;
}

/// No value of the type exceeds the infinity value, and only the infinity
/// value itself reaches it.
pub proof fn lemma_below_infinity(a: Ratio)
    requires
        a.wf(),
    ensures
        !less_than(infinity_ratio(), a),
        !less_than(a, infinity_ratio()) ==> a == infinity_ratio(),
{
    let (n, d) = (a.num as int, a.den as int);
    assert(n * 1 <= i64::MAX * d) by (nonlinear_arith)
        requires n <= i64::MAX, d >= 1;
    if !less_than(a, infinity_ratio()) {
        assert(d == 1) by (nonlinear_arith)
            requires n * 1 >= i64::MAX * d, n <= i64::MAX, d >= 1;
    }
}

} // verus!
