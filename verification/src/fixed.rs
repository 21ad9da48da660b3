//! Signed fixed-point scalars with 32 fractional bits.
//!
//! A `Fixed` stands for the rational `raw / 2^32`. Every operation computes the
//! exact result, rounds it down to the grid and saturates it to the range of
//! `i64`, so no operation overflows and each one is a total function of its
//! operands (division by zero and roots of negative numbers are excluded by
//! preconditions).
use vstd::arithmetic::div_mod::{
    lemma_div_is_ordered, lemma_fundamental_div_mod, lemma_fundamental_div_mod_converse_div,
};
use vstd::prelude::*;

verus! {

/// Raw value of the scalar `1`.
pub const ONE_RAW: i64 = 0x1_0000_0000;

/// Clamps an integer to the range of raw values.
pub open spec fn sat(v: int) -> int {
    if v < i64::MIN {
        i64::MIN as int
    } else if v > i64::MAX {
        i64::MAX as int
    } else {
        v
    }
}

/// The largest integer not above the rational `n / d`.
pub open spec fn floor_div(n: int, d: int) -> int
    recommends
        d != 0,
{
    if d > 0 {
        n / d
    } else {
        (-n) / (-d)
    }
}

/// Integer square root: the largest `r >= 0` with `r * r <= n` (0 for negative `n`).
pub open spec fn isqrt(n: int) -> int
    decreases n,
{
    if n <= 0 {
        0
    } else {
        let r = 2 * isqrt(n / 4);
        if (r + 1) * (r + 1) <= n {
            r + 1
        } else {
            r
        }
    }
}

/// Raw value of the sum of the scalars with raw values `a` and `b`.
pub open spec fn fx_add(a: int, b: int) -> int {
    sat(a + b)
}

/// Raw value of the difference of the scalars with raw values `a` and `b`.
pub open spec fn fx_sub(a: int, b: int) -> int {
    sat(a - b)
}

/// Raw value of the negative of the scalar with raw value `a`.
pub open spec fn fx_neg(a: int) -> int {
    sat(-a)
}

/// Raw value of the product of the scalars with raw values `a` and `b`.
pub open spec fn fx_mul(a: int, b: int) -> int {
    sat((a * b) / (ONE_RAW as int))
}

/// Raw value of the quotient of the scalars with raw values `a` and `b`.
pub open spec fn fx_div(a: int, b: int) -> int
    recommends
        b != 0,
{
    sat(floor_div(a * ONE_RAW, b))
}

/// Raw value of the scalar with raw value `a`, divided by the whole number `n`.
pub open spec fn fx_div_int(a: int, n: int) -> int
    recommends
        n != 0,
{
    sat(floor_div(a, n))
}

/// Raw value of the square root of the scalar with raw value `a`.
pub open spec fn fx_sqrt(a: int) -> int
    recommends
        a >= 0,
{
    isqrt(a * ONE_RAW)
}

/// Raw value of the scalar that stands for the integer `n`.
pub open spec fn fx_from_int(n: int) -> int {
    sat(n * ONE_RAW)
}

/// `x`, limited to the interval from `min` to `max`.
pub open spec fn fx_clamp(x: int, min: int, max: int) -> int {
    if x < min {
        min
    } else if x > max {
        max
    } else {
        x
    }
}

/// `isqrt(n)` is the integer square root of a non-negative `n`.
pub proof fn lemma_isqrt_bounds(n: int)
    requires
        n >= 0,
    ensures
        isqrt(n) >= 0,
        isqrt(n) * isqrt(n) <= n,
        n < (isqrt(n) + 1) * (isqrt(n) + 1),
    decreases n,
{
    if n > 0 {
        let m = n / 4;
        lemma_isqrt_bounds(m);
        let s = isqrt(m);
        let r = 2 * s;
        assert(r * r == 4 * (s * s)) by (nonlinear_arith)
            requires
                r == 2 * s,
        ;
        assert((r + 2) * (r + 2) == 4 * ((s + 1) * (s + 1))) by (nonlinear_arith)
            requires
                r == 2 * s,
        ;
        assert((r + 1) * (r + 1) == r * r + 2 * r + 1) by (nonlinear_arith);
        assert((r + 2) * (r + 2) == (r + 1) * (r + 1) + 2 * r + 3) by (nonlinear_arith);
    }
}

/// Only one number lies between the two bounds that define the integer square root.
pub proof fn lemma_isqrt_unique(n: int, r: int)
    requires
        r >= 0,
        r * r <= n,
        n < (r + 1) * (r + 1),
    ensures
        r == isqrt(n),
{
    lemma_isqrt_bounds(n);
    let s = isqrt(n);
    if r < s {
        assert((r + 1) * (r + 1) <= s * s) by (nonlinear_arith)
            requires
                0 <= r + 1 <= s,
        ;
    } else if s < r {
        assert((s + 1) * (s + 1) <= r * r) by (nonlinear_arith)
            requires
                0 <= s + 1 <= r,
        ;
    }
}

/// The integer square root is at least any number whose square is not above
/// the argument.
pub proof fn lemma_isqrt_at_least(n: int, r: int)
    requires
        r >= 0,
        r * r <= n,
    ensures
        r <= isqrt(n),
{
    lemma_isqrt_bounds(n);
    let s = isqrt(n);
    if s < r {
        assert((s + 1) * (s + 1) <= r * r) by (nonlinear_arith)
            requires
                0 <= s + 1 <= r,
        ;
    }
}

/// The integer square root is below any number whose square is above the
/// argument.
pub proof fn lemma_isqrt_below(n: int, r: int)
    requires
        n >= 0,
        r >= 0,
        n < r * r,
    ensures
        isqrt(n) < r,
{
    lemma_isqrt_bounds(n);
    let s = isqrt(n);
    if s >= r {
        assert(r * r <= s * s) by (nonlinear_arith)
            requires
                0 <= r <= s,
        ;
    }
}

/// The integer square root grows with its argument.
pub proof fn lemma_isqrt_monotonic(a: int, b: int)
    requires
        0 <= a <= b,
    ensures
        isqrt(a) <= isqrt(b),
{
    lemma_isqrt_bounds(a);
    lemma_isqrt_bounds(b);
    let s = isqrt(a);
    let t = isqrt(b);
    if t < s {
        assert((t + 1) * (t + 1) <= s * s) by (nonlinear_arith)
            requires
                0 <= t + 1 <= s,
        ;
    }
}

/// Rounding down keeps the order of the numerators over a positive denominator.
pub proof fn lemma_floor_div_monotonic(n1: int, n2: int, d: int)
    requires
        n1 <= n2,
        d > 0,
    ensures
        floor_div(n1, d) <= floor_div(n2, d),
{
    lemma_div_is_ordered(n1, n2, d);
}

/// The square of a scalar is never negative.
pub proof fn lemma_fx_square_nonnegative(a: int)
    ensures
        fx_mul(a, a) >= 0,
{
    assert(a * a >= 0) by (nonlinear_arith);
    lemma_div_is_ordered(0, a * a, ONE_RAW as int);
}

pub(crate) fn saturate(v: i128) -> (r: i64)
    ensures
        r == sat(v as int),
{
    if v < i64::MIN as i128 {
        i64::MIN
    } else if v > i64::MAX as i128 {
        i64::MAX
    } else {
        v as i64
    }
}

pub(crate) fn floor_div_wide(n: i128, d: i128) -> (q: i128)
    requires
        d != 0,
        i128::MIN < n,
        i128::MIN < d,
    ensures
        q == floor_div(n as int, d as int),
{
    let an: i128 = if n < 0 {
        -n
    } else {
        n
    };
    let ad: i128 = if d < 0 {
        -d
    } else {
        d
    };
    let q0: i128 = an / ad;
    let r0: i128 = an % ad;
    proof {
        lemma_fundamental_div_mod(an as int, ad as int);
        assert(an == q0 * ad + r0) by (nonlinear_arith)
            requires
                an == ad * q0 + r0,
        ;
    }
    if (n < 0) == (d < 0) {
        q0
    } else if r0 == 0 {
        proof {
            assert(-(an as int) == (-q0) * ad + 0) by (nonlinear_arith)
                requires
                    an == q0 * ad + r0,
                    r0 == 0,
            ;
            lemma_fundamental_div_mod_converse_div(-(an as int), ad as int, -(q0 as int), 0);
        }
        -q0
    } else {
        proof {
            assert(-(an as int) == (-q0 - 1) * ad + (ad - r0)) by (nonlinear_arith)
                requires
                    an == q0 * ad + r0,
            ;
            lemma_fundamental_div_mod_converse_div(
                -(an as int),
                ad as int,
                -(q0 as int) - 1,
                ad - r0,
            );
        }
        -q0 - 1
    }
}

pub(crate) fn isqrt_wide(n: u128) -> (r: u128)
    ensures
        r == isqrt(n as int),
        r < 0x1_0000_0000_0000_0000,
{
    let mut lo: u128 = 0;
    let mut hi: u128 = 0x1_0000_0000_0000_0000;
    assert(0x1_0000_0000_0000_0000int * 0x1_0000_0000_0000_0000int
        == 0x1_0000_0000_0000_0000_0000_0000_0000_0000int) by (nonlinear_arith);
    while hi - lo > 1
        invariant
            lo < hi <= 0x1_0000_0000_0000_0000,
            lo * lo <= n,
            n < hi * hi,
        decreases hi - lo,
    {
        let mid: u128 = lo + (hi - lo) / 2;
        assert(mid * mid <= 0xffff_ffff_ffff_ffff * 0xffff_ffff_ffff_ffff) by (nonlinear_arith)
            requires
                0 <= mid <= 0xffff_ffff_ffff_ffff,
        ;
        if mid * mid <= n {
            lo = mid;
        } else {
            hi = mid;
        }
    }
    proof {
        lemma_isqrt_unique(n as int, lo as int);
    }
    lo
}

/// A fixed-point scalar: the rational `raw / 2^32`.
#[derive(Clone, Copy, Debug, PartialEq, Eq, Structural, PartialOrd, Ord, Hash, Default)]
pub struct Fixed {
    pub raw: i64,
}

impl View for Fixed {
    type V = int;

    open spec fn view(&self) -> int {
        self.raw as int
    }
}

impl Fixed {
    /// The scalar with the given raw value.
    pub open spec fn of(v: int) -> Fixed {
        Fixed { raw: v as i64 }
    }

    /// The scalar `raw / 2^32`.
    pub fn from_raw(raw: i64) -> (r: Fixed)
        ensures
            r@ == raw,
    {
        Fixed { raw }
    }

    /// The scalar nearest to the integer `n` (saturated).
    pub fn from_int(n: i64) -> (r: Fixed)
        ensures
            r@ == fx_from_int(n as int),
    {
        let p: i128 = (n as i128) * 0x1_0000_0000;
        Fixed { raw: saturate(p) }
    }

    /// The scalar `num / den`, rounded down to the grid.
    pub fn from_ratio(num: i64, den: i64) -> (r: Fixed)
        requires
            den != 0,
        ensures
            r@ == fx_div(fx_from_int(num as int), fx_from_int(den as int)),
    {
        let n = Fixed::from_int(num);
        let d = Fixed::from_int(den);
        assert(d@ != 0);
        n / d
    }

    pub fn zero() -> (r: Fixed)
        ensures
            r@ == 0,
    {
        Fixed { raw: 0 }
    }

    pub fn one() -> (r: Fixed)
        ensures
            r@ == ONE_RAW,
    {
        Fixed { raw: ONE_RAW }
    }

    /// The scalar divided by the whole number `n`, rounded down to the grid.
    pub fn div_int(self, n: i64) -> (r: Fixed)
        requires
            n != 0,
        ensures
            r@ == fx_div_int(self@, n as int),
    {
        Fixed { raw: saturate(floor_div_wide(self.raw as i128, n as i128)) }
    }

    /// Square root, rounded down to the grid.
    pub fn sqrt(self) -> (r: Fixed)
        requires
            self@ >= 0,
        ensures
            r@ == fx_sqrt(self@),
            r@ >= 0,
            r@ * r@ <= self@ * ONE_RAW < (r@ + 1) * (r@ + 1),
    {
        let wide: u128 = (self.raw as u128) * (ONE_RAW as u128);
        let root: u128 = isqrt_wide(wide);
        proof {
            lemma_isqrt_bounds(wide as int);
            assert(root < 0x8000_0000_0000_0000) by {
                if root >= 0x8000_0000_0000_0000 {
                    assert(root * root >= 0x8000_0000_0000_0000 * 0x8000_0000_0000_0000)
                        by (nonlinear_arith)
                        requires
                            root >= 0x8000_0000_0000_0000,
                    ;
                }
            }
        }
        Fixed { raw: root as i64 }
    }
}

impl core::ops::Add for Fixed {
    type Output = Fixed;

    fn add(self, rhs: Fixed) -> (r: Fixed)
        ensures
            r@ == fx_add(self@, rhs@),
    {
        Fixed { raw: saturate(self.raw as i128 + rhs.raw as i128) }
    }
}

impl vstd::std_specs::ops::AddSpecImpl for Fixed {
    open spec fn obeys_add_spec() -> bool {
        true
    }

    open spec fn add_req(self, rhs: Fixed) -> bool {
        true
    }

    open spec fn add_spec(self, rhs: Fixed) -> Fixed {
        Fixed::of(fx_add(self@, rhs@))
    }
}

impl core::ops::Sub for Fixed {
    type Output = Fixed;

    fn sub(self, rhs: Fixed) -> (r: Fixed)
        ensures
            r@ == fx_sub(self@, rhs@),
    {
        Fixed { raw: saturate(self.raw as i128 - rhs.raw as i128) }
    }
}

impl vstd::std_specs::ops::SubSpecImpl for Fixed {
    open spec fn obeys_sub_spec() -> bool {
        true
    }

    open spec fn sub_req(self, rhs: Fixed) -> bool {
        true
    }

    open spec fn sub_spec(self, rhs: Fixed) -> Fixed {
        Fixed::of(fx_sub(self@, rhs@))
    }
}

impl core::ops::Neg for Fixed {
    type Output = Fixed;

    fn neg(self) -> (r: Fixed)
        ensures
            r@ == fx_neg(self@),
    {
        Fixed { raw: saturate(-(self.raw as i128)) }
    }
}

impl vstd::std_specs::ops::NegSpecImpl for Fixed {
    open spec fn obeys_neg_spec() -> bool {
        true
    }

    open spec fn neg_req(self) -> bool {
        true
    }

    open spec fn neg_spec(self) -> Fixed {
        Fixed::of(fx_neg(self@))
    }
}

impl core::ops::Mul for Fixed {
    type Output = Fixed;

    fn mul(self, rhs: Fixed) -> (r: Fixed)
        ensures
            r@ == fx_mul(self@, rhs@),
    {
        let a: i128 = self.raw as i128;
        let b: i128 = rhs.raw as i128;
        assert(-0x4000_0000_0000_0000_0000_0000_0000_0000 <= a * b
            <= 0x4000_0000_0000_0000_0000_0000_0000_0000) by (nonlinear_arith)
            requires
                -0x8000_0000_0000_0000 <= a <= 0x7fff_ffff_ffff_ffff,
                -0x8000_0000_0000_0000 <= b <= 0x7fff_ffff_ffff_ffff,
        ;
        Fixed { raw: saturate(floor_div_wide(a * b, ONE_RAW as i128)) }
    }
}

impl vstd::std_specs::ops::MulSpecImpl for Fixed {
    open spec fn obeys_mul_spec() -> bool {
        true
    }

    open spec fn mul_req(self, rhs: Fixed) -> bool {
        true
    }

    open spec fn mul_spec(self, rhs: Fixed) -> Fixed {
        Fixed::of(fx_mul(self@, rhs@))
    }
}

impl core::ops::Div for Fixed {
    type Output = Fixed;

    fn div(self, rhs: Fixed) -> (r: Fixed)
        ensures
            r@ == fx_div(self@, rhs@),
    {
        let n: i128 = (self.raw as i128) * 0x1_0000_0000;
        Fixed { raw: saturate(floor_div_wide(n, rhs.raw as i128)) }
    }
}

impl vstd::std_specs::ops::DivSpecImpl for Fixed {
    open spec fn obeys_div_spec() -> bool {
        true
    }

    open spec fn div_req(self, rhs: Fixed) -> bool {
        rhs@ != 0
    }

    open spec fn div_spec(self, rhs: Fixed) -> Fixed {
        Fixed::of(fx_div(self@, rhs@))
    }
}

/// Limits `x` to the interval from `min` to `max`.
pub fn clamp(x: Fixed, min: Fixed, max: Fixed) -> (r: Fixed)
    ensures
        r@ == fx_clamp(x@, min@, max@),
{
    if x.raw < min.raw {
        return min;
    }
    if x.raw > max.raw {
        return max;
    }
    x
}

} // verus!
