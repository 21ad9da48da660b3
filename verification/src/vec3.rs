//! Three-component vectors of fixed-point scalars, used as points, directions
//! and colors alike.
use crate::fixed::{
    clamp, fx_add, fx_clamp, fx_div, fx_div_int, fx_mul, fx_neg, fx_sqrt, fx_sub, isqrt,
    lemma_fx_square_nonnegative, lemma_isqrt_bounds, lemma_isqrt_monotonic, sat, Fixed, ONE_RAW,
};
use core::ops::Neg;
use vstd::prelude::*;

verus! {

/// Raw value of the threshold below which a component counts as zero: the
/// smallest raw value that is not below `1e-8`.
pub const NEAR_ZERO_RAW: i64 = 43;

/// Mathematical model of a vector: the raw values of its three components.
pub struct V3 {
    pub x: int,
    pub y: int,
    pub z: int,
}

pub open spec fn v_zero() -> V3 {
    V3 { x: 0, y: 0, z: 0 }
}

pub open spec fn v_add(u: V3, v: V3) -> V3 {
    V3 { x: fx_add(u.x, v.x), y: fx_add(u.y, v.y), z: fx_add(u.z, v.z) }
}

pub open spec fn v_sub(u: V3, v: V3) -> V3 {
    V3 { x: fx_sub(u.x, v.x), y: fx_sub(u.y, v.y), z: fx_sub(u.z, v.z) }
}

pub open spec fn v_neg(v: V3) -> V3 {
    V3 { x: fx_neg(v.x), y: fx_neg(v.y), z: fx_neg(v.z) }
}

/// Adds the scalar `t` to every component.
pub open spec fn v_offset(v: V3, t: int) -> V3 {
    V3 { x: fx_add(v.x, t), y: fx_add(v.y, t), z: fx_add(v.z, t) }
}

/// The vector `t * v`.
pub open spec fn v_scale(t: int, v: V3) -> V3 {
    V3 { x: fx_mul(t, v.x), y: fx_mul(t, v.y), z: fx_mul(t, v.z) }
}

/// The vector `v / t`.
pub open spec fn v_div(v: V3, t: int) -> V3
    recommends
        t != 0,
{
    V3 { x: fx_div(v.x, t), y: fx_div(v.y, t), z: fx_div(v.z, t) }
}

/// Component-wise product.
pub open spec fn v_mul(u: V3, v: V3) -> V3 {
    V3 { x: fx_mul(u.x, v.x), y: fx_mul(u.y, v.y), z: fx_mul(u.z, v.z) }
}

/// The dot product: the sum of the three products, each rounded for itself.
pub open spec fn v_dot(u: V3, v: V3) -> int {
    fx_add(fx_add(fx_mul(u.x, v.x), fx_mul(u.y, v.y)), fx_mul(u.z, v.z))
}

/// The dot product of a vector with itself.
pub open spec fn v_length_squared(v: V3) -> int {
    v_dot(v, v)
}

/// Euclidean length, rounded down to the grid: it is zero for the zero vector only.
pub open spec fn v_length(v: V3) -> int {
    sat(isqrt(v.x * v.x + v.y * v.y + v.z * v.z))
}

/// `v` magnified by `2^30`, exactly.
pub open spec fn v_magnified(v: V3) -> V3 {
    V3 { x: v.x * 0x4000_0000, y: v.y * 0x4000_0000, z: v.z * 0x4000_0000 }
}

/// The vector divided by its length, as the grid gives the two.
pub open spec fn v_over_length(v: V3) -> V3
    recommends
        v != v_zero(),
{
    v_div(v, v_length(v))
}

/// The vector of length one that points where `v` points: `v` divided by its
/// length. A vector shorter than one is magnified first, so that its length
/// is measured as finely as that of a longer one.
pub open spec fn v_unit(v: V3) -> V3
    recommends
        v != v_zero(),
{
    if v_length(v) < ONE_RAW {
        v_over_length(v_magnified(v))
    } else {
        v_over_length(v)
    }
}

/// Mirror image of `v` at the plane with normal `n`: `v - 2 * dot(v, n) * n`.
pub open spec fn v_reflect(v: V3, n: V3) -> V3 {
    v_sub(v, v_scale(fx_mul(2 * ONE_RAW, v_dot(v, n)), n))
}

/// The vector is close to the zero vector: every component is below `1e-8`
/// in magnitude.
pub open spec fn v_near_zero(v: V3) -> bool {
    &&& -NEAR_ZERO_RAW < v.x < NEAR_ZERO_RAW
    &&& -NEAR_ZERO_RAW < v.y < NEAR_ZERO_RAW
    &&& -NEAR_ZERO_RAW < v.z < NEAR_ZERO_RAW
}

/// The 8-bit level of the color channel with raw value `x`: `255 * x`, cut off
/// below 0 and above 255.
pub open spec fn channel_byte(x: int) -> int {
    fx_clamp((x * 255) / (ONE_RAW as int), 0, 255)
}

/// The 8-bit level of a channel that holds the sum of `samples` estimates:
/// their mean, gamma-corrected by a square root. A negative mean gives 0.
pub open spec fn sampled_channel_byte(x: int, samples: int) -> int
    recommends
        samples > 0,
{
    let mean = fx_div_int(x, samples);
    if mean < 0 {
        0
    } else {
        channel_byte(fx_sqrt(mean))
    }
}

/// No component of a vector shorter than one reaches one in magnitude.
pub proof fn lemma_shorter_than_one(v: V3)
    requires
        v_length(v) < ONE_RAW,
    ensures
        -ONE_RAW < v.x < ONE_RAW,
        -ONE_RAW < v.y < ONE_RAW,
        -ONE_RAW < v.z < ONE_RAW,
{
    let xx = v.x * v.x;
    let yy = v.y * v.y;
    let zz = v.z * v.z;
    let n = xx + yy + zz;
    assert(xx >= 0 && yy >= 0 && zz >= 0) by (nonlinear_arith)
        requires
            xx == v.x * v.x,
            yy == v.y * v.y,
            zz == v.z * v.z,
    ;
    lemma_isqrt_bounds(n);
    let l = isqrt(n);
    assert(l < 0x1_0000_0000);
    assert((l + 1) * (l + 1) <= 0x1_0000_0000_0000_0000) by (nonlinear_arith)
        requires
            0 <= l < 0x1_0000_0000,
    ;
    assert(-0x1_0000_0000 < v.x < 0x1_0000_0000) by (nonlinear_arith)
        requires
            xx == v.x * v.x,
            xx < 0x1_0000_0000_0000_0000,
    ;
    assert(-0x1_0000_0000 < v.y < 0x1_0000_0000) by (nonlinear_arith)
        requires
            yy == v.y * v.y,
            yy < 0x1_0000_0000_0000_0000,
    ;
    assert(-0x1_0000_0000 < v.z < 0x1_0000_0000) by (nonlinear_arith)
        requires
            zz == v.z * v.z,
            zz < 0x1_0000_0000_0000_0000,
    ;
}

/// The length of a vector is positive unless the vector is zero.
pub proof fn lemma_length_positive(v: V3)
    requires
        v != v_zero(),
    ensures
        v_length(v) > 0,
{
    let s = v.x * v.x + v.y * v.y + v.z * v.z;
    assert(v.x * v.x >= 0 && v.y * v.y >= 0 && v.z * v.z >= 0) by (nonlinear_arith);
    assert(s >= 1) by (nonlinear_arith)
        requires
            v.x != 0 || v.y != 0 || v.z != 0,
            s == v.x * v.x + v.y * v.y + v.z * v.z,
    ;
    lemma_isqrt_monotonic(1, s);
    assert(isqrt(1) == 1) by {
        lemma_isqrt_bounds(1);
        let r = isqrt(1);
        assert(r >= 1) by (nonlinear_arith)
            requires
                r >= 0,
                1 < (r + 1) * (r + 1),
        ;
        assert(r <= 1) by (nonlinear_arith)
            requires
                r >= 0,
                r * r <= 1,
        ;
    }
}

/// The squared length of a vector is never negative.
pub proof fn lemma_length_squared_nonnegative(v: V3)
    ensures
        v_length_squared(v) >= 0,
{
    lemma_fx_square_nonnegative(v.x);
    lemma_fx_square_nonnegative(v.y);
    lemma_fx_square_nonnegative(v.z);
}

/// A vector whose dot product with another one is not zero is not the zero vector.
pub proof fn lemma_dot_nonzero(u: V3, v: V3)
    requires
        v_dot(u, v) != 0,
    ensures
        u != v_zero(),
        v != v_zero(),
{
    if u == v_zero() {
        assert(0 * v.x == 0 && 0 * v.y == 0 && 0 * v.z == 0);
    }
    if v == v_zero() {
        assert(u.x * 0 == 0 && u.y * 0 == 0 && u.z * 0 == 0);
    }
}

/// A vector of three fixed-point scalars.
#[derive(Clone, Copy, Debug, PartialEq, Eq, Structural, Hash, Default)]
pub struct Vec3 {
    pub x: Fixed,
    pub y: Fixed,
    pub z: Fixed,
}

impl View for Vec3 {
    type V = V3;

    open spec fn view(&self) -> V3 {
        V3 { x: self.x@, y: self.y@, z: self.z@ }
    }
}

fn channel_level(x: Fixed) -> (r: u8)
    ensures
        r == channel_byte(x@),
{
    let scaled: i128 = (x.raw as i128) * 255;
    if scaled < 0 {
        0
    } else {
        let level: i128 = scaled / 0x1_0000_0000;
        if level > 255 {
            255
        } else {
            level as u8
        }
    }
}

impl Vec3 {
    /// The vector with the given model.
    pub open spec fn of(m: V3) -> Vec3 {
        Vec3 { x: Fixed::of(m.x), y: Fixed::of(m.y), z: Fixed::of(m.z) }
    }

    /// The zero vector.
    pub fn new() -> (r: Vec3)
        ensures
            r@ == v_zero(),
    {
        Vec3 { x: Fixed::zero(), y: Fixed::zero(), z: Fixed::zero() }
    }

    pub fn from(e0: Fixed, e1: Fixed, e2: Fixed) -> (r: Vec3)
        ensures
            r@ == (V3 { x: e0@, y: e1@, z: e2@ }),
    {
        Vec3 { x: e0, y: e1, z: e2 }
    }

    pub fn x(&self) -> (r: Fixed)
        ensures
            r@ == self@.x,
    {
        self.x
    }

    pub fn y(&self) -> (r: Fixed)
        ensures
            r@ == self@.y,
    {
        self.y
    }

    pub fn z(&self) -> (r: Fixed)
        ensures
            r@ == self@.z,
    {
        self.z
    }

    /// The component on axis `idx`: 0 for x, 1 for y, 2 for z.
    pub fn index(&self, idx: u8) -> (r: &Fixed)
        requires
            idx < 3,
        ensures
            r@ == (if idx == 0 {
                self@.x
            } else if idx == 1 {
                self@.y
            } else {
                self@.z
            }),
    {
        if idx == 0 {
            &self.x
        } else if idx == 1 {
            &self.y
        } else {
            &self.z
        }
    }

    /// Mutable access to the component on axis `idx`; the other two stay as they are.
    pub fn index_mut(&mut self, idx: u8) -> (r: &mut Fixed)
        requires
            idx < 3,
        ensures
            r@ == (if idx == 0 {
                old(self)@.x
            } else if idx == 1 {
                old(self)@.y
            } else {
                old(self)@.z
            }),
            final(self)@ == (if idx == 0 {
                V3 { x: final(r)@, ..old(self)@ }
            } else if idx == 1 {
                V3 { y: final(r)@, ..old(self)@ }
            } else {
                V3 { z: final(r)@, ..old(self)@ }
            }),
    {
        if idx == 0 {
            &mut self.x
        } else if idx == 1 {
            &mut self.y
        } else {
            &mut self.z
        }
    }

    pub fn add_assign(&mut self, other: Vec3)
        ensures
            final(self)@ == v_add(old(self)@, other@),
    {
        *self = Vec3 { x: self.x + other.x, y: self.y + other.y, z: self.z + other.z };
    }

    pub fn mul_assign(&mut self, rhs: Fixed)
        ensures
            final(self)@ == v_scale(rhs@, old(self)@),
    {
        *self = Vec3 { x: rhs * self.x, y: rhs * self.y, z: rhs * self.z };
    }

    pub fn length_squared(&self) -> (r: Fixed)
        ensures
            r@ == v_length_squared(self@),
    {
        self.x * self.x + self.y * self.y + self.z * self.z
    }

    /// The Euclidean length, rounded down to the grid. It is computed from
    /// the exact sum of the squares, so that it is zero for the zero vector
    /// only.
    pub fn length(&self) -> (r: Fixed)
        ensures
            r@ == v_length(self@),
    {
        let x: i128 = self.x.raw as i128;
        let y: i128 = self.y.raw as i128;
        let z: i128 = self.z.raw as i128;
        assert(0 <= x * x <= 0x4000_0000_0000_0000_0000_0000_0000_0000) by (nonlinear_arith)
            requires
                -0x8000_0000_0000_0000 <= x <= 0x7fff_ffff_ffff_ffff,
        ;
        assert(0 <= y * y <= 0x4000_0000_0000_0000_0000_0000_0000_0000) by (nonlinear_arith)
            requires
                -0x8000_0000_0000_0000 <= y <= 0x7fff_ffff_ffff_ffff,
        ;
        assert(0 <= z * z <= 0x4000_0000_0000_0000_0000_0000_0000_0000) by (nonlinear_arith)
            requires
                -0x8000_0000_0000_0000 <= z <= 0x7fff_ffff_ffff_ffff,
        ;
        let sum: u128 = (x * x) as u128 + (y * y) as u128 + (z * z) as u128;
        let root: u128 = crate::fixed::isqrt_wide(sum);
        if root > 0x7fff_ffff_ffff_ffff {
            Fixed { raw: i64::MAX }
        } else {
            Fixed { raw: root as i64 }
        }
    }

    /// Whether the vector is close to the zero vector: every component is
    /// below `1e-8` in magnitude.
    pub fn near_zero(&self) -> (r: bool)
        ensures
            r == v_near_zero(self@),
    {
        -NEAR_ZERO_RAW < self.x.raw && self.x.raw < NEAR_ZERO_RAW && -NEAR_ZERO_RAW < self.y.raw
            && self.y.raw < NEAR_ZERO_RAW && -NEAR_ZERO_RAW < self.z.raw && self.z.raw
            < NEAR_ZERO_RAW
    }

    /// The color as three 8-bit levels: red, green, blue.
    pub fn as_color(&self) -> (r: [u8; 3])
        ensures
            r[0] == channel_byte(self@.x),
            r[1] == channel_byte(self@.y),
            r[2] == channel_byte(self@.z),
    {
        [channel_level(self.x), channel_level(self.y), channel_level(self.z)]
    }

    /// The color of a pixel whose channels hold the sum of `samples_per_pixel`
    /// estimates, as three 8-bit levels.
    pub fn as_color_sampled(&self, samples_per_pixel: u32) -> (r: [u8; 3])
        requires
            samples_per_pixel > 0,
        ensures
            r[0] == sampled_channel_byte(self@.x, samples_per_pixel as int),
            r[1] == sampled_channel_byte(self@.y, samples_per_pixel as int),
            r[2] == sampled_channel_byte(self@.z, samples_per_pixel as int),
    {
        [
            sampled_level(self.x, samples_per_pixel),
            sampled_level(self.y, samples_per_pixel),
            sampled_level(self.z, samples_per_pixel),
        ]
    }
}

fn sampled_level(x: Fixed, samples: u32) -> (r: u8)
    requires
        samples > 0,
    ensures
        r == sampled_channel_byte(x@, samples as int),
{
    let mean = x.div_int(samples as i64);
    if mean.raw < 0 {
        return 0;
    }
    let top = Fixed::from_int(255);
    let root = mean.sqrt();
    assert((root@ * (255 * 0x1_0000_0000)) / 0x1_0000_0000 == root@ * 255) by (nonlinear_arith);
    let level = clamp(root * top, Fixed::zero(), top);
    (level.raw / ONE_RAW) as u8
}

impl core::ops::Add for Vec3 {
    type Output = Vec3;

    fn add(self, v: Vec3) -> (r: Vec3)
        ensures
            r@ == v_add(self@, v@),
    {
        Vec3 { x: self.x + v.x, y: self.y + v.y, z: self.z + v.z }
    }
}

impl vstd::std_specs::ops::AddSpecImpl for Vec3 {
    open spec fn obeys_add_spec() -> bool {
        true
    }

    open spec fn add_req(self, v: Vec3) -> bool {
        true
    }

    open spec fn add_spec(self, v: Vec3) -> Vec3 {
        Vec3::of(v_add(self@, v@))
    }
}

impl core::ops::Sub for Vec3 {
    type Output = Vec3;

    fn sub(self, v: Vec3) -> (r: Vec3)
        ensures
            r@ == v_sub(self@, v@),
    {
        Vec3 { x: self.x - v.x, y: self.y - v.y, z: self.z - v.z }
    }
}

impl vstd::std_specs::ops::SubSpecImpl for Vec3 {
    open spec fn obeys_sub_spec() -> bool {
        true
    }

    open spec fn sub_req(self, v: Vec3) -> bool {
        true
    }

    open spec fn sub_spec(self, v: Vec3) -> Vec3 {
        Vec3::of(v_sub(self@, v@))
    }
}

impl core::ops::Neg for Vec3 {
    type Output = Vec3;

    fn neg(self) -> (r: Vec3)
        ensures
            r@ == v_neg(self@),
    {
        Vec3 { x: self.x.neg(), y: self.y.neg(), z: self.z.neg() }
    }
}

impl vstd::std_specs::ops::NegSpecImpl for Vec3 {
    open spec fn obeys_neg_spec() -> bool {
        true
    }

    open spec fn neg_req(self) -> bool {
        true
    }

    open spec fn neg_spec(self) -> Vec3 {
        Vec3::of(v_neg(self@))
    }
}

impl core::ops::Add<Fixed> for Vec3 {
    type Output = Vec3;

    fn add(self, t: Fixed) -> (r: Vec3)
        ensures
            r@ == v_offset(self@, t@),
    {
        Vec3 { x: self.x + t, y: self.y + t, z: self.z + t }
    }
}

impl vstd::std_specs::ops::AddSpecImpl<Fixed> for Vec3 {
    open spec fn obeys_add_spec() -> bool {
        true
    }

    open spec fn add_req(self, t: Fixed) -> bool {
        true
    }

    open spec fn add_spec(self, t: Fixed) -> Vec3 {
        Vec3::of(v_offset(self@, t@))
    }
}

impl core::ops::Div<Fixed> for Vec3 {
    type Output = Vec3;

    fn div(self, t: Fixed) -> (r: Vec3)
        ensures
            r@ == v_div(self@, t@),
    {
        Vec3 { x: self.x / t, y: self.y / t, z: self.z / t }
    }
}

impl vstd::std_specs::ops::DivSpecImpl<Fixed> for Vec3 {
    open spec fn obeys_div_spec() -> bool {
        true
    }

    open spec fn div_req(self, t: Fixed) -> bool {
        t@ != 0
    }

    open spec fn div_spec(self, t: Fixed) -> Vec3 {
        Vec3::of(v_div(self@, t@))
    }
}

impl core::ops::Mul for Vec3 {
    type Output = Vec3;

    fn mul(self, v: Vec3) -> (r: Vec3)
        ensures
            r@ == v_mul(self@, v@),
    {
        Vec3 { x: self.x * v.x, y: self.y * v.y, z: self.z * v.z }
    }
}

impl vstd::std_specs::ops::MulSpecImpl for Vec3 {
    open spec fn obeys_mul_spec() -> bool {
        true
    }

    open spec fn mul_req(self, v: Vec3) -> bool {
        true
    }

    open spec fn mul_spec(self, v: Vec3) -> Vec3 {
        Vec3::of(v_mul(self@, v@))
    }
}

impl core::ops::Mul<Vec3> for Fixed {
    type Output = Vec3;

    fn mul(self, v: Vec3) -> (r: Vec3)
        ensures
            r@ == v_scale(self@, v@),
    {
        Vec3 { x: self * v.x, y: self * v.y, z: self * v.z }
    }
}

impl vstd::std_specs::ops::MulSpecImpl<Vec3> for Fixed {
    open spec fn obeys_mul_spec() -> bool {
        true
    }

    open spec fn mul_req(self, v: Vec3) -> bool {
        true
    }

    open spec fn mul_spec(self, v: Vec3) -> Vec3 {
        Vec3::of(v_scale(self@, v@))
    }
}

impl core::ops::Mul<Fixed> for Vec3 {
    type Output = Vec3;

    fn mul(self, t: Fixed) -> (r: Vec3)
        ensures
            r@ == v_scale(t@, self@),
    {
        t * self
    }
}

impl vstd::std_specs::ops::MulSpecImpl<Fixed> for Vec3 {
    open spec fn obeys_mul_spec() -> bool {
        true
    }

    open spec fn mul_req(self, t: Fixed) -> bool {
        true
    }

    open spec fn mul_spec(self, t: Fixed) -> Vec3 {
        Vec3::of(v_scale(t@, self@))
    }
}

pub fn dot(u: Vec3, v: Vec3) -> (r: Fixed)
    ensures
        r@ == v_dot(u@, v@),
{
    u.x * v.x + u.y * v.y + u.z * v.z
}

/// The vector of length one that points where `vec` points.
pub fn unit_vector(vec: Vec3) -> (r: Vec3)
    requires
        vec@ != v_zero(),
    ensures
        r@ == v_unit(vec@),
{
    let length = vec.length();
    proof {
        lemma_length_positive(vec@);
    }
    if length.raw < ONE_RAW {
        proof {
            lemma_shorter_than_one(vec@);
            lemma_length_positive(v_magnified(vec@));
        }
        let magnified = Vec3 {
            x: Fixed::from_raw(vec.x.raw * 0x4000_0000),
            y: Fixed::from_raw(vec.y.raw * 0x4000_0000),
            z: Fixed::from_raw(vec.z.raw * 0x4000_0000),
        };
        assert(magnified@ == v_magnified(vec@));
        magnified / magnified.length()
    } else {
        vec / length
    }
}

/// Mirror image of `v` at the plane with normal `n`.
pub fn reflect(v: Vec3, n: Vec3) -> (r: Vec3)
    ensures
        r@ == v_reflect(v@, n@),
{
    v - Fixed::from_int(2) * dot(v, n) * n
}

} // verus!
