//! Random scalars and vectors, drawn from a seeded generator that the caller
//! hands to every sampling function.
use crate::fixed::{lemma_isqrt_unique, Fixed, ONE_RAW};
use crate::vec3::{
    unit_vector, v_length, v_length_squared, v_magnified, v_unit, v_zero, Vec3, V3,
};
use crate::vector_laws::{lemma_unit_vector_length, nearly_unit, within, UNIT_SLACK};
use rand::rngs::StdRng;
use rand::{Rng, SeedableRng};
use vstd::prelude::*;

verus! {

/// How often the rejection sampler draws before it settles for the center of
/// the sphere.
pub const MAX_TRIES: u32 = 64;

/// `StdRng`, the standard generator of `rand`. Nothing of its state is visible
/// to the proofs.
#[verifier::external_type_specification]
#[verifier::external_body]
pub struct ExStdRng(StdRng);

/// A stream of random numbers. Each worker owns one; two samplers made from
/// the same seed give the same stream.
pub struct Sampler {
    rng: StdRng,
}

/// Calls `SeedableRng::seed_from_u64` of `rand` for `StdRng`. Nothing is
/// claimed of the generator that comes back.
#[verifier::external_body]
fn seeded_generator(seed: u64) -> StdRng {
    StdRng::seed_from_u64(seed)
}

/// Calls `Rng::gen` of `rand` for 32 random bits. Nothing is claimed of the
/// value beyond its type.
#[verifier::external_body]
fn random_bits(rng: &mut StdRng) -> u32 {
    rng.gen::<u32>()
}

/// Calls `Rng::gen_range` of `rand` on the half-open range from `low` to
/// `high`, which panics on an empty range. Claimed: the value lies in the
/// range.
#[verifier::external_body]
fn random_between(rng: &mut StdRng, low: i64, high: i64) -> (r: i64)
    requires
        low < high,
    ensures
        low <= r < high,
{
    rng.gen_range(low..high)
}

impl Sampler {
    /// The sampler whose stream the seed determines.
    pub fn from_seed(seed: u64) -> Sampler {
        Sampler { rng: seeded_generator(seed) }
    }
}

/// A point lies strictly inside the unit sphere, each coordinate in `[-1, 1)`.
pub open spec fn in_unit_ball(p: V3) -> bool {
    &&& -ONE_RAW <= p.x < ONE_RAW
    &&& -ONE_RAW <= p.y < ONE_RAW
    &&& -ONE_RAW <= p.z < ONE_RAW
    &&& v_length_squared(p) < ONE_RAW
}

/// `u` is the unit vector towards the point `p` inside the unit sphere, which
/// is not its center.
pub open spec fn unit_towards(p: V3, u: V3) -> bool {
    p != v_zero() && in_unit_ball(p) && u == v_unit(p)
}

/// `u` is a direction that `Vec3::random_unit_vector` may return: the unit
/// vector towards some point inside the unit sphere other than its center.
pub open spec fn is_unit_sample(u: V3) -> bool {
    exists|p: V3| #[trigger] unit_towards(p, u)
}

/// The unit vector towards a point inside the unit sphere has length one but
/// for rounding: it is a unit vector but for `UNIT_SLACK`, and its length
/// falls short of one by 4 units of the grid at most and exceeds it by 13 at
/// most, however near the point lies to the center.
pub proof fn lemma_unit_sample_is_nearly_unit(p: V3, u: V3)
    requires
        unit_towards(p, u),
    ensures
        nearly_unit(u, UNIT_SLACK as int),
        within(u, ONE_RAW as int),
        ONE_RAW - 4 <= v_length(u) <= ONE_RAW + 13,
{
    lemma_unit_vector_length(p);
}

/// A random scalar in `[0, 1)`.
pub fn random_f64(sampler: &mut Sampler) -> (r: Fixed)
    ensures
        0 <= r@ < ONE_RAW,
{
    let bits: u32 = random_bits(&mut sampler.rng);
    Fixed::from_raw(bits as i64)
}

/// A random scalar in `[min, max)`.
pub fn random_f64_min_max(min: Fixed, max: Fixed, sampler: &mut Sampler) -> (r: Fixed)
    requires
        min@ < max@,
    ensures
        min@ <= r@ < max@,
{
    Fixed::from_raw(random_between(&mut sampler.rng, min.raw, max.raw))
}

impl Vec3 {
    /// A random vector with each component in `[min, max)`.
    pub fn random(min: Fixed, max: Fixed, sampler: &mut Sampler) -> (r: Vec3)
        requires
            min@ < max@,
        ensures
            min@ <= r@.x < max@,
            min@ <= r@.y < max@,
            min@ <= r@.z < max@,
    {
        let x = random_f64_min_max(min, max, sampler);
        let y = random_f64_min_max(min, max, sampler);
        let z = random_f64_min_max(min, max, sampler);
        Vec3::from(x, y, z)
    }

    /// A random point strictly inside the unit sphere, found by rejection:
    /// points of the cube around the sphere are drawn until one lies inside.
    /// After `MAX_TRIES` rejections the center is returned.
    pub fn random_in_unit_sphere(sampler: &mut Sampler) -> (r: Vec3)
        ensures
            in_unit_ball(r@),
    {
        let low = Fixed::from_raw(-ONE_RAW);
        let high = Fixed::one();
        let mut tries: u32 = 0;
        while tries < MAX_TRIES
            invariant
                low@ == -ONE_RAW,
                high@ == ONE_RAW,
            decreases MAX_TRIES - tries,
        {
            let p = Vec3::random(low, high, sampler);
            match p.accepted_in_unit_sphere() {
                Some(inside) => {
                    return inside;
                },
                None => {},
            }
            tries = tries + 1;
        }
        assert(0int * 0int == 0);
        Vec3::new()
    }

    /// A random direction of length one: the unit vector towards a random
    /// point inside the unit sphere. Should that point be the center, the
    /// direction is the z axis.
    pub fn random_unit_vector(sampler: &mut Sampler) -> (r: Vec3)
        ensures
            is_unit_sample(r@),
            within(r@, ONE_RAW as int),
            nearly_unit(r@, UNIT_SLACK as int),
            ONE_RAW - 4 <= v_length(r@) <= ONE_RAW + 13,
    {
        let p = Vec3::random_in_unit_sphere(sampler);
        p.direction_towards()
    }

    /// The direction that the sampler takes towards a point that it drew
    /// inside the unit sphere: the unit vector towards the point, or the z
    /// axis for the center.
    pub fn direction_towards(self) -> (r: Vec3)
        requires
            in_unit_ball(self@),
        ensures
            r@ == (if self@ == v_zero() {
                V3 { x: 0, y: 0, z: ONE_RAW as int }
            } else {
                v_unit(self@)
            }),
            is_unit_sample(r@),
            within(r@, ONE_RAW as int),
            nearly_unit(r@, UNIT_SLACK as int),
            ONE_RAW - 4 <= v_length(r@) <= ONE_RAW + 13,
    {
        if self.x.raw == 0 && self.y.raw == 0 && self.z.raw == 0 {
            let axis = Vec3::from(Fixed::zero(), Fixed::zero(), Fixed::one());
            proof {
                let half = V3 { x: 0, y: 0, z: 0x8000_0000 };
                assert(0x8000_0000int * 0x8000_0000int == 0x4000_0000_0000_0000int)
                    by (nonlinear_arith);
                assert(0x8000_0001int * 0x8000_0001int > 0x4000_0000_0000_0000int)
                    by (nonlinear_arith);
                assert(0int * 0int == 0);
                lemma_isqrt_unique(0x4000_0000_0000_0000, 0x8000_0000);
                assert(v_length(half) == 0x8000_0000);
                let far = v_magnified(half);
                assert(far == V3 { x: 0, y: 0, z: 0x2000_0000_0000_0000 });
                assert(0x2000_0000_0000_0000int * 0x2000_0000_0000_0000int
                    == 0x400_0000_0000_0000_0000_0000_0000_0000int) by (nonlinear_arith);
                assert(0x2000_0000_0000_0001int * 0x2000_0000_0000_0001int
                    > 0x400_0000_0000_0000_0000_0000_0000_0000int) by (nonlinear_arith);
                lemma_isqrt_unique(0x400_0000_0000_0000_0000_0000_0000_0000, 0x2000_0000_0000_0000);
                assert(v_length(far) == 0x2000_0000_0000_0000);
                assert(0x2000_0000_0000_0000int * 0x1_0000_0000int
                    == 0x2000_0000_0000_0000_0000_0000int) by (nonlinear_arith);
                assert(0x2000_0000_0000_0000_0000_0000int / 0x2000_0000_0000_0000int
                    == 0x1_0000_0000int) by (nonlinear_arith);
                assert(0int / 0x2000_0000_0000_0000int == 0);
                assert(v_unit(half) == axis@);
                assert(unit_towards(half, axis@));
                lemma_unit_sample_is_nearly_unit(half, axis@);
            }
            axis
        } else {
            let u = unit_vector(self);
            proof {
                assert(unit_towards(self@, u@));
                lemma_unit_sample_is_nearly_unit(self@, u@);
            }
            u
        }
    }

    /// What the rejection sampler does with a point that it drew: the point
    /// is accepted if it lies strictly inside the unit sphere, and rejected
    /// otherwise.
    pub fn accepted_in_unit_sphere(self) -> (r: Option<Vec3>)
        ensures
            r == (if v_length_squared(self@) < ONE_RAW {
                Some(self)
            } else {
                None
            }),
    {
        if self.length_squared().raw < ONE_RAW {
            Some(self)
        } else {
            None
        }
    }
}

} // verus!
