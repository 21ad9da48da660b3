//! Materials: how a surface scatters the light that reaches it.
use crate::fixed::{fx_mul, lemma_isqrt_below, Fixed, ONE_RAW};
use crate::hit_record::{HitModel, HitRecord};
use crate::random::{
    in_unit_ball, is_unit_sample, lemma_unit_sample_is_nearly_unit, unit_towards, Sampler,
};
use crate::ray::{Ray, RayModel};
use crate::vec3::{
    dot, lemma_dot_nonzero, lemma_length_positive, reflect, unit_vector, v_add, v_dot, v_length,
    v_length_squared, v_near_zero, v_neg, v_reflect, v_scale, v_unit, v_zero, Vec3, V3,
};
use crate::vector_laws::{
    lemma_length_of_a_sum_of_unit_vectors, lemma_reflection_keeps_the_angle,
    lemma_sum_of_unit_vectors, lemma_unit_vector_length,
    nearly_unit, within, EXACT_LENGTH_BOUND, UNIT_SLACK,
};
use vstd::arithmetic::div_mod::lemma_fundamental_div_mod;
use vstd::prelude::*;

verus! {

/// Mathematical model of a material.
pub enum MaterialModel {
    Lambertian { albedo: V3 },
    Metal { albedo: V3, fuzz: int },
}

/// Every component lies between 0 and 1.
pub open spec fn in_unit_cube(c: V3) -> bool {
    &&& 0 <= c.x <= ONE_RAW
    &&& 0 <= c.y <= ONE_RAW
    &&& 0 <= c.z <= ONE_RAW
}

/// What a diffuse surface with the given albedo does with a ray that hit it at
/// `rec`, where `unit` is the random direction drawn for this bounce: the
/// attenuation and the scattered ray.
pub open spec fn lambertian_scatter(albedo: V3, rec: HitModel, unit: V3) -> (V3, RayModel) {
    let sum = v_add(rec.normal, unit);
    let direction = if v_near_zero(sum) {
        rec.normal
    } else {
        sum
    };
    (albedo, RayModel { origin: rec.p, direction })
}

/// The direction into which a metal surface sends the ray `r_in`, where
/// `sample` is the random point drawn for this bounce.
pub open spec fn metal_direction(fuzz: int, r_in: RayModel, rec: HitModel, sample: V3) -> V3 {
    v_add(v_reflect(v_unit(r_in.direction), rec.normal), v_scale(fuzz, sample))
}

/// What a metal surface does with the ray `r_in` that hit it at `rec`: the
/// attenuation and the scattered ray, or nothing where the ray is absorbed
/// because its new direction does not leave the surface.
pub open spec fn metal_scatter(albedo: V3, fuzz: int, r_in: RayModel, rec: HitModel, sample: V3)
    -> Option<(V3, RayModel)> {
    let direction = metal_direction(fuzz, r_in, rec, sample);
    if v_dot(direction, rec.normal) > 0 {
        Some((albedo, RayModel { origin: rec.p, direction }))
    } else {
        None
    }
}

/// `out` is what a diffuse surface returns when it draws the direction `unit`.
pub open spec fn lambertian_draw(albedo: V3, rec: HitModel, out: Option<(V3, RayModel)>, unit: V3)
    -> bool {
    is_unit_sample(unit) && out == Some(lambertian_scatter(albedo, rec, unit))
}

/// `out` is what a metal surface returns when it draws the point `sample`.
pub open spec fn metal_draw(
    albedo: V3,
    fuzz: int,
    r_in: RayModel,
    rec: HitModel,
    out: Option<(V3, RayModel)>,
    sample: V3,
) -> bool {
    in_unit_ball(sample) && out == metal_scatter(albedo, fuzz, r_in, rec, sample)
}

/// `out` is what a diffuse surface may return for a ray that hit at `rec`.
pub open spec fn lambertian_outcome(albedo: V3, rec: HitModel, out: Option<(V3, RayModel)>)
    -> bool {
    exists|unit: V3| #[trigger] lambertian_draw(albedo, rec, out, unit)
}

/// `out` is what a metal surface may return for the ray `r_in` that hit at `rec`.
pub open spec fn metal_outcome(
    albedo: V3,
    fuzz: int,
    r_in: RayModel,
    rec: HitModel,
    out: Option<(V3, RayModel)>,
) -> bool {
    exists|sample: V3| #[trigger] metal_draw(albedo, fuzz, r_in, rec, out, sample)
}

/// `out` is what the material may return for the ray `r_in` that hit at `rec`:
/// the result of its scattering rule for some random draw.
pub open spec fn scatter_outcome(
    m: MaterialModel,
    r_in: RayModel,
    rec: HitModel,
    out: Option<(V3, RayModel)>,
) -> bool {
    match m {
        MaterialModel::Lambertian { albedo } => lambertian_outcome(albedo, rec, out),
        MaterialModel::Metal { albedo, fuzz } => metal_outcome(albedo, fuzz, r_in, rec, out),
    }
}

/// A diffuse surface never absorbs: whatever direction is drawn, the
/// attenuation is the albedo, the scattered ray starts at the hit point, and
/// its direction is not the zero vector, so that its length is positive.
pub proof fn lemma_lambertian_scatter(albedo: V3, rec: HitModel, unit: V3)
    requires
        rec.wf(),
    ensures
        lambertian_scatter(albedo, rec, unit).0 == albedo,
        lambertian_scatter(albedo, rec, unit).1.origin == rec.p,
        lambertian_scatter(albedo, rec, unit).1.direction != v_zero(),
        v_length(lambertian_scatter(albedo, rec, unit).1.direction) > 0,
        v_near_zero(v_add(rec.normal, unit)) ==> lambertian_scatter(albedo, rec, unit).1.direction
            == rec.normal,
        !v_near_zero(v_add(rec.normal, unit)) ==> lambertian_scatter(albedo, rec, unit).1.direction
            == v_add(rec.normal, unit),
{
    lemma_length_positive(lambertian_scatter(albedo, rec, unit).1.direction);
}

/// A diffuse surface does not scatter a ray into itself, but for rounding.
/// Let the normal be a unit vector but for `slack`, and let `unit` be the
/// unit vector towards the point `sample` that was drawn. Then the dot
/// product of the scattered direction with the normal falls short of zero by
/// at most `2 * slack + UNIT_SLACK + 3` units of the grid.
pub proof fn lemma_diffuse_ray_leaves_the_surface(
    albedo: V3,
    rec: HitModel,
    sample: V3,
    unit: V3,
    slack: int,
)
    requires
        nearly_unit(rec.normal, slack),
        unit_towards(sample, unit),
    ensures
        v_dot(lambertian_scatter(albedo, rec, unit).1.direction, rec.normal) >= -(2 * slack
            + UNIT_SLACK + 3),
{
    lemma_unit_sample_is_nearly_unit(sample, unit);
    lemma_sum_of_unit_vectors(rec.normal, unit, slack, UNIT_SLACK as int);
}

/// The direction into which a diffuse surface scatters is not longer than
/// two, but for rounding. Let the normal be a unit vector but for `slack`,
/// and let `unit` be the unit vector towards the point `sample` that was
/// drawn. Then the length of the scattered direction exceeds two by half of
/// `slack + UNIT_SLACK` units of the grid at most.
pub proof fn lemma_diffuse_direction_length(
    albedo: V3,
    rec: HitModel,
    sample: V3,
    unit: V3,
    slack: int,
)
    requires
        nearly_unit(rec.normal, slack),
        unit_towards(sample, unit),
    ensures
        v_length(lambertian_scatter(albedo, rec, unit).1.direction) <= 2 * ONE_RAW + (slack
            + UNIT_SLACK) / 2,
{
    lemma_unit_sample_is_nearly_unit(sample, unit);
    lemma_length_of_a_sum_of_unit_vectors(rec.normal, unit, slack, UNIT_SLACK as int);
}

/// A metal without fuzz is a mirror: the scattered ray leaves the hit point in
/// the direction of the reflection, whatever point is drawn, and the ray is
/// absorbed exactly if that direction does not leave the surface.
pub proof fn lemma_mirror_scatter(albedo: V3, r_in: RayModel, rec: HitModel, sample: V3)
    ensures
        metal_scatter(albedo, 0, r_in, rec, sample) == (if v_dot(
            v_reflect(v_unit(r_in.direction), rec.normal),
            rec.normal,
        ) > 0 {
            Some(
                (
                    albedo,
                    RayModel {
                        origin: rec.p,
                        direction: v_reflect(v_unit(r_in.direction), rec.normal),
                    },
                ),
            )
        } else {
            None
        }),
{
    assert(0 * sample.x == 0 && 0 * sample.y == 0 && 0 * sample.z == 0);
}

/// A mirror and the side from which the ray comes. Let the normal be a unit
/// vector but for `slack`. A ray that meets the surface against its normal is
/// reflected, and keeps its angle to the normal but for rounding; a ray that
/// runs along the normal is absorbed. Within `12 * slack + 9` units of the
/// grid of grazing, rounding decides.
pub proof fn lemma_mirror_and_the_incoming_ray(
    albedo: V3,
    r_in: RayModel,
    rec: HitModel,
    sample: V3,
    slack: int,
)
    requires
        r_in.direction != v_zero(),
        within(r_in.direction, EXACT_LENGTH_BOUND as int),
        nearly_unit(rec.normal, slack),
    ensures
        v_dot(v_unit(r_in.direction), rec.normal) < -(12 * slack + 9) ==> metal_scatter(
            albedo,
            0,
            r_in,
            rec,
            sample,
        ) is Some,
        v_dot(v_unit(r_in.direction), rec.normal) > 12 * slack + 9 ==> metal_scatter(
            albedo,
            0,
            r_in,
            rec,
            sample,
        ) is None,
        metal_scatter(albedo, 0, r_in, rec, sample) matches Some(s) ==> -(12 * slack + 12)
            <= v_dot(s.1.direction, rec.normal) - v_dot(v_neg(v_unit(r_in.direction)), rec.normal)
            <= 12 * slack + 12,
{
    lemma_unit_vector_length(r_in.direction);
    lemma_reflection_keeps_the_angle(v_unit(r_in.direction), rec.normal, slack);
    lemma_mirror_scatter(albedo, r_in, rec, sample);
}

/// The fuzz bounds how far a metal lets the new direction stray from the
/// mirror direction: the two differ by the drawn point scaled by the fuzz,
/// which is at most the fuzz in every component.
pub proof fn lemma_fuzz_bounds_the_perturbation(
    fuzz: int,
    r_in: RayModel,
    rec: HitModel,
    sample: V3,
)
    requires
        0 <= fuzz <= i64::MAX,
        in_unit_ball(sample),
    ensures
        metal_direction(fuzz, r_in, rec, sample) == v_add(
            v_reflect(v_unit(r_in.direction), rec.normal),
            v_scale(fuzz, sample),
        ),
        within(v_scale(fuzz, sample), fuzz),
{
    lemma_scaled_by_fuzz(fuzz, sample.x);
    lemma_scaled_by_fuzz(fuzz, sample.y);
    lemma_scaled_by_fuzz(fuzz, sample.z);
}

/// The fuzz bounds the distance between the new direction of a metal and
/// the mirror direction: the drawn point scaled by the fuzz is not longer
/// than the fuzz, but for rounding, which adds six units of the grid and two
/// more for every whole unit of the fuzz.
pub proof fn lemma_fuzz_bounds_the_distance(fuzz: int, sample: V3)
    requires
        0 <= fuzz <= i64::MAX,
        in_unit_ball(sample),
    ensures
        v_length(v_scale(fuzz, sample)) <= fuzz + 2 * (fuzz / (ONE_RAW as int)) + 6,
{
    let one: int = 0x1_0000_0000;
    let ss: int = 0x1_0000_0000_0000_0000;
    let p = v_scale(fuzz, sample);
    let mx = lemma_square_of_a_coordinate(sample.x);
    let my = lemma_square_of_a_coordinate(sample.y);
    let mz = lemma_square_of_a_coordinate(sample.z);
    assert(v_length_squared(sample) == mx + my + mz);
    let x = sample.x * sample.x + sample.y * sample.y + sample.z * sample.z;
    assert(x <= ss + 2 * one);
    lemma_scaled_square(fuzz, sample.x);
    lemma_scaled_square(fuzz, sample.y);
    lemma_scaled_square(fuzz, sample.z);
    let ff = fuzz * fuzz;
    let e = p.x * p.x + p.y * p.y + p.z * p.z;
    assert(ss * e == ss * (p.x * p.x) + ss * (p.y * p.y) + ss * (p.z * p.z)) by (nonlinear_arith)
        requires
            e == p.x * p.x + p.y * p.y + p.z * p.z,
    ;
    assert(ff * x == ff * (sample.x * sample.x) + ff * (sample.y * sample.y) + ff * (sample.z
        * sample.z)) by (nonlinear_arith)
        requires
            x == sample.x * sample.x + sample.y * sample.y + sample.z * sample.z,
    ;
    assert(ff * x <= ff * (ss + 2 * one)) by (nonlinear_arith)
        requires
            x <= ss + 2 * one,
            ff == fuzz * fuzz,
    ;
    assert(ss * e <= ss * ff + 2 * one * ff + 6 * ss * fuzz + 3 * ss) by (nonlinear_arith)
        requires
            ss * e <= ff * x + 6 * ss * fuzz + 3 * ss,
            ff * x <= ff * (ss + 2 * one),
    ;
    let g = fuzz / one;
    lemma_fundamental_div_mod(fuzz, one);
    let r = fuzz + 2 * g + 7;
    let w = one * r;
    let v = one * fuzz + 2 * fuzz + 5 * one;
    assert(w >= v);
    assert(v * v == ss * ff + 4 * one * ff + 4 * ff + 10 * ss * fuzz + 20 * one * fuzz + 25 * ss)
        by (nonlinear_arith)
        requires
            v == one * fuzz + 2 * fuzz + 5 * one,
            ff == fuzz * fuzz,
            one == 0x1_0000_0000,
            ss == 0x1_0000_0000_0000_0000,
    ;
    assert(w * w >= v * v) by (nonlinear_arith)
        requires
            w >= v,
            v >= 0,
    ;
    assert(w * w == ss * (r * r)) by (nonlinear_arith)
        requires
            w == one * r,
            one == 0x1_0000_0000,
            ss == 0x1_0000_0000_0000_0000,
    ;
    assert(ff >= 0) by (nonlinear_arith)
        requires
            ff == fuzz * fuzz,
    ;
    assert(e < r * r);
    assert(e >= 0) by (nonlinear_arith)
        requires
            e == p.x * p.x + p.y * p.y + p.z * p.z,
    ;
    lemma_isqrt_below(e, r);
}

/// The square of a coordinate of a point of the unit cube, as the squared
/// length adds it up.
proof fn lemma_square_of_a_coordinate(c: int) -> (m: int)
    requires
        -ONE_RAW <= c <= ONE_RAW,
    ensures
        m == fx_mul(c, c),
        0 <= m <= ONE_RAW,
        m * 0x1_0000_0000 <= c * c < m * 0x1_0000_0000 + 0x1_0000_0000,
{
    let one: int = 0x1_0000_0000;
    let sq = c * c;
    assert(0 <= sq <= one * one) by (nonlinear_arith)
        requires
            sq == c * c,
            -one <= c <= one,
    ;
    lemma_fundamental_div_mod(sq, one);
    sq / one
}

/// The square of a coordinate scaled by the fuzz, against the square of the
/// exact product.
proof fn lemma_scaled_square(fuzz: int, c: int)
    requires
        0 <= fuzz <= i64::MAX,
        -ONE_RAW <= c <= ONE_RAW,
    ensures
        0x1_0000_0000_0000_0000 * (fx_mul(fuzz, c) * fx_mul(fuzz, c)) <= (fuzz * fuzz) * (c * c)
            + 0x2_0000_0000_0000_0000 * fuzz + 0x1_0000_0000_0000_0000,
{
    let one: int = 0x1_0000_0000;
    let ss: int = 0x1_0000_0000_0000_0000;
    lemma_scaled_by_fuzz(fuzz, c);
    let p = fuzz * c;
    let e = p / one;
    lemma_fundamental_div_mod(p, one);
    let y = one * e;
    assert(p - one < y <= p);
    let reach = fuzz * one;
    assert(-reach <= p <= reach) by (nonlinear_arith)
        requires
            p == fuzz * c,
            reach == fuzz * one,
            fuzz >= 0,
            -one <= c <= one,
    ;
    assert(-fuzz <= e <= fuzz);
    assert(e == fx_mul(fuzz, c));
    let pp = p * p;
    assert(y * y <= pp + 2 * one * reach + ss) by (nonlinear_arith)
        requires
            p - one < y <= p,
            -reach <= p <= reach,
            pp == p * p,
            one == 0x1_0000_0000,
            ss == 0x1_0000_0000_0000_0000,
    ;
    assert(y * y == ss * (e * e)) by (nonlinear_arith)
        requires
            y == one * e,
            one == 0x1_0000_0000,
            ss == 0x1_0000_0000_0000_0000,
    ;
    assert(pp == (fuzz * fuzz) * (c * c)) by (nonlinear_arith)
        requires
            pp == p * p,
            p == fuzz * c,
    ;
    assert(2 * one * reach == 0x2_0000_0000_0000_0000 * fuzz) by (nonlinear_arith)
        requires
            reach == fuzz * one,
            one == 0x1_0000_0000,
    ;
}

/// A coordinate of a point of the unit cube, scaled by the fuzz, is at most
/// the fuzz in magnitude.
proof fn lemma_scaled_by_fuzz(fuzz: int, c: int)
    requires
        0 <= fuzz <= i64::MAX,
        -ONE_RAW <= c <= ONE_RAW,
    ensures
        -fuzz <= fx_mul(fuzz, c) <= fuzz,
{
    let one: int = 0x1_0000_0000;
    let p = fuzz * c;
    assert(-(fuzz * one) <= p <= fuzz * one) by (nonlinear_arith)
        requires
            p == fuzz * c,
            fuzz >= 0,
            -one <= c <= one,
    ;
    assert(fuzz * one == one * fuzz) by (nonlinear_arith);
    lemma_fundamental_div_mod(p, one);
}

/// A metal absorbs the ray exactly if the new direction does not leave the
/// surface; a ray that it scatters is attenuated by its albedo and starts at
/// the hit point.
pub proof fn lemma_metal_scatter(albedo: V3, fuzz: int, r_in: RayModel, rec: HitModel, sample: V3)
    ensures
        metal_scatter(albedo, fuzz, r_in, rec, sample) is None <==> v_dot(
            metal_direction(fuzz, r_in, rec, sample),
            rec.normal,
        ) <= 0,
        metal_scatter(albedo, fuzz, r_in, rec, sample) matches Some(s) ==> s.0 == albedo
            && s.1.origin == rec.p && s.1.direction == metal_direction(fuzz, r_in, rec, sample)
            && s.1.direction != v_zero(),
{
    let direction = metal_direction(fuzz, r_in, rec, sample);
    if v_dot(direction, rec.normal) > 0 {
        lemma_dot_nonzero(direction, rec.normal);
    }
}

/// The model of what a scattering query returned.
pub open spec fn scatter_view(r: Option<(Vec3, Ray)>) -> Option<(V3, RayModel)> {
    match r {
        Some((attenuation, scattered)) => Some((attenuation@, scattered@)),
        None => None,
    }
}

/// A diffuse material. Its albedo is the share of the incoming light that it
/// reflects in each channel.
#[derive(Clone, Copy, Debug)]
pub struct Lambertian {
    albedo: Vec3,
}

impl Lambertian {
    #[verifier::type_invariant]
    /// Every channel of the albedo lies between 0 and 1.
    pub open spec fn well_formed(self) -> bool {
        in_unit_cube(self.albedo())
    }

    /// The model of the albedo.
    pub closed spec fn albedo(self) -> V3 {
        self.albedo@
    }

    /// The diffuse material with the albedo `color`, whose channels lie
    /// between 0 and 1.
    pub fn new(color: Vec3) -> (r: Lambertian)
        requires
            in_unit_cube(color@),
        ensures
            r.albedo() == color@,
    {
        Lambertian { albedo: color }
    }

    /// Scatters the ray that hit at `rec` into the direction of the surface
    /// normal plus `unit`, or along the normal where the two cancel.
    pub fn scatter_with(&self, rec: &HitRecord, unit: Vec3) -> (r: (Vec3, Ray))
        requires
            rec@.wf(),
        ensures
            (r.0@, r.1@) == lambertian_scatter(self.albedo(), rec@, unit@),
            in_unit_cube(r.0@),
    {
        proof {
            use_type_invariant(self);
        }
        let mut scatter_direction = rec.normal + unit;
        if scatter_direction.near_zero() {
            scatter_direction = rec.normal;
        }
        (self.albedo, Ray::from(rec.p, scatter_direction))
    }

    /// Scatters the ray that hit at `rec` into a random direction around the
    /// surface normal. A diffuse surface never absorbs a ray.
    pub fn scatter(&self, r_in: &Ray, rec: &HitRecord, sampler: &mut Sampler) -> (r: Option<
        (Vec3, Ray),
    >)
        requires
            rec@.wf(),
        ensures
            r is Some,
            lambertian_outcome(self.albedo(), rec@, scatter_view(r)),
            r matches Some(s) ==> in_unit_cube(s.0@),
    {
        let unit = Vec3::random_unit_vector(sampler);
        let scattered = self.scatter_with(rec, unit);
        let out = Some(scattered);
        assert(lambertian_draw(self.albedo(), rec@, scatter_view(out), unit@));
        out
    }
}

/// A reflecting material. Its albedo tints the reflection; its fuzz is the
/// radius of the sphere from which the mirror direction is perturbed.
#[derive(Clone, Copy, Debug)]
pub struct Metal {
    albedo: Vec3,
    fuzz: Fixed,
}

impl Metal {
    #[verifier::type_invariant]
    /// Every channel of the albedo lies between 0 and 1, and the fuzz is
    /// not negative.
    pub open spec fn well_formed(self) -> bool {
        in_unit_cube(self.albedo()) && self.fuzz() >= 0
    }

    /// The model of the albedo.
    pub closed spec fn albedo(self) -> V3 {
        self.albedo@
    }

    /// The raw value of the fuzz.
    pub closed spec fn fuzz(self) -> int {
        self.fuzz@
    }

    /// The metal with the albedo `color`, whose channels lie between 0 and 1,
    /// and the given fuzz, which is not negative.
    pub fn new(color: Vec3, fuzz: Fixed) -> (r: Metal)
        requires
            in_unit_cube(color@),
            fuzz@ >= 0,
        ensures
            r.albedo() == color@,
            r.fuzz() == fuzz@,
    {
        Metal { albedo: color, fuzz }
    }

    /// Reflects the ray `r_in` that hit at `rec`, perturbed by `fuzz * sample`.
    /// The ray is absorbed where the new direction does not leave the surface.
    pub fn scatter_with(&self, r_in: &Ray, rec: &HitRecord, sample: Vec3) -> (r: Option<
        (Vec3, Ray),
    >)
        ensures
            scatter_view(r) == metal_scatter(self.albedo(), self.fuzz(), r_in@, rec@, sample@),
            r matches Some(s) ==> in_unit_cube(s.0@),
    {
        proof {
            use_type_invariant(self);
        }
        let reflected = reflect(unit_vector(r_in.direction()), rec.normal);
        let direction = reflected + sample * self.fuzz;
        if dot(direction, rec.normal).raw > 0 {
            proof {
                lemma_dot_nonzero(direction@, rec.normal@);
            }
            Some((self.albedo, Ray::from(rec.p, direction)))
        } else {
            None
        }
    }

    /// Reflects the ray `r_in` that hit at `rec`, perturbed by a random point
    /// of the sphere of radius `fuzz`.
    pub fn scatter(&self, r_in: &Ray, rec: &HitRecord, sampler: &mut Sampler) -> (r: Option<
        (Vec3, Ray),
    >)
        ensures
            metal_outcome(self.albedo(), self.fuzz(), r_in@, rec@, scatter_view(r)),
            r matches Some(s) ==> in_unit_cube(s.0@),
    {
        let sample = Vec3::random_in_unit_sphere(sampler);
        let out = self.scatter_with(r_in, rec, sample);
        assert(metal_draw(self.albedo(), self.fuzz(), r_in@, rec@, scatter_view(out), sample@));
        out
    }
}

/// The material of a surface.
#[derive(Clone, Copy, Debug)]
pub enum Material {
    Lambertian(Lambertian),
    Metal(Metal),
}

impl View for Material {
    type V = MaterialModel;

    open spec fn view(&self) -> MaterialModel {
        match self {
            Material::Lambertian(m) => MaterialModel::Lambertian { albedo: m.albedo() },
            Material::Metal(m) => MaterialModel::Metal { albedo: m.albedo(), fuzz: m.fuzz() },
        }
    }
}

impl Material {
    /// Asks the material what becomes of the ray `r_in` that hit a surface at
    /// `rec`: the attenuation and the scattered ray, or nothing where the ray
    /// is absorbed.
    pub fn scatter(&self, r_in: &Ray, rec: &HitRecord, sampler: &mut Sampler) -> (r: Option<
        (Vec3, Ray),
    >)
        requires
            rec@.wf(),
        ensures
            scatter_outcome(self@, r_in@, rec@, scatter_view(r)),
            r matches Some(s) ==> in_unit_cube(s.0@),
    {
        match self {
            Material::Lambertian(m) => m.scatter(r_in, rec, sampler),
            Material::Metal(m) => m.scatter(r_in, rec, sampler),
        }
    }
}

} // verus!
