//! Spheres, and where a ray meets one.
use crate::fixed::{
    fx_add, fx_div, fx_mul, fx_neg, fx_sqrt, fx_sub, lemma_floor_div_monotonic,
    lemma_fx_square_nonnegative, lemma_isqrt_bounds, sat, saturate, Fixed, ONE_RAW,
};
use crate::hit_record::{faces_front, facing_normal, HitModel, HitRecord};
use crate::hittable::Hittable;
use crate::material::{Material, MaterialModel};
use crate::ray::{ray_at, Ray, RayModel};
use crate::vec3::{
    dot, lemma_length_squared_nonnegative, v_div, v_dot, v_length_squared, v_sub, v_zero, Vec3, V3,
};
use core::ops::Neg;
use vstd::prelude::*;

verus! {

/// Raw value of one half. A short direction is stretched until its largest
/// component is one half or more, before the equation of the intersection is
/// solved.
pub const HALF_RAW: i64 = 0x8000_0000;

/// Mathematical model of a sphere.
pub struct SphereModel {
    pub center: V3,
    pub radius: int,
    pub material: MaterialModel,
}

/// The discriminant of the equation `a t^2 + 2 half_b t + c = 0`.
pub open spec fn discriminant(a: int, half_b: int, c: int) -> int {
    fx_sub(fx_mul(half_b, half_b), fx_mul(a, c))
}

/// The two roots of the equation `|oc + t d|^2 = radius^2`, the smaller one
/// first, where `oc` leads from the center of the sphere to the origin of the
/// ray and `d` is the direction of the ray. There are none where the ray
/// misses the sphere, nor for a direction whose squared length vanishes on
/// the grid.
pub open spec fn quadratic_roots(oc: V3, d: V3, radius: int) -> Option<(int, int)> {
    let a = v_length_squared(d);
    let half_b = v_dot(oc, d);
    let c = fx_sub(v_length_squared(oc), fx_mul(radius, radius));
    let disc = discriminant(a, half_b, c);
    if a == 0 || disc < 0 {
        None
    } else {
        Some(
            (
                fx_div(fx_sub(fx_neg(half_b), fx_sqrt(disc)), a),
                fx_div(fx_add(fx_neg(half_b), fx_sqrt(disc)), a),
            ),
        )
    }
}

/// The direction is so short that the square of its length vanishes on the
/// grid: every component is below `2^-16` in magnitude.
pub open spec fn is_short(d: V3) -> bool {
    v_length_squared(d) == 0
}

/// The greatest magnitude among the components of `d`.
pub open spec fn largest_component(d: V3) -> int {
    let x = if d.x < 0 {
        -d.x
    } else {
        d.x
    };
    let y = if d.y < 0 {
        -d.y
    } else {
        d.y
    };
    let z = if d.z < 0 {
        -d.z
    } else {
        d.z
    };
    if x >= y && x >= z {
        x
    } else if y >= z {
        y
    } else {
        z
    }
}

/// The power of two by which a direction is stretched whose largest
/// component is `m`: the least one that brings `m` to one half or more.
pub open spec fn stretch_factor(m: int) -> int
    decreases 0x1_0000_0000 - m,
{
    if m <= 0 || m >= 0x8000_0000 {
        1
    } else {
        2 * stretch_factor(2 * m)
    }
}

/// The direction for which the equation is solved: a short direction
/// stretched, so that its largest component lies between one half and one, and
/// any other direction as it is.
pub open spec fn stretched(d: V3) -> V3 {
    if is_short(d) {
        let k = stretch_factor(largest_component(d));
        V3 { x: d.x * k, y: d.y * k, z: d.z * k }
    } else {
        d
    }
}

/// The parameter `t` of the ray along `d` stretched, as a parameter of the ray
/// along `d` itself.
pub open spec fn unstretched(d: V3, t: int) -> int {
    if is_short(d) {
        sat(t * stretch_factor(largest_component(d)))
    } else {
        t
    }
}

/// The factor by which a direction is stretched is a whole number that
/// brings its largest component to one half or more, and not to one.
pub proof fn lemma_stretch_factor(m: int)
    requires
        0 < m < HALF_RAW,
    ensures
        1 <= stretch_factor(m) < 2 * HALF_RAW,
        HALF_RAW <= m * stretch_factor(m) < 2 * HALF_RAW,
    decreases HALF_RAW - m,
{
    if 2 * m < HALF_RAW {
        lemma_stretch_factor(2 * m);
        let k = stretch_factor(2 * m);
        assert(m * (2 * k) == (2 * m) * k) by (nonlinear_arith);
        assert(2 * k < 2 * HALF_RAW) by (nonlinear_arith)
            requires
                m * (2 * k) < 2 * HALF_RAW,
                m >= 1,
                k >= 1,
        ;
    } else {
        assert(stretch_factor(2 * m) == 1);
    }
}

/// The two parameters at which the ray meets the sphere, the smaller one
/// first: the roots of `|O + t D - C|^2 = r^2`. For a short direction the
/// equation is solved for the direction stretched, which meets the sphere at
/// the same points, and the roots are scaled back. There are no roots where
/// the ray misses the sphere.
pub open spec fn sphere_roots(s: SphereModel, r: RayModel) -> Option<(int, int)> {
    let oc = v_sub(r.origin, s.center);
    match quadratic_roots(oc, stretched(r.direction), s.radius) {
        Some((near, far)) => Some((unstretched(r.direction, near), unstretched(r.direction, far))),
        None => None,
    }
}

/// The parameter at which the sphere is hit: the smaller root if it lies in
/// the range, else the larger one if that does.
pub open spec fn sphere_root(s: SphereModel, r: RayModel, t_min: int, t_max: int) -> Option<int> {
    match sphere_roots(s, r) {
        Some((near, far)) => if t_min <= near <= t_max {
            Some(near)
        } else if t_min <= far <= t_max {
            Some(far)
        } else {
            None
        },
        None => None,
    }
}

/// The normal of the sphere at `p` that points away from the center.
pub open spec fn outward_normal(s: SphereModel, p: V3) -> V3 {
    v_div(v_sub(p, s.center), s.radius)
}

/// The record of the hit at the parameter `t`. There is none where the normal
/// vanishes on the grid.
pub open spec fn sphere_hit_at(s: SphereModel, r: RayModel, t: int) -> Option<HitModel> {
    let p = ray_at(r, t);
    let n = outward_normal(s, p);
    if n == v_zero() {
        None
    } else {
        Some(
            HitModel {
                p,
                normal: facing_normal(r.direction, n),
                t,
                front_face: faces_front(r.direction, n),
                material: s.material,
            },
        )
    }
}

/// What the sphere reports for a ray and a range of its parameter.
pub open spec fn sphere_hit(s: SphereModel, r: RayModel, t_min: int, t_max: int) -> Option<
    HitModel,
> {
    match sphere_root(s, r, t_min, t_max) {
        Some(t) => sphere_hit_at(s, r, t),
        None => None,
    }
}

/// The smaller root of the equation is not above the larger one.
pub proof fn lemma_quadratic_roots_ordered(oc: V3, d: V3, radius: int)
    ensures
        quadratic_roots(oc, d, radius) matches Some((near, far)) ==> near <= far,
{
    let a = v_length_squared(d);
    let half_b = v_dot(oc, d);
    let c = fx_sub(v_length_squared(oc), fx_mul(radius, radius));
    let disc = discriminant(a, half_b, c);
    lemma_length_squared_nonnegative(d);
    if a != 0 && disc >= 0 {
        lemma_isqrt_bounds(disc * ONE_RAW);
        let low = fx_sub(fx_neg(half_b), fx_sqrt(disc));
        let high = fx_add(fx_neg(half_b), fx_sqrt(disc));
        lemma_floor_div_monotonic(low * ONE_RAW, high * ONE_RAW, a);
    }
}

/// The smaller root is not above the larger one.
pub proof fn lemma_roots_ordered(s: SphereModel, r: RayModel)
    ensures
        sphere_roots(s, r) matches Some((near, far)) ==> near <= far,
{
    let oc = v_sub(r.origin, s.center);
    lemma_quadratic_roots_ordered(oc, stretched(r.direction), s.radius);
    let m = largest_component(r.direction);
    let k = stretch_factor(m);
    if 0 < m < HALF_RAW {
        lemma_stretch_factor(m);
    }
    assert(k >= 1);
    match quadratic_roots(oc, stretched(r.direction), s.radius) {
        Some((near, far)) => {
            assert(near * k <= far * k) by (nonlinear_arith)
                requires
                    near <= far,
                    k >= 1,
            ;
        },
        None => {},
    }
}

/// No component of a short direction reaches `2^-16` in magnitude.
pub proof fn lemma_short_components(d: V3)
    requires
        is_short(d),
    ensures
        -0x1_0000 < d.x < 0x1_0000,
        -0x1_0000 < d.y < 0x1_0000,
        -0x1_0000 < d.z < 0x1_0000,
{
    lemma_fx_square_nonnegative(d.x);
    lemma_fx_square_nonnegative(d.y);
    lemma_fx_square_nonnegative(d.z);
    lemma_square_below_one(d.x);
    lemma_square_below_one(d.y);
    lemma_square_below_one(d.z);
}

/// A scalar whose square vanishes on the grid is below `2^-16` in magnitude.
proof fn lemma_square_below_one(x: int)
    requires
        fx_mul(x, x) <= 0,
    ensures
        -0x1_0000 < x < 0x1_0000,
{
    if x >= 0x1_0000 || x <= -0x1_0000 {
        assert(x * x >= 0x1_0000_0000) by (nonlinear_arith)
            requires
                x >= 0x1_0000 || x <= -0x1_0000,
        ;
    }
}

/// A reported hit lies within the range that was asked for, and its normal is
/// not the zero vector.
pub proof fn lemma_sphere_hit_in_range(s: SphereModel, r: RayModel, t_min: int, t_max: int)
    ensures
        sphere_hit(s, r, t_min, t_max) matches Some(h) ==> t_min <= h.t <= t_max && h.wf(),
{
}

/// Asking with a smaller upper bound gives the same hit if it lies below that
/// bound, and none otherwise.
pub proof fn lemma_sphere_hit_shrunk(
    s: SphereModel,
    r: RayModel,
    t_min: int,
    bound: int,
    t_max: int,
)
    requires
        bound <= t_max,
    ensures
        sphere_hit(s, r, t_min, bound) == (match sphere_hit(s, r, t_min, t_max) {
            Some(h) => if h.t <= bound {
                Some(h)
            } else {
                None
            },
            None => None,
        }),
{
    lemma_roots_ordered(s, r);
}

/// A sphere. Its radius is positive.
#[derive(Clone, Copy, Debug)]
pub struct Sphere {
    center: Vec3,
    radius: Fixed,
    material: Material,
}

impl View for Sphere {
    type V = SphereModel;

    closed spec fn view(&self) -> SphereModel {
        SphereModel { center: self.center@, radius: self.radius@, material: self.material@ }
    }
}

impl Sphere {
    #[verifier::type_invariant]
    /// The radius of a sphere is positive.
    pub open spec fn well_formed(self) -> bool {
        self@.radius > 0
    }

    /// The sphere around `center` with the radius `r`, which is positive.
    pub fn new(center: Vec3, r: Fixed, material: Material) -> (s: Sphere)
        requires
            r@ > 0,
        ensures
            s@ == (SphereModel { center: center@, radius: r@, material: material@ }),
    {
        Sphere { center, radius: r, material }
    }

    pub fn center(&self) -> (r: Vec3)
        ensures
            r@ == self@.center,
    {
        self.center
    }

    pub fn radius(&self) -> (r: Fixed)
        ensures
            r@ == self@.radius,
            r@ > 0,
    {
        proof {
            use_type_invariant(self);
        }
        self.radius
    }

    pub fn material(&self) -> (r: Material)
        ensures
            r@ == self@.material,
    {
        self.material
    }
}

impl Hittable for Sphere {
    open spec fn hit_model(&self, ray: RayModel, t_min: int, t_max: int) -> Option<HitModel> {
        sphere_hit(self@, ray, t_min, t_max)
    }

    fn hit(&self, r: &Ray, t_min: Fixed, t_max: Fixed) -> (res: Option<HitRecord>) {
        proof {
            use_type_invariant(self);
        }
        let oc = r.origin() - self.center;
        let short = r.direction().length_squared().raw == 0;
        let roots = if short {
            let factor = stretch_of(r.direction());
            match solve(oc, stretch(r.direction(), factor), self.radius) {
                Some((near, far)) => Some((unstretch(near, factor), unstretch(far, factor))),
                None => None,
            }
        } else {
            solve(oc, r.direction(), self.radius)
        };
        assert(roots_view(roots) == sphere_roots(self@, r@));
        let root = match roots {
            Some((near, far)) => {
                if t_min.raw <= near.raw && near.raw <= t_max.raw {
                    near
                } else if t_min.raw <= far.raw && far.raw <= t_max.raw {
                    far
                } else {
                    return None;
                }
            },
            None => {
                return None;
            },
        };
        let p = r.at(root);
        let outward_normal = (p - self.center) / self.radius;
        if outward_normal.x.raw == 0 && outward_normal.y.raw == 0 && outward_normal.z.raw == 0 {
            return None;
        }
        let mut rec = HitRecord::new(p, root, self.material);
        rec.set_face_normal(r, outward_normal);
        Some(rec)
    }
}

/// Solves `|oc + t d|^2 = radius^2` for `t`.
fn solve(oc: Vec3, d: Vec3, radius: Fixed) -> (r: Option<(Fixed, Fixed)>)
    ensures
        roots_view(r) == quadratic_roots(oc@, d@, radius@),
{
    let a = d.length_squared();
    let half_b = dot(oc, d);
    let c = oc.length_squared() - radius * radius;

    let discriminant = half_b * half_b - a * c;
    if a.raw == 0 || discriminant.raw < 0 {
        return None;
    }
    let sqrtd = discriminant.sqrt();
    Some(((half_b.neg() - sqrtd) / a, (half_b.neg() + sqrtd) / a))
}

/// The model of a pair of roots.
pub open spec fn roots_view(r: Option<(Fixed, Fixed)>) -> Option<(int, int)> {
    match r {
        Some((near, far)) => Some((near@, far@)),
        None => None,
    }
}

/// The magnitude of a component of a short direction.
fn magnitude(c: Fixed) -> (r: i64)
    requires
        -0x1_0000 < c@ < 0x1_0000,
    ensures
        r == (if c@ < 0 {
            -c@
        } else {
            c@
        }),
{
    if c.raw < 0 {
        -c.raw
    } else {
        c.raw
    }
}

/// The factor by which the short direction `d` is stretched.
fn stretch_of(d: Vec3) -> (k: i64)
    requires
        is_short(d@),
    ensures
        k == stretch_factor(largest_component(d@)),
        1 <= k < 2 * HALF_RAW,
        largest_component(d@) * k < 2 * HALF_RAW,
{
    proof {
        lemma_short_components(d@);
    }
    let x = magnitude(d.x);
    let y = magnitude(d.y);
    let z = magnitude(d.z);
    let m = if x >= y && x >= z {
        x
    } else if y >= z {
        y
    } else {
        z
    };
    if m == 0 {
        return 1;
    }
    proof {
        lemma_stretch_factor(m as int);
    }
    let mut k: i64 = 1;
    let mut scaled: i64 = m;
    while scaled < HALF_RAW
        invariant
            1 <= k,
            1 <= m,
            1 <= scaled < 2 * HALF_RAW,
            scaled == m * k,
            stretch_factor(m as int) == k * stretch_factor(scaled as int),
        decreases 2 * HALF_RAW - scaled,
    {
        proof {
            let next = stretch_factor(2 * scaled);
            assert(k * (2 * next) == (2 * k) * next) by (nonlinear_arith);
            assert(m * (2 * k) == 2 * (m * k)) by (nonlinear_arith);
            assert(k <= scaled) by (nonlinear_arith)
                requires
                    scaled == m * k,
                    m >= 1,
                    k >= 1,
            ;
        }
        scaled = scaled * 2;
        k = k * 2;
    }
    k
}

/// The short direction `d`, stretched by the factor that belongs to it.
fn stretch(d: Vec3, factor: i64) -> (r: Vec3)
    requires
        is_short(d@),
        factor == stretch_factor(largest_component(d@)),
        1 <= factor < 2 * HALF_RAW,
        largest_component(d@) * factor < 2 * HALF_RAW,
    ensures
        r@ == stretched(d@),
{
    proof {
        lemma_short_components(d@);
        let m = largest_component(d@);
        lemma_stretched_component(d@.x, m, factor as int);
        lemma_stretched_component(d@.y, m, factor as int);
        lemma_stretched_component(d@.z, m, factor as int);
    }
    Vec3::from(
        Fixed::from_raw(d.x.raw * factor),
        Fixed::from_raw(d.y.raw * factor),
        Fixed::from_raw(d.z.raw * factor),
    )
}

/// A component of a direction, stretched, stays below one in magnitude.
proof fn lemma_stretched_component(c: int, m: int, k: int)
    requires
        -m <= c <= m,
        k >= 1,
        m * k < 2 * HALF_RAW,
    ensures
        -2 * HALF_RAW < c * k < 2 * HALF_RAW,
{
    assert(-(m * k) <= c * k <= m * k) by (nonlinear_arith)
        requires
            -m <= c <= m,
            k >= 1,
    ;
}

/// The parameter `t` of the stretched ray as a parameter of the ray itself.
fn unstretch(t: Fixed, factor: i64) -> (r: Fixed)
    requires
        1 <= factor < 2 * HALF_RAW,
    ensures
        r@ == sat(t@ * factor),
{
    assert(-0x8000_0000_0000_0000 * 0x1_0000_0000 <= t.raw * factor <= 0x8000_0000_0000_0000
        * 0x1_0000_0000) by (nonlinear_arith)
        requires
            -0x8000_0000_0000_0000 <= t.raw <= 0x7fff_ffff_ffff_ffff,
            1 <= factor < 0x1_0000_0000,
    ;
    let wide: i128 = (t.raw as i128) * (factor as i128);
    Fixed::from_raw(saturate(wide))
}

} // verus!
