//! On which side a ray meets a sphere, in spite of rounding.
use crate::fixed::{
    fx_add, fx_div, fx_mul, fx_neg, fx_sqrt, fx_sub, lemma_floor_div_monotonic, lemma_isqrt_at_least,
    lemma_isqrt_bounds, sat,
};
use crate::ray::{ray_at, RayModel};
use crate::sphere::{
    discriminant, is_short, lemma_roots_ordered, outward_normal, sphere_hit, sphere_root,
    sphere_roots, SphereModel,
};
use crate::hit_record::lemma_negated_product;
use crate::vec3::{
    lemma_dot_nonzero, lemma_length_squared_nonnegative, v_dot, v_length_squared, v_neg, v_sub,
    v_zero, V3,
};
use crate::vector_laws::within;
use vstd::arithmetic::div_mod::lemma_fundamental_div_mod;
use vstd::prelude::*;

verus! {

/// Largest magnitude of the coordinates of a scene, and largest radius, for
/// which the laws of this file are stated: `2^43`, which is 2048.
pub const SCENE_BOUND: i64 = 0x800_0000_0000;

/// Largest magnitude of the components of a direction for which the laws of
/// this file are stated: `2^33`, which is 2.
pub const DIRECTION_BOUND: i64 = 0x2_0000_0000;

/// Least radius for which the laws of this file are stated: `2^24`, which is
/// 1/256.
pub const RADIUS_BOUND: i64 = 0x100_0000;

/// Largest ray parameter for which the laws of this file are stated: `2^44`,
/// which is 4096.
pub const PARAMETER_BOUND: i64 = 0x1000_0000_0000;

/// The sphere and the ray lie within the bounds within which no operation of
/// the intersection saturates.
pub open spec fn bounded_scene(s: SphereModel, r: RayModel) -> bool {
    &&& within(r.origin, SCENE_BOUND as int)
    &&& within(s.center, SCENE_BOUND as int)
    &&& within(r.direction, DIRECTION_BOUND as int)
    &&& RADIUS_BOUND <= s.radius <= SCENE_BOUND
}

/// The origin of the ray lies inside the sphere: it is nearer to the center
/// than the radius, as the intersection measures it.
pub open spec fn starts_inside(s: SphereModel, r: RayModel) -> bool {
    fx_sub(v_length_squared(v_sub(r.origin, s.center)), fx_mul(s.radius, s.radius)) < 0
}

/// The exact dot product of two vectors, which is not rounded.
spec fn exact_dot(u: V3, v: V3) -> int {
    u.x * v.x + u.y * v.y + u.z * v.z
}

/// The sum of the components of `v` that are above zero.
spec fn positive_part(v: V3) -> int {
    (if v.x > 0 {
        v.x
    } else {
        0
    }) + (if v.y > 0 {
        v.y
    } else {
        0
    }) + (if v.z > 0 {
        v.z
    } else {
        0
    })
}

/// The sum of the magnitudes of the components of `v` that are below zero.
spec fn negative_part(v: V3) -> int {
    (if v.x < 0 {
        -v.x
    } else {
        0
    }) + (if v.y < 0 {
        -v.y
    } else {
        0
    }) + (if v.z < 0 {
        -v.z
    } else {
        0
    })
}

/// The product of two scalars within bounds does not saturate: it is the
/// exact product `a * b / 2^32`, rounded down.
pub(crate) proof fn lemma_scaled(a: int, b: int, bound_a: int, bound_b: int) -> (q: int)
    requires
        0 <= bound_a,
        0 <= bound_b,
        -bound_a <= a <= bound_a,
        -bound_b <= b <= bound_b,
        bound_a * bound_b <= 0x4000_0000_0000_0000_0000_0000,
    ensures
        q == fx_mul(a, b),
        q * 0x1_0000_0000 <= a * b < q * 0x1_0000_0000 + 0x1_0000_0000,
        -(bound_a * bound_b) <= a * b <= bound_a * bound_b,
{
    let p = a * b;
    assert(-(bound_a * bound_b) <= p <= bound_a * bound_b) by (nonlinear_arith)
        requires
            p == a * b,
            -bound_a <= a <= bound_a,
            -bound_b <= b <= bound_b,
    ;
    p / 0x1_0000_0000
}

/// One component of the argument below: what the component `d` of the
/// direction adds to the dot product of the direction with the outward normal
/// at the point of the ray at parameter `t`.
proof fn lemma_outward_component(o: int, c: int, d: int, t: int, r: int) -> (e: int)
    requires
        -SCENE_BOUND <= o <= SCENE_BOUND,
        -SCENE_BOUND <= c <= SCENE_BOUND,
        -DIRECTION_BOUND <= d <= DIRECTION_BOUND,
        0 < t <= PARAMETER_BOUND,
        RADIUS_BOUND <= r <= SCENE_BOUND,
    ensures
        e == fx_mul(d, fx_div(o + fx_mul(t, d) - c, r)),
        -0x400_0000_0000_0000 <= e <= 0x400_0000_0000_0000,
        -0x100_0000_0000_0000 <= fx_div(o + fx_mul(t, d) - c, r) <= 0x100_0000_0000_0000,
        (e * 0x1_0000_0000 + 0x1_0000_0000) * r > ((o - c) * d) * 0x1_0000_0000 + t * (d * d) - (
        if d > 0 {
            d
        } else {
            0
        }) * (0x1_0000_0000 + r),
        (e * 0x1_0000_0000) * r <= ((o - c) * d) * 0x1_0000_0000 + t * (d * d) + (if d < 0 {
            -d
        } else {
            0
        }) * (0x1_0000_0000 + r),
{
    let s: int = 0x1_0000_0000;
    let pos = if d > 0 {
        d
    } else {
        0
    };
    // the step along the ray
    let td = t * d;
    assert(-0x4000_0000_0000_0000_0000 <= td <= 0x4000_0000_0000_0000_0000) by (nonlinear_arith)
        requires
            td == t * d,
            0 < t <= 0x1000_0000_0000,
            -0x4_0000_0000 <= d <= 0x4_0000_0000,
    ;
    let x = td / s;
    assert(fx_mul(t, d) == x);
    assert(x * s <= td < x * s + s);
    // the vector from the center to the point
    let q = o + x - c;
    // the component of the normal
    let qs = q * s;
    let n = qs / r;
    lemma_fundamental_div_mod(qs, r);
    assert(qs == n * r + qs % r) by (nonlinear_arith)
        requires
            qs == r * n + qs % r,
    ;
    assert(-0x100_0000_0000_0000 <= n <= 0x100_0000_0000_0000) by (nonlinear_arith)
        requires
            qs == n * r + qs % r,
            0 <= qs % r < r,
            r >= 0x100_0000,
            -0x1_0000_0000_0000_0000_0000 <= qs <= 0x1_0000_0000_0000_0000_0000,
    ;
    assert(fx_div(q, r) == n);
    // its product with the component of the direction
    let dn = d * n;
    assert(-0x400_0000_0000_0000_0000_0000 <= dn <= 0x400_0000_0000_0000_0000_0000)
        by (nonlinear_arith)
        requires
            dn == d * n,
            -0x4_0000_0000 <= d <= 0x4_0000_0000,
            -0x100_0000_0000_0000 <= n <= 0x100_0000_0000_0000,
    ;
    let e = dn / s;
    assert(fx_mul(d, n) == e);
    assert(e * s <= dn < e * s + s);
    // d * n * r >= d * q * s - pos * r
    let dnr = dn * r;
    let dqs = d * qs;
    assert(dnr >= dqs - pos * r) by (nonlinear_arith)
        requires
            dnr == dn * r,
            dn == d * n,
            dqs == d * qs,
            qs == n * r + qs % r,
            0 <= qs % r < r,
            pos == if d > 0 {
                d
            } else {
                0
            },
    ;
    // d * x * s >= t * d * d - pos * s
    let dxs = (d * x) * s;
    let tdd = t * (d * d);
    assert(dxs >= tdd - pos * s) by (nonlinear_arith)
        requires
            dxs == (d * x) * s,
            tdd == t * (d * d),
            x * s <= t * d < x * s + s,
            s == 0x1_0000_0000,
            pos == if d > 0 {
                d
            } else {
                0
            },
    ;
    let ocd = (o - c) * d;
    assert(dqs == ocd * s + dxs) by (nonlinear_arith)
        requires
            dqs == d * qs,
            qs == q * s,
            q == o + x - c,
            ocd == (o - c) * d,
            dxs == (d * x) * s,
    ;
    assert((e * s + s) * r > dnr) by (nonlinear_arith)
        requires
            dn < e * s + s,
            dnr == dn * r,
            r >= 1,
    ;
    assert(pos * r + pos * s == pos * (0x1_0000_0000 + r)) by (nonlinear_arith)
        requires
            s == 0x1_0000_0000,
    ;
    // and the same from above
    let neg = if d < 0 {
        -d
    } else {
        0
    };
    assert(dnr <= dqs + neg * r) by (nonlinear_arith)
        requires
            dnr == dn * r,
            dn == d * n,
            dqs == d * qs,
            qs == n * r + qs % r,
            0 <= qs % r < r,
            neg == if d < 0 {
                -d
            } else {
                0
            },
    ;
    assert(dxs <= tdd + neg * s) by (nonlinear_arith)
        requires
            dxs == (d * x) * s,
            tdd == t * (d * d),
            x * s <= t * d < x * s + s,
            s == 0x1_0000_0000,
            neg == if d < 0 {
                -d
            } else {
                0
            },
    ;
    assert((e * s) * r <= dnr) by (nonlinear_arith)
        requires
            e * s <= dn,
            dnr == dn * r,
            r >= 1,
    ;
    assert(neg * r + neg * s == neg * (0x1_0000_0000 + r)) by (nonlinear_arith)
        requires
            s == 0x1_0000_0000,
    ;
    e
}

/// How the dot product of the direction of a ray with the outward normal at
/// the point of the ray at parameter `t` compares with its exact value, which
/// is `(D . (O - C) + t * D . D) / radius`: rounding takes less than 3 units
/// and what the positive components of the direction add.
proof fn lemma_direction_against_normal(s: SphereModel, r: RayModel, t: int)
    requires
        bounded_scene(s, r),
        0 < t <= PARAMETER_BOUND,
    ensures
        (v_dot(r.direction, outward_normal(s, ray_at(r, t))) * 0x1_0000_0000 + 3 * 0x1_0000_0000)
            * s.radius > exact_dot(v_sub(r.origin, s.center), r.direction) * 0x1_0000_0000 + t
            * exact_dot(r.direction, r.direction) - positive_part(r.direction) * (0x1_0000_0000
            + s.radius),
        (v_dot(r.direction, outward_normal(s, ray_at(r, t))) * 0x1_0000_0000) * s.radius
            <= exact_dot(v_sub(r.origin, s.center), r.direction) * 0x1_0000_0000 + t * exact_dot(
            r.direction,
            r.direction,
        ) + negative_part(r.direction) * (0x1_0000_0000 + s.radius),
        -0xc00_0000_0000_0000 <= v_dot(r.direction, outward_normal(s, ray_at(r, t)))
            <= 0xc00_0000_0000_0000,
        within(outward_normal(s, ray_at(r, t)), 0x100_0000_0000_0000),
        v_sub(r.origin, s.center) == (V3 {
            x: r.origin.x - s.center.x,
            y: r.origin.y - s.center.y,
            z: r.origin.z - s.center.z,
        }),
{
    let one: int = 0x1_0000_0000;
    let o = r.origin;
    let c = s.center;
    let d = r.direction;
    let rad = s.radius;
    let ex = lemma_outward_component(o.x, c.x, d.x, t, rad);
    let ey = lemma_outward_component(o.y, c.y, d.y, t, rad);
    let ez = lemma_outward_component(o.z, c.z, d.z, t, rad);
    // the steps along the ray, the point and the normal do not saturate
    let sx = lemma_scaled(t, d.x, PARAMETER_BOUND as int, DIRECTION_BOUND as int);
    let sy = lemma_scaled(t, d.y, PARAMETER_BOUND as int, DIRECTION_BOUND as int);
    let sz = lemma_scaled(t, d.z, PARAMETER_BOUND as int, DIRECTION_BOUND as int);
    let n = outward_normal(s, ray_at(r, t));
    assert(n.x == fx_div(o.x + fx_mul(t, d.x) - c.x, rad));
    assert(n.y == fx_div(o.y + fx_mul(t, d.y) - c.y, rad));
    assert(n.z == fx_div(o.z + fx_mul(t, d.z) - c.z, rad));
    let g = ex + ey + ez;
    assert(v_dot(d, n) == g);
    let oc = v_sub(o, c);
    let h = exact_dot(oc, d);
    let aa = exact_dot(d, d);
    let taa = t * aa;
    assert(taa == t * (d.x * d.x) + t * (d.y * d.y) + t * (d.z * d.z)) by (nonlinear_arith)
        requires
            taa == t * aa,
            aa == d.x * d.x + d.y * d.y + d.z * d.z,
    ;
    let px = if d.x > 0 {
        d.x
    } else {
        0
    };
    let py = if d.y > 0 {
        d.y
    } else {
        0
    };
    let pz = if d.z > 0 {
        d.z
    } else {
        0
    };
    let p = positive_part(d);
    let k = one + rad;
    assert(p * k == px * k + py * k + pz * k) by (nonlinear_arith)
        requires
            p == px + py + pz,
    ;
    let total = (g * one + 3 * one) * rad;
    assert(total == (ex * one + one) * rad + (ey * one + one) * rad + (ez * one + one) * rad)
        by (nonlinear_arith)
        requires
            total == (g * one + 3 * one) * rad,
            g == ex + ey + ez,
    ;
    assert(h * one == ((o.x - c.x) * d.x) * one + ((o.y - c.y) * d.y) * one + ((o.z - c.z) * d.z)
        * one) by (nonlinear_arith)
        requires
            h == oc.x * d.x + oc.y * d.y + oc.z * d.z,
            oc.x == o.x - c.x,
            oc.y == o.y - c.y,
            oc.z == o.z - c.z,
    ;
    let nx = if d.x < 0 {
        -d.x
    } else {
        0
    };
    let ny = if d.y < 0 {
        -d.y
    } else {
        0
    };
    let nz = if d.z < 0 {
        -d.z
    } else {
        0
    };
    let m = negative_part(d);
    assert(m * k == nx * k + ny * k + nz * k) by (nonlinear_arith)
        requires
            m == nx + ny + nz,
    ;
    let under = (g * one) * rad;
    assert(under == (ex * one) * rad + (ey * one) * rad + (ez * one) * rad) by (nonlinear_arith)
        requires
            under == (g * one) * rad,
            g == ex + ey + ez,
    ;
}

/// One component of the outward normal has the sign of the component of the
/// radius that it was divided from.
proof fn lemma_component_along_the_radius(q: int, r: int)
    requires
        r > 0,
    ensures
        fx_mul(fx_div(q, r), q) >= 0,
        fx_mul(fx_neg(fx_div(q, r)), q) <= 0,
        fx_div(q, r) != 0 ==> fx_mul(fx_neg(fx_div(q, r)), q) <= -1,
{
    let one: int = 0x1_0000_0000;
    let qs = q * one;
    let f = qs / r;
    lemma_fundamental_div_mod(qs, r);
    assert(q >= 0 ==> f >= 0) by (nonlinear_arith)
        requires
            qs == r * f + qs % r,
            0 <= qs % r < r,
            qs == q * one,
            one == 0x1_0000_0000,
    ;
    assert(q < 0 ==> f <= -1) by (nonlinear_arith)
        requires
            qs == r * f + qs % r,
            0 <= qs % r < r,
            qs == q * one,
            one == 0x1_0000_0000,
    ;
    let n = fx_div(q, r);
    let m = fx_neg(n);
    assert(n == sat(f));
    let along = n * q;
    let against = m * q;
    assert(along >= 0) by (nonlinear_arith)
        requires
            along == n * q,
            q >= 0 ==> n >= 0,
            q < 0 ==> n <= -1,
    ;
    assert(against <= 0 && (n != 0 ==> against <= -1)) by (nonlinear_arith)
        requires
            against == m * q,
            q >= 0 ==> m <= 0,
            q < 0 ==> m >= 1,
            n != 0 ==> m != 0 && q != 0,
    ;
    lemma_fundamental_div_mod(along, one);
    lemma_fundamental_div_mod(against, one);
}

/// The outward normal points along the radius from the center to the point,
/// and the reversed normal points back to the center: the dot product of the
/// first with the radius is not below zero, and that of the second is below
/// zero wherever the normal does not vanish. This holds of every sphere and
/// every point, as rounding and saturation keep the sign of a component.
pub proof fn lemma_normal_along_the_radius(s: SphereModel, p: V3)
    requires
        s.radius > 0,
    ensures
        v_dot(outward_normal(s, p), v_sub(p, s.center)) >= 0,
        v_dot(v_neg(outward_normal(s, p)), v_sub(p, s.center)) <= 0,
        outward_normal(s, p) != v_zero() ==> v_dot(
            v_neg(outward_normal(s, p)),
            v_sub(p, s.center),
        ) <= -1,
{
    let q = v_sub(p, s.center);
    lemma_component_along_the_radius(q.x, s.radius);
    lemma_component_along_the_radius(q.y, s.radius);
    lemma_component_along_the_radius(q.z, s.radius);
}

/// The larger of the two parameters at which the ray meets the sphere.
pub open spec fn larger_root(s: SphereModel, r: RayModel) -> int {
    match sphere_roots(s, r) {
        Some((near, far)) => far,
        None => 0,
    }
}

/// A ray that starts inside a sphere meets the sphere from inside, whatever
/// its direction. The equation has two roots, and the smaller one is not
/// above zero. Where it lies below the range, which it does for every range
/// that starts above zero, the sphere reports a hit exactly if the larger
/// root lies in the range, and at that root. What it reports is not the front
/// face, and the normal of the record is the outward normal reversed: it
/// points back into the sphere, against the radius to the hit and against the
/// direction of the ray. This holds in a scene within the bounds, for a
/// direction that is not short; the side is stated of a hit at a parameter
/// above zero and up to `PARAMETER_BOUND`.
pub proof fn lemma_ray_from_inside_meets_the_back_face(
    s: SphereModel,
    r: RayModel,
    t_min: int,
    t_max: int,
)
    requires
        bounded_scene(s, r),
        !is_short(r.direction),
        starts_inside(s, r),
        0 <= t_min,
    ensures
        sphere_roots(s, r) matches Some((near, far)) && near <= 0,
        smaller_root(s, r) < t_min && !(t_min <= larger_root(s, r) <= t_max) ==> sphere_hit(
            s,
            r,
            t_min,
            t_max,
        ) is None,
        smaller_root(s, r) < t_min && t_min <= larger_root(s, r) <= t_max && 0 < larger_root(s, r)
            <= PARAMETER_BOUND ==> sphere_hit(s, r, t_min, t_max) is Some,
        smaller_root(s, r) < t_min ==> (sphere_hit(s, r, t_min, t_max) matches Some(h) ==> h.t
            == larger_root(s, r) && h.p == ray_at(r, h.t) && (0 < h.t <= PARAMETER_BOUND ==> {
            &&& !h.front_face
            &&& h.normal == v_neg(outward_normal(s, h.p))
            &&& v_dot(h.normal, v_sub(h.p, s.center)) <= -1
            &&& v_dot(r.direction, h.normal) <= -1
        })),
{
    let one: int = 0x1_0000_0000;
    let d = r.direction;
    let rad = s.radius;
    let oc = v_sub(r.origin, s.center);
    assert(oc == V3 {
        x: r.origin.x - s.center.x,
        y: r.origin.y - s.center.y,
        z: r.origin.z - s.center.z,
    });
    // the coefficients of the equation
    let ax = lemma_scaled(d.x, d.x, DIRECTION_BOUND as int, DIRECTION_BOUND as int);
    let ay = lemma_scaled(d.y, d.y, DIRECTION_BOUND as int, DIRECTION_BOUND as int);
    let az = lemma_scaled(d.z, d.z, DIRECTION_BOUND as int, DIRECTION_BOUND as int);
    let a = v_length_squared(d);
    assert(a == ax + ay + az);
    let aa = exact_dot(d, d);
    assert(a * one <= aa);
    lemma_length_squared_nonnegative(d);
    let hx = lemma_scaled(oc.x, d.x, 2 * SCENE_BOUND, DIRECTION_BOUND as int);
    let hy = lemma_scaled(oc.y, d.y, 2 * SCENE_BOUND, DIRECTION_BOUND as int);
    let hz = lemma_scaled(oc.z, d.z, 2 * SCENE_BOUND, DIRECTION_BOUND as int);
    let hb = v_dot(oc, d);
    assert(hb == hx + hy + hz);
    let h = exact_dot(oc, d);
    assert(hb * one <= h);
    let bound_hb: int = 0x6000_0000_0000;
    assert(-bound_hb <= hb <= bound_hb);
    let rr = lemma_scaled(rad, rad, SCENE_BOUND as int, SCENE_BOUND as int);
    lemma_length_squared_nonnegative(oc);
    let c = fx_sub(v_length_squared(oc), fx_mul(rad, rad));
    assert(-0x40_0000_0000_0000 <= c <= -1);
    let hh = lemma_scaled(hb, hb, bound_hb, bound_hb);
    assert(hb * hb >= 0) by (nonlinear_arith);
    assert(hh >= 0);
    assert(a >= 1);
    let ac = lemma_scaled(a, c, 0xc_0000_0000, 0x40_0000_0000_0000);
    assert(a * c <= -1) by (nonlinear_arith)
        requires
            a >= 1,
            c <= -1,
    ;
    assert(ac <= -1);
    let disc = discriminant(a, hb, c);
    assert(disc == hh - ac);
    let sq = fx_sqrt(disc);
    lemma_isqrt_bounds(disc * one);
    // the root of the discriminant is at least the half of b
    assert(disc * one > hb * hb);
    if sq < hb {
        assert((sq + 1) * (sq + 1) <= hb * hb) by (nonlinear_arith)
            requires
                0 <= sq + 1 <= hb,
        ;
    }
    if sq < -hb {
        assert((sq + 1) * (sq + 1) <= hb * hb) by (nonlinear_arith)
            requires
                0 <= sq + 1 <= -hb,
        ;
    }
    assert(sq >= hb && sq >= -hb);
    assert(0x1_0000int * 0x1_0000int == 0x1_0000_0000int) by (nonlinear_arith);
    lemma_isqrt_at_least(disc * one, 0x1_0000);
    assert(sq <= 0x1_0000_0000_0000) by {
        if sq > 0x1_0000_0000_0000 {
            assert(sq * sq > 0x1_0000_0000_0000 * 0x1_0000_0000_0000) by (nonlinear_arith)
                requires
                    sq > 0x1_0000_0000_0000,
            ;
        }
    }
    // the smaller root is not above zero, so the hit is at the larger one
    let low = fx_sub(fx_neg(hb), sq);
    assert(low == -hb - sq);
    lemma_floor_div_monotonic(low * one, 0, a);
    let near = fx_div(low, a);
    assert(near <= 0);
    let num = fx_add(fx_neg(hb), sq);
    assert(num == sq - hb);
    let t = fx_div(num, a);
    assert(sphere_roots(s, r) == Some((near, t)));
    assert(larger_root(s, r) == t);
    if t_min <= t <= t_max && 0 < t <= PARAMETER_BOUND {
        let ns = num * one;
        lemma_fundamental_div_mod(ns, a);
        assert(ns == (ns / a) * a + ns % a) by (nonlinear_arith)
            requires
                ns == a * (ns / a) + ns % a,
        ;
        assert(t == ns / a);
        let ta = t * a;
        assert(ta > ns - a);
        // the direction points along the outward normal at the hit
        lemma_direction_against_normal(s, r, t);
        let n = outward_normal(s, ray_at(r, t));
        let g = v_dot(d, n);
        let p = positive_part(d);
        let k = one + rad;
        assert(0 <= p <= 3 * DIRECTION_BOUND);
        assert(p * k <= (3 * DIRECTION_BOUND) * k) by (nonlinear_arith)
            requires
                0 <= p <= 3 * DIRECTION_BOUND,
                k >= 0,
        ;
        let taa = t * aa;
        assert(taa >= ta * one) by (nonlinear_arith)
            requires
                taa == t * aa,
                ta == t * a,
                a * one <= aa,
                t > 0,
        ;
        if g <= 0 {
            let total = (g * one + 3 * one) * rad;
            assert(total <= (3 * one) * rad) by (nonlinear_arith)
                requires
                    total == (g * one + 3 * one) * rad,
                    g <= 0,
                    rad >= 0,
                    one == 0x1_0000_0000,
            ;
            assert(h * one >= (hb * one) * one) by (nonlinear_arith)
                requires
                    hb * one <= h,
                    one == 0x1_0000_0000,
            ;
            assert(ta * one > (ns - a) * one) by (nonlinear_arith)
                requires
                    ta > ns - a,
                    one == 0x1_0000_0000,
            ;
            assert((hb * one) * one + (ns - a) * one == (sq * one) * one - a * one)
                by (nonlinear_arith)
                requires
                    ns == num * one,
                    num == sq - hb,
            ;
            assert((sq * one) * one >= 0x1_0000 * 0x1_0000_0000_0000_0000) by (nonlinear_arith)
                requires
                    sq >= 0x1_0000,
                    one == 0x1_0000_0000,
            ;
            assert((3 * DIRECTION_BOUND) * k <= 0x6_0000_0000 * 0x801_0000_0000)
                by (nonlinear_arith)
                requires
                    k == one + rad,
                    rad <= 0x800_0000_0000,
                    one == 0x1_0000_0000,
                    DIRECTION_BOUND == 0x2_0000_0000,
            ;
            assert(false);
        }
        lemma_dot_nonzero(d, n);
        lemma_normal_along_the_radius(s, ray_at(r, t));
        lemma_negated_product(d.x, n.x);
        lemma_negated_product(d.y, n.y);
        lemma_negated_product(d.z, n.z);
        let ex = lemma_scaled(d.x, n.x, DIRECTION_BOUND as int, 0x100_0000_0000_0000);
        let ey = lemma_scaled(d.y, n.y, DIRECTION_BOUND as int, 0x100_0000_0000_0000);
        let ez = lemma_scaled(d.z, n.z, DIRECTION_BOUND as int, 0x100_0000_0000_0000);
        let fx = lemma_scaled(d.x, -n.x, DIRECTION_BOUND as int, 0x100_0000_0000_0000);
        let fy = lemma_scaled(d.y, -n.y, DIRECTION_BOUND as int, 0x100_0000_0000_0000);
        let fz = lemma_scaled(d.z, -n.z, DIRECTION_BOUND as int, 0x100_0000_0000_0000);
    }
}

/// The discriminant of the equation of the intersection of the ray with the
/// sphere. It is above zero for a ray that crosses the sphere, and zero for
/// one that grazes it on the grid.
pub open spec fn ray_discriminant(s: SphereModel, r: RayModel) -> int {
    let oc = v_sub(r.origin, s.center);
    discriminant(
        v_length_squared(r.direction),
        v_dot(oc, r.direction),
        fx_sub(v_length_squared(oc), fx_mul(s.radius, s.radius)),
    )
}

/// The smaller of the two parameters at which the ray meets the sphere.
pub open spec fn smaller_root(s: SphereModel, r: RayModel) -> int {
    match sphere_roots(s, r) {
        Some((near, far)) => near,
        None => 0,
    }
}

/// A ray that crosses a sphere enters it at the smaller root and leaves it at
/// the larger one: at the smaller root the direction opposes the outward
/// normal, at the larger one it runs along it, and the two roots differ.
/// This holds of roots above zero and up to `PARAMETER_BOUND`, in a scene
/// within the bounds and for a direction that is not short.
pub proof fn lemma_crossing_ray_enters_and_leaves(s: SphereModel, r: RayModel)
    requires
        bounded_scene(s, r),
        !is_short(r.direction),
        ray_discriminant(s, r) >= 1,
    ensures
        sphere_roots(s, r) is Some,
        smaller_root(s, r) <= larger_root(s, r),
        0 < larger_root(s, r) <= PARAMETER_BOUND ==> smaller_root(s, r) < larger_root(s, r),
        0 < smaller_root(s, r) <= PARAMETER_BOUND ==> v_dot(
            r.direction,
            outward_normal(s, ray_at(r, smaller_root(s, r))),
        ) <= -1,
        0 < larger_root(s, r) <= PARAMETER_BOUND ==> v_dot(
            r.direction,
            outward_normal(s, ray_at(r, larger_root(s, r))),
        ) >= 1,
{
    let one: int = 0x1_0000_0000;
    let d = r.direction;
    let rad = s.radius;
    let oc = v_sub(r.origin, s.center);
    assert(oc == V3 {
        x: r.origin.x - s.center.x,
        y: r.origin.y - s.center.y,
        z: r.origin.z - s.center.z,
    });
    // the coefficients of the equation
    let ax = lemma_scaled(d.x, d.x, DIRECTION_BOUND as int, DIRECTION_BOUND as int);
    let ay = lemma_scaled(d.y, d.y, DIRECTION_BOUND as int, DIRECTION_BOUND as int);
    let az = lemma_scaled(d.z, d.z, DIRECTION_BOUND as int, DIRECTION_BOUND as int);
    let a = v_length_squared(d);
    assert(a == ax + ay + az);
    let aa = exact_dot(d, d);
    assert(a * one <= aa < a * one + 3 * one);
    lemma_length_squared_nonnegative(d);
    assert(1 <= a <= 0xc_0000_0000);
    let hx = lemma_scaled(oc.x, d.x, 2 * SCENE_BOUND, DIRECTION_BOUND as int);
    let hy = lemma_scaled(oc.y, d.y, 2 * SCENE_BOUND, DIRECTION_BOUND as int);
    let hz = lemma_scaled(oc.z, d.z, 2 * SCENE_BOUND, DIRECTION_BOUND as int);
    let hb = v_dot(oc, d);
    assert(hb == hx + hy + hz);
    let h = exact_dot(oc, d);
    assert(hb * one <= h < hb * one + 3 * one);
    let bound_hb: int = 0x6000_0000_0000;
    assert(-bound_hb <= hb <= bound_hb);
    let rr = lemma_scaled(rad, rad, SCENE_BOUND as int, SCENE_BOUND as int);
    let lx = lemma_scaled(oc.x, oc.x, 2 * SCENE_BOUND, 2 * SCENE_BOUND);
    let ly = lemma_scaled(oc.y, oc.y, 2 * SCENE_BOUND, 2 * SCENE_BOUND);
    let lz = lemma_scaled(oc.z, oc.z, 2 * SCENE_BOUND, 2 * SCENE_BOUND);
    lemma_length_squared_nonnegative(oc);
    let c = fx_sub(v_length_squared(oc), fx_mul(rad, rad));
    assert(-0x40_0000_0000_0000 <= c <= 0x300_0000_0000_0000);
    let hh = lemma_scaled(hb, hb, bound_hb, bound_hb);
    assert(hb * hb >= 0) by (nonlinear_arith);
    assert(hh >= 0);
    let ac = lemma_scaled(a, c, 0xc_0000_0000, 0x300_0000_0000_0000);
    let disc = discriminant(a, hb, c);
    assert(disc == hh - ac);
    assert(disc == ray_discriminant(s, r));
    let sq = fx_sqrt(disc);
    lemma_isqrt_bounds(disc * one);
    assert(0x1_0000int * 0x1_0000int == 0x1_0000_0000int) by (nonlinear_arith);
    lemma_isqrt_at_least(disc * one, 0x1_0000);
    assert(sq <= 0x1_0000_0000_0000) by {
        if sq > 0x1_0000_0000_0000 {
            assert(sq * sq > 0x1_0000_0000_0000 * 0x1_0000_0000_0000) by (nonlinear_arith)
                requires
                    sq > 0x1_0000_0000_0000,
            ;
        }
    }
    let low = fx_sub(fx_neg(hb), sq);
    assert(low == -hb - sq);
    let num = fx_add(fx_neg(hb), sq);
    assert(num == sq - hb);
    let near = fx_div(low, a);
    let far = fx_div(num, a);
    assert(sphere_roots(s, r) == Some((near, far)));
    assert(smaller_root(s, r) == near);
    assert(larger_root(s, r) == far);
    lemma_roots_ordered(s, r);
    let ls = low * one;
    let ns = num * one;
    lemma_fundamental_div_mod(ls, a);
    lemma_fundamental_div_mod(ns, a);
    assert(ls == (ls / a) * a + ls % a) by (nonlinear_arith)
        requires
            ls == a * (ls / a) + ls % a,
    ;
    assert(ns == (ns / a) * a + ns % a) by (nonlinear_arith)
        requires
            ns == a * (ns / a) + ns % a,
    ;
    // the two roots differ
    assert(ns - ls >= 2 * a) by (nonlinear_arith)
        requires
            ns == num * one,
            ls == low * one,
            num - low == 2 * sq,
            sq >= 0x1_0000,
            a <= 0xc_0000_0000,
            one == 0x1_0000_0000,
    ;
    assert(ls / a < ns / a) by (nonlinear_arith)
        requires
            ls == (ls / a) * a + ls % a,
            ns == (ns / a) * a + ns % a,
            0 <= ls % a < a,
            0 <= ns % a < a,
            ns - ls >= 2 * a,
            a >= 1,
    ;
    let p = positive_part(d);
    let m = negative_part(d);
    let k = one + rad;
    assert(0 <= p <= 3 * DIRECTION_BOUND);
    assert(0 <= m <= 3 * DIRECTION_BOUND);
    assert(p * k <= (3 * DIRECTION_BOUND) * k) by (nonlinear_arith)
        requires
            0 <= p <= 3 * DIRECTION_BOUND,
            k >= 0,
    ;
    assert(m * k <= (3 * DIRECTION_BOUND) * k) by (nonlinear_arith)
        requires
            0 <= m <= 3 * DIRECTION_BOUND,
            k >= 0,
    ;
    assert((3 * DIRECTION_BOUND) * k <= 0x6_0000_0000 * 0x801_0000_0000) by (nonlinear_arith)
        requires
            k == one + rad,
            0 <= rad <= 0x800_0000_0000,
            one == 0x1_0000_0000,
            DIRECTION_BOUND == 0x2_0000_0000,
    ;
    assert((sq * one) * one >= 0x1_0000 * 0x1_0000_0000_0000_0000) by (nonlinear_arith)
        requires
            sq >= 0x1_0000,
            one == 0x1_0000_0000,
    ;
    if 0 < far <= PARAMETER_BOUND {
        let t = far;
        assert(t == ns / a);
        let ta = t * a;
        assert(ta > ns - a);
        lemma_direction_against_normal(s, r, t);
        let g = v_dot(d, outward_normal(s, ray_at(r, t)));
        let taa = t * aa;
        assert(taa >= ta * one) by (nonlinear_arith)
            requires
                taa == t * aa,
                ta == t * a,
                a * one <= aa,
                t > 0,
        ;
        if g <= 0 {
            let total = (g * one + 3 * one) * rad;
            assert(total <= (3 * one) * rad) by (nonlinear_arith)
                requires
                    total == (g * one + 3 * one) * rad,
                    g <= 0,
                    rad >= 0,
                    one == 0x1_0000_0000,
            ;
            assert(h * one >= (hb * one) * one) by (nonlinear_arith)
                requires
                    hb * one <= h,
                    one == 0x1_0000_0000,
            ;
            assert(ta * one > (ns - a) * one) by (nonlinear_arith)
                requires
                    ta > ns - a,
                    one == 0x1_0000_0000,
            ;
            assert((hb * one) * one + (ns - a) * one == (sq * one) * one - a * one)
                by (nonlinear_arith)
                requires
                    ns == num * one,
                    num == sq - hb,
            ;
            assert(false);
        }
        assert(near < far);
    }
    if 0 < near <= PARAMETER_BOUND {
        let t = near;
        assert(t == ls / a);
        let ta = t * a;
        assert(ta <= ls);
        lemma_direction_against_normal(s, r, t);
        let g = v_dot(d, outward_normal(s, ray_at(r, t)));
        let taa = t * aa;
        assert(taa <= ta * one + 3 * (one * t)) by (nonlinear_arith)
            requires
                taa == t * aa,
                ta == t * a,
                aa < a * one + 3 * one,
                t > 0,
        ;
        if g >= 0 {
            let under = (g * one) * rad;
            assert(under >= 0) by (nonlinear_arith)
                requires
                    under == (g * one) * rad,
                    g >= 0,
                    rad >= 0,
                    one == 0x1_0000_0000,
            ;
            assert(h * one < (hb * one) * one + 3 * (one * one)) by (nonlinear_arith)
                requires
                    h < hb * one + 3 * one,
                    one == 0x1_0000_0000,
            ;
            assert(ta * one <= ls * one) by (nonlinear_arith)
                requires
                    ta <= ls,
                    one == 0x1_0000_0000,
            ;
            assert((hb * one) * one + ls * one == -((sq * one) * one)) by (nonlinear_arith)
                requires
                    ls == low * one,
                    low == -hb - sq,
            ;
            assert(one * one == 0x1_0000_0000_0000_0000) by (nonlinear_arith)
                requires
                    one == 0x1_0000_0000,
            ;
            assert(one * t <= 0x1_0000_0000 * 0x1000_0000_0000) by (nonlinear_arith)
                requires
                    0 < t <= 0x1000_0000_0000,
                    one == 0x1_0000_0000,
            ;
            assert(false);
        }
    }
}

/// A sphere reports a hit exactly if a root of the equation lies in the
/// range, and the side that it reports is the side that the ray meets: the
/// front face at the smaller root, the back face at the larger one. The
/// normal of the record opposes the ray; on the front face it points along
/// the radius to the hit, on the back face against it. This holds in a scene
/// within the bounds, for a direction that is not short, for a range above
/// zero whose root is not above `PARAMETER_BOUND`, and for a ray that does
/// not graze the sphere on the grid.
pub proof fn lemma_hit_iff_root(s: SphereModel, r: RayModel, t_min: int, t_max: int)
    requires
        bounded_scene(s, r),
        !is_short(r.direction),
        ray_discriminant(s, r) != 0,
        0 < t_min,
        sphere_root(s, r, t_min, t_max) matches Some(t) ==> t <= PARAMETER_BOUND,
    ensures
        sphere_hit(s, r, t_min, t_max) is Some <==> sphere_root(s, r, t_min, t_max) is Some,
        sphere_hit(s, r, t_min, t_max) matches Some(h) ==> {
            &&& h.front_face <==> h.t == smaller_root(s, r)
            &&& !h.front_face <==> h.t == larger_root(s, r)
            &&& v_dot(r.direction, h.normal) <= -1
            &&& h.front_face ==> v_dot(h.normal, v_sub(h.p, s.center)) >= 0
            &&& !h.front_face ==> v_dot(h.normal, v_sub(h.p, s.center)) <= -1
        },
{
    match sphere_roots(s, r) {
        Some((near, far)) => {
            lemma_crossing_ray_enters_and_leaves(s, r);
            match sphere_root(s, r, t_min, t_max) {
                Some(t) => {
                    lemma_direction_against_normal(s, r, t);
                    lemma_normal_along_the_radius(s, ray_at(r, t));
                    let n = outward_normal(s, ray_at(r, t));
                    lemma_dot_nonzero(r.direction, n);
                    if t != near {
                        lemma_negated_product(r.direction.x, n.x);
                        lemma_negated_product(r.direction.y, n.y);
                        lemma_negated_product(r.direction.z, n.z);
                        let ex = lemma_scaled(
                            r.direction.x,
                            n.x,
                            DIRECTION_BOUND as int,
                            0x100_0000_0000_0000,
                        );
                        let ey = lemma_scaled(
                            r.direction.y,
                            n.y,
                            DIRECTION_BOUND as int,
                            0x100_0000_0000_0000,
                        );
                        let ez = lemma_scaled(
                            r.direction.z,
                            n.z,
                            DIRECTION_BOUND as int,
                            0x100_0000_0000_0000,
                        );
                        let fx = lemma_scaled(
                            r.direction.x,
                            -n.x,
                            DIRECTION_BOUND as int,
                            0x100_0000_0000_0000,
                        );
                        let fy = lemma_scaled(
                            r.direction.y,
                            -n.y,
                            DIRECTION_BOUND as int,
                            0x100_0000_0000_0000,
                        );
                        let fz = lemma_scaled(
                            r.direction.z,
                            -n.z,
                            DIRECTION_BOUND as int,
                            0x100_0000_0000_0000,
                        );
                    }
                },
                None => {},
            }
        },
        None => {},
    }
}

} // verus!
