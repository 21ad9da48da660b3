//! How near a reported hit lies to the sphere, and how near the normal of the
//! record is to a unit vector, in spite of rounding.
use crate::fixed::{
    fx_add, fx_div, fx_mul, fx_neg, fx_sqrt, fx_sub, lemma_isqrt_bounds, ONE_RAW,
};
use crate::material::{
    lambertian_scatter, lemma_diffuse_direction_length, lemma_diffuse_ray_leaves_the_surface,
    lemma_mirror_and_the_incoming_ray, metal_scatter,
};
use crate::random::unit_towards;
use crate::ray::{ray_at, RayModel};
use crate::sphere::{
    discriminant, is_short, lemma_sphere_hit_in_range, outward_normal, sphere_hit, sphere_roots,
    SphereModel,
};
use crate::sphere_laws::{
    bounded_scene, lemma_scaled, ray_discriminant, DIRECTION_BOUND, PARAMETER_BOUND, SCENE_BOUND,
};
use crate::vec3::{
    lemma_length_squared_nonnegative, v_dot, v_length, v_length_squared, v_neg, v_sub, v_unit,
    V3,
};
use crate::vector_laws::{exact_product, nearly_unit, within, UNIT_SLACK};
use vstd::arithmetic::div_mod::lemma_fundamental_div_mod;
use vstd::prelude::*;

verus! {

/// The sum of the magnitudes of the components of `v`.
pub open spec fn manhattan(v: V3) -> int {
    (if v.x < 0 {
        -v.x
    } else {
        v.x
    }) + (if v.y < 0 {
        -v.y
    } else {
        v.y
    }) + (if v.z < 0 {
        -v.z
    } else {
        v.z
    })
}

/// A bound on how far the point of the ray at the root `t` may lie from the
/// sphere: on the difference between the square of its distance from the
/// center and the square of the radius, times `2^32` and the squared length
/// `a` of the direction. The terms are what rounding takes from the point,
/// from the square root `sq` of the discriminant, from the root and from the
/// coefficients of the equation.
pub open spec fn root_error(s: SphereModel, r: RayModel, t: int) -> int {
    let a = v_length_squared(r.direction);
    let sq = fx_sqrt(ray_discriminant(s, r));
    let q = v_sub(ray_at(r, t), s.center);
    a * (0x1_0000_0000 * (2 * manhattan(q) + 9)) + 0x2_0000_0000_0000_0000 * sq + 0x2_0000_0000
        * (sq * a) + a * a + 0x1_0000_0000_0000_0000_0000_0000 + a * (0x3_0000_0000_0000_0000
        + 0x6_0000_0000 * t + 3 * (t * t))
}

/// A bound on how far the outward normal at the point of the ray at the root
/// `t` may be from a unit vector: on the difference between the sum of the
/// squares of its components and one, times the squared length `a` of the
/// direction and the square of the radius.
pub open spec fn normal_error(s: SphereModel, r: RayModel, t: int) -> int {
    let a = v_length_squared(r.direction);
    let q = v_sub(ray_at(r, t), s.center);
    0x1_0000_0000 * root_error(s, r, t) + a * (0x2_0000_0000 * (s.radius * manhattan(q)) + 3 * (
    s.radius * s.radius))
}

/// What is left of the equation at a root that was rounded: `a` times the
/// value of `c + 2 half_b t + a t^2` at the root `t`, on the grid.
proof fn lemma_root_residual(
    a: int,
    hb: int,
    c: int,
    hh: int,
    ac: int,
    sq: int,
    num: int,
    t: int,
)
    requires
        a >= 1,
        hh * 0x1_0000_0000 <= hb * hb < hh * 0x1_0000_0000 + 0x1_0000_0000,
        ac * 0x1_0000_0000 <= a * c < ac * 0x1_0000_0000 + 0x1_0000_0000,
        sq >= 0,
        sq * sq <= (hh - ac) * 0x1_0000_0000 < (sq + 1) * (sq + 1),
        num == -hb - sq || num == -hb + sq,
        t * a <= num * 0x1_0000_0000 < t * a + a,
    ensures
        -(2 * 0x1_0000_0000_0000_0000 * sq + 2 * 0x1_0000_0000 * (sq * a) + a * a
            + 0x1_0000_0000_0000_0000_0000_0000) <= a * (0x1_0000_0000_0000_0000 * c + 2
            * 0x1_0000_0000 * (t * hb) + (t * t) * a) <= 2 * 0x1_0000_0000_0000_0000 * sq + 2
            * 0x1_0000_0000 * (sq * a) + a * a + 0x1_0000_0000_0000_0000_0000_0000,
{
    let s: int = 0x1_0000_0000;
    let ss: int = 0x1_0000_0000_0000_0000;
    let beta = num * s - t * a;
    let e = t * a + s * hb;
    let mu = hb * hb - hh * s;
    let nu = a * c - ac * s;
    let disc = hh - ac;
    let gamma = disc * s - sq * sq;
    assert(gamma <= 2 * sq) by (nonlinear_arith)
        requires
            gamma == disc * s - sq * sq,
            disc * s < (sq + 1) * (sq + 1),
    ;
    let g = ss * c + 2 * s * (t * hb) + (t * t) * a;
    let ee = e * e;
    let hbhb = hb * hb;
    let acx = a * c;
    let ta = t * a;
    let shb = s * hb;
    let tt = t * t;
    let thb = t * hb;
    assert(ee == ta * ta + 2 * (ta * shb) + shb * shb) by (nonlinear_arith)
        requires
            ee == e * e,
            e == ta + shb,
    ;
    assert(ta * ta == a * (tt * a)) by (nonlinear_arith)
        requires
            ta == t * a,
            tt == t * t,
    ;
    assert(ta * shb == a * (s * thb)) by (nonlinear_arith)
        requires
            ta == t * a,
            shb == s * hb,
            thb == t * hb,
    ;
    assert(shb * shb == ss * hbhb) by (nonlinear_arith)
        requires
            shb == s * hb,
            hbhb == hb * hb,
            ss == s * s,
    ;
    assert(a * (ss * c) == ss * acx) by (nonlinear_arith)
        requires
            acx == a * c,
    ;
    assert(a * g == a * (ss * c) + 2 * (a * (s * thb)) + a * (tt * a)) by (nonlinear_arith)
        requires
            g == ss * c + 2 * s * thb + tt * a,
    ;
    assert(a * g == ee - ss * hbhb + ss * acx);
    let sqb = sq * beta;
    let bb = beta * beta;
    let sqsq = sq * sq;
    let ssq = s * sq;
    assert(e == ssq - beta || e == -ssq - beta);
    assert(ee == ssq * ssq + bb - 2 * (ssq * beta) || ee == ssq * ssq + bb + 2 * (ssq * beta))
        by (nonlinear_arith)
        requires
            ee == e * e,
            e == ssq - beta || e == -ssq - beta,
            bb == beta * beta,
    ;
    assert(ssq * ssq == ss * sqsq) by (nonlinear_arith)
        requires
            ssq == s * sq,
            sqsq == sq * sq,
            ss == s * s,
    ;
    assert(ssq * beta == s * sqb) by (nonlinear_arith)
        requires
            ssq == s * sq,
            sqb == sq * beta,
    ;
    assert(0 <= sqb <= sq * a) by (nonlinear_arith)
        requires
            sqb == sq * beta,
            0 <= beta < a,
            sq >= 0,
    ;
    assert(0 <= bb <= a * a) by (nonlinear_arith)
        requires
            bb == beta * beta,
            0 <= beta < a,
    ;
    assert(ss * sqsq == ss * (disc * s) - ss * gamma) by (nonlinear_arith)
        requires
            gamma == disc * s - sqsq,
    ;
    assert(ss * hbhb - ss * acx == ss * (disc * s) + ss * (mu - nu)) by (nonlinear_arith)
        requires
            mu == hbhb - hh * s,
            nu == acx - ac * s,
            disc == hh - ac,
    ;
    assert(0 <= ss * gamma <= 2 * ss * sq);
    assert(-(ss * s) <= ss * (mu - nu) <= ss * s);
    assert(a * g == -(ss * gamma) + bb - 2 * (s * sqb) - ss * (mu - nu) || a * g == -(ss * gamma)
        + bb + 2 * (s * sqb) - ss * (mu - nu));
    assert(ss * s == 0x1_0000_0000_0000_0000_0000_0000);
    assert(g == 0x1_0000_0000_0000_0000 * c + 2 * 0x1_0000_0000 * (t * hb) + (t * t) * a);
}

/// The square of a component of the point of the ray at `t`, seen from the
/// center of the sphere, against the square of its exact value.
proof fn lemma_point_component(oc: int, d: int, t: int) -> (q: int)
    requires
        -2 * SCENE_BOUND <= oc <= 2 * SCENE_BOUND,
        -DIRECTION_BOUND <= d <= DIRECTION_BOUND,
        0 < t <= PARAMETER_BOUND,
    ensures
        q == oc + fx_mul(t, d),
        -0x4000_0000_0000 <= q <= 0x4000_0000_0000,
        -(2 * 0x1_0000_0000_0000_0000 * (if q < 0 {
            -q
        } else {
            q
        }) + 3 * 0x1_0000_0000_0000_0000) <= 0x1_0000_0000_0000_0000 * (q * q) - (
        0x1_0000_0000_0000_0000 * (oc * oc) + 2 * 0x1_0000_0000 * (t * (oc * d)) + (t * t) * (d
            * d)) <= 2 * 0x1_0000_0000_0000_0000 * (if q < 0 {
            -q
        } else {
            q
        }) + 3 * 0x1_0000_0000_0000_0000,
{
    let s: int = 0x1_0000_0000;
    let ss: int = 0x1_0000_0000_0000_0000;
    let x = lemma_scaled(t, d, PARAMETER_BOUND as int, DIRECTION_BOUND as int);
    let q = oc + x;
    let td = t * d;
    let delta = td - x * s;
    let w = s * oc + td;
    let aq = if q < 0 {
        -q
    } else {
        q
    };
    assert(s * q == w - delta);
    let ww = w * w;
    let dw = delta * w;
    let dd = delta * delta;
    let qq = q * q;
    assert(ss * qq == ww - 2 * dw + dd) by (nonlinear_arith)
        requires
            s * q == w - delta,
            ww == w * w,
            dw == delta * w,
            dd == delta * delta,
            qq == q * q,
            ss == s * s,
    ;
    assert(-(s * aq + s) <= w <= s * aq + s);
    assert(-(s * (s * aq + s)) <= dw <= s * (s * aq + s)) by (nonlinear_arith)
        requires
            dw == delta * w,
            0 <= delta < s,
            -(s * aq + s) <= w <= s * aq + s,
            aq >= 0,
            s > 0,
    ;
    assert(0 <= dd <= ss) by (nonlinear_arith)
        requires
            dd == delta * delta,
            0 <= delta < s,
            ss == s * s,
    ;
    let soc = s * oc;
    assert(ww == soc * soc + 2 * (soc * td) + td * td) by (nonlinear_arith)
        requires
            ww == w * w,
            w == soc + td,
    ;
    assert(soc * soc == ss * (oc * oc)) by (nonlinear_arith)
        requires
            soc == s * oc,
            ss == s * s,
    ;
    assert(soc * td == s * (t * (oc * d))) by (nonlinear_arith)
        requires
            soc == s * oc,
            td == t * d,
    ;
    assert(td * td == (t * t) * (d * d)) by (nonlinear_arith)
        requires
            td == t * d,
    ;
    assert(s * (s * aq + s) == ss * aq + ss);
    assert(ss * qq - ww == dd - 2 * dw);
    assert(ww == ss * (oc * oc) + 2 * s * (t * (oc * d)) + (t * t) * (d * d));
    assert(ss * qq - ww <= 2 * ss * aq + 3 * ss);
    assert(ss * qq - ww >= -(2 * ss * aq + 3 * ss));
    q
}

/// The square of a component of the outward normal, scaled by the square of
/// the radius, against the square of the component of the point.
proof fn lemma_normal_component(q: int, r: int) -> (n: int)
    requires
        -0x4000_0000_0000 <= q <= 0x4000_0000_0000,
        r >= 1,
    ensures
        n == q * 0x1_0000_0000 / r,
        -(2 * 0x1_0000_0000 * (r * (if q < 0 {
            -q
        } else {
            q
        })) + r * r) <= (r * r) * (n * n) - 0x1_0000_0000_0000_0000 * (q * q) <= 2 * 0x1_0000_0000
            * (r * (if q < 0 {
            -q
        } else {
            q
        })) + r * r,
{
    let s: int = 0x1_0000_0000;
    let ss: int = 0x1_0000_0000_0000_0000;
    let qs = q * s;
    let n = qs / r;
    let kappa = qs % r;
    lemma_fundamental_div_mod(qs, r);
    let rn = r * n;
    assert(rn == qs - kappa);
    let aq = if q < 0 {
        -q
    } else {
        q
    };
    let qk = qs * kappa;
    let kk = kappa * kappa;
    assert(rn * rn == qs * qs - 2 * qk + kk) by (nonlinear_arith)
        requires
            rn == qs - kappa,
            qk == qs * kappa,
            kk == kappa * kappa,
    ;
    assert(rn * rn == (r * r) * (n * n)) by (nonlinear_arith)
        requires
            rn == r * n,
    ;
    assert(qs * qs == ss * (q * q)) by (nonlinear_arith)
        requires
            qs == q * s,
            ss == s * s,
    ;
    let raq = r * aq;
    assert(-(s * raq) <= qk <= s * raq) by (nonlinear_arith)
        requires
            qk == qs * kappa,
            qs == q * s,
            0 <= kappa < r,
            aq == if q < 0 {
                -q
            } else {
                q
            },
            raq == r * aq,
            s > 0,
    ;
    assert(0 <= kk <= r * r) by (nonlinear_arith)
        requires
            kk == kappa * kappa,
            0 <= kappa < r,
    ;
    assert((r * r) * (n * n) - ss * (q * q) == kk - 2 * qk);
    assert(s * raq == 0x1_0000_0000 * (r * aq));
    assert((r * r) * (n * n) - ss * (q * q) <= 2 * s * raq + r * r);
    assert((r * r) * (n * n) - ss * (q * q) >= -(2 * s * raq + r * r));
    assert(n == q * 0x1_0000_0000 / r);
    n
}

/// The point of the ray at a root of the equation lies on the sphere, and the
/// outward normal at it is a unit vector, but for rounding: the two errors
/// are bounded by `root_error` and `normal_error`.
proof fn lemma_root_lies_near_the_sphere(s: SphereModel, r: RayModel, t: int)
    requires
        bounded_scene(s, r),
        !is_short(r.direction),
        sphere_roots(s, r) matches Some((near, far)) && (t == near || t == far),
        0 < t <= PARAMETER_BOUND,
    ensures
        -root_error(s, r, t) <= 0x1_0000_0000 * (v_length_squared(r.direction) * (exact_product(
            v_sub(ray_at(r, t), s.center),
            v_sub(ray_at(r, t), s.center),
        ) - s.radius * s.radius)) <= root_error(s, r, t),
        -normal_error(s, r, t) <= (v_length_squared(r.direction) * (s.radius * s.radius)) * (
        exact_product(outward_normal(s, ray_at(r, t)), outward_normal(s, ray_at(r, t)))
            - 0x1_0000_0000_0000_0000) <= normal_error(s, r, t),
        within(outward_normal(s, ray_at(r, t)), 0x100_0000_0000_0000),
{
    let one: int = 0x1_0000_0000;
    let ss: int = 0x1_0000_0000_0000_0000;
    let d = r.direction;
    let rad = s.radius;
    let oc = v_sub(r.origin, s.center);
    assert(oc == V3 {
        x: r.origin.x - s.center.x,
        y: r.origin.y - s.center.y,
        z: r.origin.z - s.center.z,
    });
    // the coefficients of the equation, rounded and exact
    let ax = lemma_scaled(d.x, d.x, DIRECTION_BOUND as int, DIRECTION_BOUND as int);
    let ay = lemma_scaled(d.y, d.y, DIRECTION_BOUND as int, DIRECTION_BOUND as int);
    let az = lemma_scaled(d.z, d.z, DIRECTION_BOUND as int, DIRECTION_BOUND as int);
    let a = v_length_squared(d);
    assert(a == ax + ay + az);
    let aa = exact_product(d, d);
    let alpha = aa - a * one;
    assert(0 <= alpha < 3 * one);
    lemma_length_squared_nonnegative(d);
    assert(1 <= a <= 0xc_0000_0000);
    let hx = lemma_scaled(oc.x, d.x, 2 * SCENE_BOUND, DIRECTION_BOUND as int);
    let hy = lemma_scaled(oc.y, d.y, 2 * SCENE_BOUND, DIRECTION_BOUND as int);
    let hz = lemma_scaled(oc.z, d.z, 2 * SCENE_BOUND, DIRECTION_BOUND as int);
    let hb = v_dot(oc, d);
    assert(hb == hx + hy + hz);
    let h = exact_product(oc, d);
    let eta = h - hb * one;
    assert(0 <= eta < 3 * one);
    let bound_hb: int = 0x6000_0000_0000;
    assert(-bound_hb <= hb <= bound_hb);
    let r2 = lemma_scaled(rad, rad, SCENE_BOUND as int, SCENE_BOUND as int);
    let rho = rad * rad - r2 * one;
    let lx = lemma_scaled(oc.x, oc.x, 2 * SCENE_BOUND, 2 * SCENE_BOUND);
    let ly = lemma_scaled(oc.y, oc.y, 2 * SCENE_BOUND, 2 * SCENE_BOUND);
    let lz = lemma_scaled(oc.z, oc.z, 2 * SCENE_BOUND, 2 * SCENE_BOUND);
    lemma_length_squared_nonnegative(oc);
    let l2 = v_length_squared(oc);
    assert(l2 == lx + ly + lz);
    let l = exact_product(oc, oc);
    let lambda = l - l2 * one;
    assert(0 <= lambda < 3 * one);
    let c = fx_sub(l2, fx_mul(rad, rad));
    assert(c == l2 - r2);
    assert(-0x40_0000_0000_0000 <= c <= 0x300_0000_0000_0000);
    let hh = lemma_scaled(hb, hb, bound_hb, bound_hb);
    assert(hb * hb >= 0) by (nonlinear_arith);
    let ac = lemma_scaled(a, c, 0xc_0000_0000, 0x300_0000_0000_0000);
    let disc = discriminant(a, hb, c);
    assert(disc == hh - ac);
    assert(disc == ray_discriminant(s, r));
    assert(disc >= 0);
    let sq = fx_sqrt(disc);
    lemma_isqrt_bounds(disc * one);
    assert(sq <= 0x1_0000_0000_0000) by {
        if sq > 0x1_0000_0000_0000 {
            assert(sq * sq > 0x1_0000_0000_0000 * 0x1_0000_0000_0000) by (nonlinear_arith)
                requires
                    sq > 0x1_0000_0000_0000,
            ;
        }
    }
    let low = fx_sub(fx_neg(hb), sq);
    let high = fx_add(fx_neg(hb), sq);
    assert(low == -hb - sq);
    assert(high == sq - hb);
    assert(sphere_roots(s, r) == Some((fx_div(low, a), fx_div(high, a))));
    let num = if t == fx_div(low, a) {
        low
    } else {
        high
    };
    assert(t == fx_div(num, a));
    let ns = num * one;
    lemma_fundamental_div_mod(ns, a);
    assert(ns == (ns / a) * a + ns % a) by (nonlinear_arith)
        requires
            ns == a * (ns / a) + ns % a,
    ;
    assert(t == ns / a);
    lemma_root_residual(a, hb, c, hh, ac, sq, num, t);
    let thb = t * hb;
    let tt = t * t;
    let g = ss * c + 2 * one * thb + tt * a;
    let ag = a * g;
    let b1 = 2 * ss * sq + 2 * one * (sq * a) + a * a + 0x1_0000_0000_0000_0000_0000_0000;
    assert(-b1 <= ag <= b1);
    // the point
    let qx = lemma_point_component(oc.x, d.x, t);
    let qy = lemma_point_component(oc.y, d.y, t);
    let qz = lemma_point_component(oc.z, d.z, t);
    let q = v_sub(ray_at(r, t), s.center);
    assert(q == V3 { x: qx, y: qy, z: qz });
    let q2 = exact_product(q, q);
    let manh = manhattan(q);
    let th = t * h;
    let ta = tt * aa;
    assert(th == t * (oc.x * d.x) + t * (oc.y * d.y) + t * (oc.z * d.z)) by (nonlinear_arith)
        requires
            th == t * h,
            h == oc.x * d.x + oc.y * d.y + oc.z * d.z,
    ;
    assert(ta == tt * (d.x * d.x) + tt * (d.y * d.y) + tt * (d.z * d.z)) by (nonlinear_arith)
        requires
            ta == tt * aa,
            aa == d.x * d.x + d.y * d.y + d.z * d.z,
    ;
    let sw = ss * l + 2 * one * th + ta;
    let e1 = ss * q2 - sw;
    assert(-(2 * ss * manh + 9 * ss) <= e1 <= 2 * ss * manh + 9 * ss);
    // what rounding takes from the coefficients
    let teta = t * eta;
    let talpha = tt * alpha;
    assert(th == one * thb + teta) by (nonlinear_arith)
        requires
            th == t * h,
            thb == t * hb,
            teta == t * eta,
            eta == h - hb * one,
    ;
    assert(ta == one * (tt * a) + talpha) by (nonlinear_arith)
        requires
            ta == tt * aa,
            talpha == tt * alpha,
            alpha == aa - a * one,
    ;
    assert(0 <= teta <= 3 * one * t) by (nonlinear_arith)
        requires
            teta == t * eta,
            0 <= eta < 3 * one,
            t > 0,
    ;
    assert(0 <= talpha <= 3 * one * tt) by (nonlinear_arith)
        requires
            talpha == tt * alpha,
            0 <= alpha < 3 * one,
            tt == t * t,
    ;
    let e3 = ss * (lambda - rho) + 2 * one * teta + talpha;
    let tta = tt * a;
    let rsq = rad * rad;
    assert(sw - ss * rsq == one * g + e3) by (nonlinear_arith)
        requires
            sw == ss * l + 2 * one * th + ta,
            g == ss * c + 2 * one * thb + tta,
            e3 == ss * (lambda - rho) + 2 * one * teta + talpha,
            th == one * thb + teta,
            ta == one * tta + talpha,
            lambda == l - l2 * one,
            rho == rsq - r2 * one,
            c == l2 - r2,
            one == 0x1_0000_0000,
            ss == 0x1_0000_0000_0000_0000,
    ;
    assert(-(ss * one) <= e3 <= 3 * (ss * one) + 6 * ss * t + 3 * one * tt);
    // the two together
    let diff = q2 - rad * rad;
    assert(ss * diff == e1 + one * g + e3);
    let x1 = a * e1;
    let x3 = a * e3;
    let lhs = a * (ss * diff);
    assert(lhs == x1 + one * ag + x3) by (nonlinear_arith)
        requires
            lhs == a * (ss * diff),
            ss * diff == e1 + one * g + e3,
            x1 == a * e1,
            x3 == a * e3,
            ag == a * g,
    ;
    let m1 = 2 * ss * manh + 9 * ss;
    let m3 = 3 * (ss * one) + 6 * ss * t + 3 * one * tt;
    assert(-(a * m1) <= x1 <= a * m1) by (nonlinear_arith)
        requires
            x1 == a * e1,
            -m1 <= e1 <= m1,
            a >= 1,
    ;
    assert(-(a * m3) <= x3 <= a * m3) by (nonlinear_arith)
        requires
            x3 == a * e3,
            -m3 <= e3 <= m3,
            a >= 1,
    ;
    let re = root_error(s, r, t);
    assert(a * m1 + one * b1 + a * m3 == one * re) by (nonlinear_arith)
        requires
            m1 == 2 * ss * manh + 9 * ss,
            m3 == 3 * (ss * one) + 6 * ss * t + 3 * one * tt,
            b1 == 2 * ss * sq + 2 * one * (sq * a) + a * a + 0x1_0000_0000_0000_0000_0000_0000,
            re == a * (0x1_0000_0000 * (2 * manh + 9)) + 0x2_0000_0000_0000_0000 * sq
                + 0x2_0000_0000 * (sq * a) + a * a + 0x1_0000_0000_0000_0000_0000_0000 + a * (
            0x3_0000_0000_0000_0000 + 0x6_0000_0000 * t + 3 * tt),
            one == 0x1_0000_0000,
            ss == 0x1_0000_0000_0000_0000,
    ;
    assert(-(one * re) <= lhs <= one * re);
    let ad = a * diff;
    assert(lhs == one * (one * ad)) by (nonlinear_arith)
        requires
            lhs == a * (ss * diff),
            ad == a * diff,
            ss == one * one,
    ;
    assert(-re <= one * ad <= re);
    // the normal
    let nx = lemma_normal_component(qx, rad);
    let ny = lemma_normal_component(qy, rad);
    let nz = lemma_normal_component(qz, rad);
    let n = outward_normal(s, ray_at(r, t));
    lemma_normal_bound(qx, rad);
    lemma_normal_bound(qy, rad);
    lemma_normal_bound(qz, rad);
    assert(n == V3 { x: nx, y: ny, z: nz });
    let n2 = exact_product(n, n);
    let rr = rad * rad;
    let rm = rad * manh;
    let e4 = rr * n2 - ss * q2;
    assert(rr * n2 == rr * (nx * nx) + rr * (ny * ny) + rr * (nz * nz)) by (nonlinear_arith)
        requires
            n2 == nx * nx + ny * ny + nz * nz,
    ;
    assert(rm == rad * (if qx < 0 {
        -qx
    } else {
        qx
    }) + rad * (if qy < 0 {
        -qy
    } else {
        qy
    }) + rad * (if qz < 0 {
        -qz
    } else {
        qz
    })) by (nonlinear_arith)
        requires
            rm == rad * manh,
            manh == (if qx < 0 {
                -qx
            } else {
                qx
            }) + (if qy < 0 {
                -qy
            } else {
                qy
            }) + (if qz < 0 {
                -qz
            } else {
                qz
            }),
    ;
    let m4 = 2 * one * rm + 3 * rr;
    assert(-m4 <= e4 <= m4);
    let dn = n2 - ss;
    assert(rr * dn == e4 + ss * diff) by (nonlinear_arith)
        requires
            dn == n2 - ss,
            e4 == rr * n2 - ss * q2,
            diff == q2 - rr,
    ;
    let x4 = a * e4;
    assert(-(a * m4) <= x4 <= a * m4) by (nonlinear_arith)
        requires
            x4 == a * e4,
            -m4 <= e4 <= m4,
            a >= 1,
    ;
    let big = (a * rr) * dn;
    assert(big == x4 + lhs) by (nonlinear_arith)
        requires
            big == (a * rr) * dn,
            rr * dn == e4 + ss * diff,
            x4 == a * e4,
            lhs == a * (ss * diff),
    ;
    assert(normal_error(s, r, t) == one * re + a * m4);
}

/// A component of the outward normal does not saturate.
proof fn lemma_normal_bound(q: int, r: int)
    requires
        -0x4000_0000_0000 <= q <= 0x4000_0000_0000,
        0x100_0000 <= r,
    ensures
        fx_div(q, r) == q * 0x1_0000_0000 / r,
        -0x100_0000_0000_0000 <= fx_div(q, r) <= 0x100_0000_0000_0000,
{
    let qs = q * 0x1_0000_0000;
    let n = qs / r;
    lemma_fundamental_div_mod(qs, r);
    assert(qs == n * r + qs % r) by (nonlinear_arith)
        requires
            qs == r * n + qs % r,
    ;
    assert(-0x100_0000_0000_0000 <= n <= 0x100_0000_0000_0000) by (nonlinear_arith)
        requires
            qs == n * r + qs % r,
            0 <= qs % r < r,
            r >= 0x100_0000,
            -0x4000_0000_0000_0000_0000 <= qs <= 0x4000_0000_0000_0000_0000,
    ;
}

/// The point that a sphere reports lies on it, but for rounding: the square
/// of its distance from the center differs from the square of the radius by
/// at most `root_error`, over `2^32` times the squared length of the
/// direction.
pub proof fn lemma_sphere_hit_lies_near_the_sphere(
    s: SphereModel,
    r: RayModel,
    t_min: int,
    t_max: int,
)
    requires
        bounded_scene(s, r),
        !is_short(r.direction),
        0 < t_min,
    ensures
        sphere_hit(s, r, t_min, t_max) matches Some(h) ==> (h.t <= PARAMETER_BOUND ==> -root_error(
            s,
            r,
            h.t,
        ) <= 0x1_0000_0000
            * (v_length_squared(r.direction) * (exact_product(
            v_sub(h.p, s.center),
            v_sub(h.p, s.center),
        ) - s.radius * s.radius)) <= root_error(s, r, h.t)),
{
    if sphere_hit(s, r, t_min, t_max) is Some {
        let h = sphere_hit(s, r, t_min, t_max)->0;
        lemma_sphere_hit_in_range(s, r, t_min, t_max);
        if h.t <= PARAMETER_BOUND {
            lemma_root_lies_near_the_sphere(s, r, h.t);
        }
    }
}

/// The slack with which the normal at the point of the ray at the root `t` is
/// a unit vector: `normal_error` in units of the grid, that is, over `2^32`
/// times the squared length of the direction and the square of the radius.
/// For a ray of length one that meets a sphere of radius one half at a
/// distance of one half, it is 46. It grows with the square of the distance
/// over the radius, as the point is rounded to the grid before the radius
/// divides it.
pub open spec fn normal_slack(s: SphereModel, r: RayModel, t: int) -> int {
    normal_error(s, r, t) / (0x1_0000_0000 * (v_length_squared(r.direction) * (s.radius
        * s.radius))) + 1
}

/// The normal that a sphere reports is a unit vector but for rounding: it is
/// `nearly_unit` with every slack from `normal_slack` at the hit up to two.
/// This holds in a scene within the bounds, for a direction that is not
/// short, of a hit at a parameter above zero and up to `PARAMETER_BOUND`.
pub proof fn lemma_sphere_hit_normal_is_nearly_unit(
    s: SphereModel,
    r: RayModel,
    t_min: int,
    t_max: int,
    slack: int,
)
    requires
        bounded_scene(s, r),
        !is_short(r.direction),
        0 < t_min,
        slack <= 2 * ONE_RAW,
        sphere_hit(s, r, t_min, t_max) matches Some(h) ==> normal_slack(s, r, h.t) <= slack,
    ensures
        sphere_hit(s, r, t_min, t_max) matches Some(h) ==> (h.t <= PARAMETER_BOUND ==> nearly_unit(
            h.normal,
            slack,
        )),
{
    if sphere_hit(s, r, t_min, t_max) is Some && sphere_hit(s, r, t_min, t_max)->0.t
        <= PARAMETER_BOUND {
        let h = sphere_hit(s, r, t_min, t_max)->0;
        lemma_sphere_hit_in_range(s, r, t_min, t_max);
        lemma_root_lies_near_the_sphere(s, r, h.t);
        let n = outward_normal(s, ray_at(r, h.t));
        let m = h.normal;
        assert(m == n || m == v_neg(n));
        assert(exact_product(m, m) == exact_product(n, n)) by {
            if m != n {
                assert(m.x * m.x == n.x * n.x && m.y * m.y == n.y * n.y && m.z * m.z == n.z * n.z)
                    by (nonlinear_arith)
                    requires
                        m.x == -n.x,
                        m.y == -n.y,
                        m.z == -n.z,
                ;
            }
        }
        let scale = v_length_squared(r.direction) * (s.radius * s.radius);
        lemma_length_squared_nonnegative(r.direction);
        assert(scale >= 1) by (nonlinear_arith)
            requires
                scale == v_length_squared(r.direction) * (s.radius * s.radius),
                v_length_squared(r.direction) >= 1,
                s.radius >= 1,
        ;
        let e = normal_error(s, r, h.t);
        let unit = 0x1_0000_0000 * scale;
        let least = e / unit;
        lemma_fundamental_div_mod(e, unit);
        assert(least + 1 <= slack);
        assert(e <= slack * unit) by (nonlinear_arith)
            requires
                e == unit * least + e % unit,
                0 <= e % unit < unit,
                least + 1 <= slack,
        ;
        let dn = exact_product(m, m) - 0x1_0000_0000_0000_0000;
        assert(-e <= scale * dn <= e);
        assert(e >= 0);
        assert(slack >= 0) by (nonlinear_arith)
            requires
                0 <= e <= slack * unit,
                unit >= 1,
        ;
        let bound = slack * 0x1_0000_0000;
        assert(-bound <= dn <= bound) by (nonlinear_arith)
            requires
                -e <= scale * dn <= e,
                e <= slack * unit,
                unit == 0x1_0000_0000 * scale,
                bound == slack * 0x1_0000_0000,
                scale >= 1,
        ;
        let sx = m.x * m.x;
        let sy = m.y * m.y;
        let sz = m.z * m.z;
        assert(sx >= 0 && sy >= 0 && sz >= 0) by (nonlinear_arith)
            requires
                sx == m.x * m.x,
                sy == m.y * m.y,
                sz == m.z * m.z,
        ;
        assert(sx + sy + sz <= 0x3_0000_0000_0000_0000);
        lemma_small_square(m.x);
        lemma_small_square(m.y);
        lemma_small_square(m.z);
    }
}

/// A diffuse sphere does not scatter a ray into itself, but for rounding.
/// Let `unit` be the unit vector towards the point `sample` that was drawn.
/// Then the dot product of the scattered direction with the normal of the
/// hit falls short of zero by at most twice `normal_slack` at the hit, plus
/// `UNIT_SLACK + 3`, and the scattered direction is not longer than
/// two but for half of the two slacks.
pub proof fn lemma_diffuse_ray_leaves_the_sphere(
    s: SphereModel,
    r: RayModel,
    t_min: int,
    t_max: int,
    albedo: V3,
    sample: V3,
    unit: V3,
)
    requires
        bounded_scene(s, r),
        !is_short(r.direction),
        0 < t_min,
        unit_towards(sample, unit),
        sphere_hit(s, r, t_min, t_max) matches Some(h) ==> normal_slack(s, r, h.t) <= 2 * ONE_RAW,
    ensures
        sphere_hit(s, r, t_min, t_max) matches Some(h) ==> h.t <= PARAMETER_BOUND ==> {
            let out = lambertian_scatter(albedo, h, unit).1.direction;
            &&& v_dot(out, h.normal) >= -(2 * normal_slack(s, r, h.t) + UNIT_SLACK + 3)
            &&& v_length(out) <= 2 * ONE_RAW + (normal_slack(s, r, h.t) + UNIT_SLACK) / 2
        },
{
    if sphere_hit(s, r, t_min, t_max) is Some && sphere_hit(s, r, t_min, t_max)->0.t
        <= PARAMETER_BOUND {
        let h = sphere_hit(s, r, t_min, t_max)->0;
        let slack = normal_slack(s, r, h.t);
        lemma_sphere_hit_normal_is_nearly_unit(s, r, t_min, t_max, slack);
        lemma_diffuse_ray_leaves_the_surface(albedo, h, sample, unit, slack);
        lemma_diffuse_direction_length(albedo, h, sample, unit, slack);
    }
}

/// A sphere of metal without fuzz is a mirror. A ray that meets it at more
/// than `12 * normal_slack + 9` units of the grid from grazing is reflected,
/// and the reflected ray keeps the angle to the normal of the hit but for
/// `12 * normal_slack + 12` units.
pub proof fn lemma_mirror_on_the_sphere(
    s: SphereModel,
    r: RayModel,
    t_min: int,
    t_max: int,
    albedo: V3,
    sample: V3,
)
    requires
        bounded_scene(s, r),
        !is_short(r.direction),
        0 < t_min,
        sphere_hit(s, r, t_min, t_max) matches Some(h) ==> normal_slack(s, r, h.t) <= 2 * ONE_RAW,
    ensures
        sphere_hit(s, r, t_min, t_max) matches Some(h) ==> h.t <= PARAMETER_BOUND ==> {
            let margin = 12 * normal_slack(s, r, h.t) + 9;
            let along = v_dot(v_unit(r.direction), h.normal);
            &&& along < -margin ==> metal_scatter(albedo, 0, r, h, sample) is Some
            &&& metal_scatter(albedo, 0, r, h, sample) matches Some(out) ==> -(margin + 3) <= v_dot(
                out.1.direction,
                h.normal,
            ) - v_dot(v_neg(v_unit(r.direction)), h.normal) <= margin + 3
        },
{
    if sphere_hit(s, r, t_min, t_max) is Some && sphere_hit(s, r, t_min, t_max)->0.t
        <= PARAMETER_BOUND {
        let h = sphere_hit(s, r, t_min, t_max)->0;
        let slack = normal_slack(s, r, h.t);
        lemma_sphere_hit_normal_is_nearly_unit(s, r, t_min, t_max, slack);
        lemma_mirror_and_the_incoming_ray(albedo, r, h, sample, slack);
    }
}

/// A number whose square is at most three is less than two, on the grid.
proof fn lemma_small_square(x: int)
    requires
        x * x <= 0x3_0000_0000_0000_0000,
    ensures
        -0x2_0000_0000 < x < 0x2_0000_0000,
{
    assert(-0x2_0000_0000 < x < 0x2_0000_0000) by (nonlinear_arith)
        requires
            x * x <= 0x3_0000_0000_0000_0000,
    ;
}

} // verus!
