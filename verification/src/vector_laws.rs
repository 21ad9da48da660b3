//! How far rounding lets the vector operations stray from the laws of exact
//! arithmetic.
use crate::fixed::{
    floor_div, fx_div, fx_mul, isqrt, lemma_isqrt_at_least, lemma_isqrt_below, lemma_isqrt_bounds,
    ONE_RAW,
};
use crate::vec3::{
    lemma_shorter_than_one, v_add, v_dot, v_length, v_magnified, v_neg, v_over_length, v_reflect,
    v_unit, v_zero, V3,
};
use vstd::arithmetic::div_mod::lemma_fundamental_div_mod;
use vstd::prelude::*;

verus! {

/// Largest magnitude of the components of a vector whose length does not
/// saturate: `2^62`.
pub const EXACT_LENGTH_BOUND: i64 = 0x4000_0000_0000_0000;

/// The slack with which the unit vector of a vector is a unit vector.
pub const UNIT_SLACK: i64 = 70;

/// No component of `v` exceeds `bound` in magnitude.
pub open spec fn within(v: V3, bound: int) -> bool {
    &&& -bound <= v.x <= bound
    &&& -bound <= v.y <= bound
    &&& -bound <= v.z <= bound
}

/// `n` is a unit vector but for `slack`: the sum of the squares of the
/// components differs from one by `slack` units of the grid at most, and no
/// component exceeds two in magnitude.
pub open spec fn nearly_unit(n: V3, slack: int) -> bool {
    &&& within(n, 2 * ONE_RAW)
    &&& slack >= 0
    &&& -slack * ONE_RAW <= n.x * n.x + n.y * n.y + n.z * n.z - ONE_RAW * ONE_RAW <= slack
        * ONE_RAW
}

/// A component of a vector is not larger than the length of the vector.
proof fn lemma_component_below_length(c: int, rest: int, l: int)
    requires
        rest >= 0,
        l >= 0,
        c * c + rest < (l + 1) * (l + 1),
    ensures
        -l <= c <= l,
{
    if c > l {
        assert(c * c >= (l + 1) * (l + 1)) by (nonlinear_arith)
            requires
                c >= l + 1,
                l >= 0,
        ;
    }
    if c < -l {
        assert(c * c >= (l + 1) * (l + 1)) by (nonlinear_arith)
            requires
                -c >= l + 1,
                l >= 0,
        ;
    }
}

/// What dividing a component `c` of a vector by the length `l` of the
/// vector gives: a scalar `u` between -1 and 1 with `u * l <= c < (u + 1) * l`
/// on the grid, whose square, scaled by the square of `l`, is near the square
/// of the component.
proof fn lemma_unit_component(c: int, l: int) -> (u: int)
    requires
        l >= 1,
        -l <= c <= l,
    ensures
        u == fx_div(c, l),
        -0x1_0000_0000 <= u <= 0x1_0000_0000,
        (u * u) * (l * l) <= (c * c) * 0x1_0000_0000_0000_0000 + 0x2_0000_0000 * (l * l),
        (u * u) * (l * l) >= (c * c) * 0x1_0000_0000_0000_0000 - 0x2_0000_0000 * (l * l) - l * l,
{
    let s: int = 0x1_0000_0000;
    let n = c * s;
    let u = n / l;
    let rem = n % l;
    lemma_fundamental_div_mod(n, l);
    assert(n == u * l + rem) by (nonlinear_arith)
        requires
            n == l * u + rem,
    ;
    assert(u <= s) by (nonlinear_arith)
        requires
            u * l + rem == c * s,
            rem >= 0,
            c <= l,
            l >= 1,
            s == 0x1_0000_0000,
    ;
    assert(u >= -s) by (nonlinear_arith)
        requires
            u * l + rem == c * s,
            rem < l,
            c >= -l,
            l >= 1,
            s == 0x1_0000_0000,
    ;
    assert(floor_div(c * ONE_RAW, l) == u);
    // |c| * s and |u| * l differ by less than l
    let big_x = if c >= 0 {
        n
    } else {
        -n
    };
    let a = if u >= 0 {
        u
    } else {
        -u
    };
    let p = a * l;
    assert(p == if u >= 0 {
        u * l
    } else {
        -(u * l)
    }) by (nonlinear_arith)
        requires
            p == a * l,
            a == if u >= 0 {
                u
            } else {
                -u
            },
    ;
    assert(c >= 0 ==> u >= 0) by (nonlinear_arith)
        requires
            u * l + rem == c * s,
            rem < l,
            l >= 1,
            s == 0x1_0000_0000,
    ;
    assert(c < 0 ==> u < 0) by (nonlinear_arith)
        requires
            u * l + rem == c * s,
            rem >= 0,
            l >= 1,
            s == 0x1_0000_0000,
    ;
    let d = big_x - p;
    assert(-l < d < l);
    assert(0 <= p <= s * l) by (nonlinear_arith)
        requires
            p == a * l,
            0 <= a <= s,
            l >= 1,
    ;
    let ll = l * l;
    let pd = p * d;
    let dd = d * d;
    assert(big_x * big_x == p * p + 2 * pd + dd) by (nonlinear_arith)
        requires
            d == big_x - p,
            pd == p * d,
            dd == d * d,
    ;
    assert(-0x1_0000_0000 * ll <= pd <= 0x1_0000_0000 * ll) by (nonlinear_arith)
        requires
            0 <= p <= 0x1_0000_0000 * l,
            -l < d < l,
            l >= 1,
            pd == p * d,
            ll == l * l,
    ;
    assert(0 <= dd <= ll) by (nonlinear_arith)
        requires
            -l < d < l,
            dd == d * d,
            ll == l * l,
    ;
    assert(big_x * big_x == (c * c) * 0x1_0000_0000_0000_0000) by (nonlinear_arith)
        requires
            big_x == c * 0x1_0000_0000 || big_x == -(c * 0x1_0000_0000),
    ;
    assert(p * p == (u * u) * ll) by (nonlinear_arith)
        requires
            p == u * l || p == -(u * l),
            ll == l * l,
    ;
    u
}

/// The unit vector of a vector has length one, but for rounding: its length
/// falls short of one by at most 4 units of the grid and exceeds it by at
/// most 13, and it is a unit vector but for a slack of `UNIT_SLACK`. For a
/// vector of length one or more the excess is 7 units at most, and the slack
/// 17.
pub proof fn lemma_unit_vector_length(v: V3)
    requires
        v != v_zero(),
        within(v, EXACT_LENGTH_BOUND as int),
    ensures
        v_length(v) >= 1,
        within(v_unit(v), ONE_RAW as int),
        ONE_RAW - 4 <= v_length(v_unit(v)) <= ONE_RAW + 13,
        v_length(v) >= ONE_RAW ==> v_length(v_unit(v)) <= ONE_RAW + 7,
        v_length(v) >= ONE_RAW ==> nearly_unit(v_unit(v), 17),
        nearly_unit(v_unit(v), UNIT_SLACK as int),
{
    lemma_over_length(v);
    if v_length(v) < ONE_RAW {
        lemma_shorter_than_one(v);
        let w = v_magnified(v);
        lemma_over_length(w);
        let l = v_length(w);
        assert(l >= 0x4000_0000);
        let one: int = 0x1_0000_0000;
        let q = one / l;
        lemma_fundamental_div_mod(one, l);
        assert(0 <= q <= 4) by (nonlinear_arith)
            requires
                one == l * q + one % l,
                0 <= one % l < l,
                l >= 0x4000_0000,
                one == 0x1_0000_0000,
        ;
    }
}

/// What dividing a vector by its length gives has length one, but for
/// rounding: its length falls short of one by at most 4 units of the grid,
/// and exceeds it by at most `2 / |v| + 5` units, where `|v|` is the length
/// of the vector. For a vector of length one or more that is 7 units at
/// most, and the quotient is then a unit vector but for a slack of 17. In
/// general the slack is `10 / |v| + 30`.
proof fn lemma_over_length(v: V3)
    requires
        v != v_zero(),
        within(v, EXACT_LENGTH_BOUND as int),
    ensures
        v_length(v) >= 1,
        within(v, v_length(v)),
        within(v_over_length(v), ONE_RAW as int),
        ONE_RAW - 4 <= v_length(v_over_length(v)) <= ONE_RAW + 2 * ((ONE_RAW as int) / v_length(v))
            + 5,
        v_length(v) >= ONE_RAW ==> v_length(v_over_length(v)) <= ONE_RAW + 7,
        v_length(v) >= ONE_RAW ==> nearly_unit(v_over_length(v), 17),
        nearly_unit(v_over_length(v), 10 * ((ONE_RAW as int) / v_length(v)) + 30),
{
    let s: int = 0x1_0000_0000;
    let b: int = 0x4000_0000_0000_0000;
    let xx = v.x * v.x;
    let yy = v.y * v.y;
    let zz = v.z * v.z;
    let n = xx + yy + zz;
    assert(0 <= xx <= b * b) by (nonlinear_arith)
        requires
            xx == v.x * v.x,
            -b <= v.x <= b,
    ;
    assert(0 <= yy <= b * b) by (nonlinear_arith)
        requires
            yy == v.y * v.y,
            -b <= v.y <= b,
    ;
    assert(0 <= zz <= b * b) by (nonlinear_arith)
        requires
            zz == v.z * v.z,
            -b <= v.z <= b,
    ;
    assert(n >= 1) by (nonlinear_arith)
        requires
            n == v.x * v.x + v.y * v.y + v.z * v.z,
            v.x != 0 || v.y != 0 || v.z != 0,
    ;
    let l = isqrt(n);
    lemma_isqrt_bounds(n);
    assert(l >= 1) by {
        if l == 0 {
            assert((l + 1) * (l + 1) == 1) by (nonlinear_arith)
                requires
                    l == 0,
            ;
        }
    }
    assert(b * b == 0x1000_0000_0000_0000_0000_0000_0000_0000) by (nonlinear_arith)
        requires
            b == 0x4000_0000_0000_0000,
    ;
    assert(l < 0x8000_0000_0000_0000) by {
        if l >= 0x8000_0000_0000_0000 {
            assert(l * l >= 0x4000_0000_0000_0000_0000_0000_0000_0000) by (nonlinear_arith)
                requires
                    l >= 0x8000_0000_0000_0000,
            ;
        }
    }
    assert(v_length(v) == l);
    lemma_component_below_length(v.x, yy + zz, l);
    lemma_component_below_length(v.y, xx + zz, l);
    lemma_component_below_length(v.z, xx + yy, l);
    let ux = lemma_unit_component(v.x, l);
    let uy = lemma_unit_component(v.y, l);
    let uz = lemma_unit_component(v.z, l);
    let u = v_over_length(v);
    assert(u == V3 { x: ux, y: uy, z: uz });
    let ll = l * l;
    let m = ux * ux + uy * uy + uz * uz;
    assert(0 <= ux * ux <= s * s && 0 <= uy * uy <= s * s && 0 <= uz * uz <= s * s)
        by (nonlinear_arith)
        requires
            -s <= ux <= s,
            -s <= uy <= s,
            -s <= uz <= s,
    ;
    assert(s * s == 0x1_0000_0000_0000_0000) by (nonlinear_arith)
        requires
            s == 0x1_0000_0000,
    ;
    assert(m * ll == (ux * ux) * ll + (uy * uy) * ll + (uz * uz) * ll) by (nonlinear_arith)
        requires
            m == ux * ux + uy * uy + uz * uz,
    ;
    assert(n * 0x1_0000_0000_0000_0000 == xx * 0x1_0000_0000_0000_0000 + yy
        * 0x1_0000_0000_0000_0000 + zz * 0x1_0000_0000_0000_0000);
    // the length of the unit vector from below
    assert(ll >= 1) by (nonlinear_arith)
        requires
            ll == l * l,
            l >= 1,
    ;
    let low: int = 0x1_0000_0000_0000_0000 - 0x6_0000_0000 - 3;
    assert(m * ll >= low * ll) by (nonlinear_arith)
        requires
            m * ll >= n * 0x1_0000_0000_0000_0000 - 0x6_0000_0000 * ll - 3 * ll,
            n >= ll,
            low == 0x1_0000_0000_0000_0000 - 0x6_0000_0000 - 3,
    ;
    assert(m >= low) by (nonlinear_arith)
        requires
            m * ll >= low * ll,
            ll >= 1,
    ;
    assert((s - 4) * (s - 4) <= low) by (nonlinear_arith)
        requires
            s == 0x1_0000_0000,
            low == 0x1_0000_0000_0000_0000 - 0x6_0000_0000 - 3,
    ;
    lemma_isqrt_at_least(m, s - 4);
    // the length of the unit vector from above
    let q = s / l;
    lemma_fundamental_div_mod(s, l);
    let t = s + 2 * q + 6;
    let w = l * s + 2 * s + 4 * l;
    assert(l * t >= w) by (nonlinear_arith)
        requires
            t == s + 2 * q + 6,
            w == l * s + 2 * s + 4 * l,
            s == l * q + s % l,
            0 <= s % l < l,
    ;
    assert(w * w >= ll * (s * s) + 4 * l * (s * s) + 8 * ll * s) by (nonlinear_arith)
        requires
            w == l * s + 2 * s + 4 * l,
            ll == l * l,
            l >= 1,
            s >= 1,
    ;
    assert((l + 1) * (l + 1) == ll + 2 * l + 1) by (nonlinear_arith)
        requires
            ll == l * l,
    ;
    assert(m * ll < w * w) by (nonlinear_arith)
        requires
            m * ll <= n * 0x1_0000_0000_0000_0000 + 0x6_0000_0000 * ll,
            n < ll + 2 * l + 1,
            w * w >= ll * (s * s) + 4 * l * (s * s) + 8 * ll * s,
            s * s == 0x1_0000_0000_0000_0000,
            s == 0x1_0000_0000,
            l >= 1,
            ll >= 1,
    ;
    assert((l * t) * (l * t) >= w * w) by (nonlinear_arith)
        requires
            l * t >= w,
            w >= 0,
    ;
    assert((l * t) * (l * t) == (t * t) * ll) by (nonlinear_arith)
        requires
            ll == l * l,
    ;
    assert(m < t * t) by (nonlinear_arith)
        requires
            m * ll < (t * t) * ll,
            ll >= 1,
    ;
    assert(q >= 0 && t >= 0) by (nonlinear_arith)
        requires
            s == l * q + s % l,
            0 <= s % l < l,
            l >= 1,
            s >= 0,
            t == s + 2 * q + 6,
    ;
    lemma_isqrt_below(m, t);
    assert(q <= s) by (nonlinear_arith)
        requires
            s == l * q + s % l,
            0 <= s % l,
            l >= 1,
            q >= 0,
    ;
    assert(v_length(u) == isqrt(m));
    let w2 = 2 * q + 6;
    assert(w2 * w2 <= w2 * (3 * s)) by (nonlinear_arith)
        requires
            0 <= w2 <= 3 * s,
    ;
    assert(t * t == s * s + 2 * (s * w2) + w2 * w2) by (nonlinear_arith)
        requires
            t == s + w2,
    ;
    assert(w2 * (3 * s) == 3 * (s * w2)) by (nonlinear_arith);
    assert(s * w2 == 0x1_0000_0000 * w2);
    if l >= s {
        assert(q <= 1) by (nonlinear_arith)
            requires
                s == l * q + s % l,
                0 <= s % l,
                l >= s,
                s >= 1,
                q >= 0,
        ;
        assert(t * t <= (s + 8) * (s + 8)) by (nonlinear_arith)
            requires
                0 <= t <= s + 8,
        ;
        assert((s + 8) * (s + 8) == 0x1_0000_0000_0000_0000 + 16 * s + 64) by (nonlinear_arith)
            requires
                s == 0x1_0000_0000,
        ;
    }
}

/// What multiplying a scalar of magnitude `bound` at most with one of
/// magnitude two at most gives: a scalar `q` with
/// `q * 2^32 <= a * b < (q + 1) * 2^32`, of magnitude twice `bound` at most.
proof fn lemma_product(a: int, b: int, bound: int) -> (q: int)
    requires
        1 <= bound <= 0x100_0000_0000,
        -bound <= a <= bound,
        -0x2_0000_0000 <= b <= 0x2_0000_0000,
    ensures
        q == fx_mul(a, b),
        -2 * bound <= q <= 2 * bound,
        q * 0x1_0000_0000 <= a * b < q * 0x1_0000_0000 + 0x1_0000_0000,
{
    let p = a * b;
    let q = p / 0x1_0000_0000;
    assert(-bound * 0x2_0000_0000 <= p <= bound * 0x2_0000_0000) by (nonlinear_arith)
        requires
            p == a * b,
            -bound <= a <= bound,
            -0x2_0000_0000 <= b <= 0x2_0000_0000,
            bound >= 1,
    ;
    q
}

/// The law of reflection, but for rounding. Let `n` be a unit vector but for
/// `slack`, and let no component of `v` exceed one in magnitude. Then the
/// mirror image of `v` at the plane with normal `n` makes the same angle with
/// `n` as `v` reversed: the two dot products differ by at most
/// `12 * slack + 12` units of the grid.
pub proof fn lemma_reflection_keeps_the_angle(v: V3, n: V3, slack: int)
    requires
        within(v, ONE_RAW as int),
        nearly_unit(n, slack),
    ensures
        -(12 * slack + 9) <= v_dot(v_reflect(v, n), n) + v_dot(v, n) <= 12 * slack + 9,
        -(12 * slack + 12) <= v_dot(v_reflect(v, n), n) - v_dot(v_neg(v), n) <= 12 * slack + 12,
{
    let s: int = 0x1_0000_0000;
    let ss: int = 0x1_0000_0000_0000_0000;
    // the dot product of v and n
    let ax = lemma_product(v.x, n.x, s);
    let ay = lemma_product(v.y, n.y, s);
    let az = lemma_product(v.z, n.z, s);
    let d = ax + ay + az;
    assert(v_dot(v, n) == d);
    let sum_a = v.x * n.x + v.y * n.y + v.z * n.z;
    assert(d * s <= sum_a < d * s + 3 * s);
    // the dot product of v reversed and n
    let mx = lemma_product(-v.x, n.x, s);
    let my = lemma_product(-v.y, n.y, s);
    let mz = lemma_product(-v.z, n.z, s);
    assert((-v.x) * n.x == -(v.x * n.x) && (-v.y) * n.y == -(v.y * n.y) && (-v.z) * n.z == -(v.z
        * n.z)) by (nonlinear_arith);
    let reversed = mx + my + mz;
    assert(v_dot(v_neg(v), n) == reversed);
    assert(-d - 3 <= reversed <= -d);
    // twice the dot product, as a scalar
    let k = 2 * d;
    assert((2 * ONE_RAW) * d == k * s) by (nonlinear_arith)
        requires
            k == 2 * d,
            s == 0x1_0000_0000,
            ONE_RAW == 0x1_0000_0000,
    ;
    assert((k * s) / s == k) by (nonlinear_arith)
        requires
            s == 0x1_0000_0000,
    ;
    assert(fx_mul(2 * ONE_RAW, d) == k);
    // the mirror image
    let wx = lemma_product(k, n.x, 12 * s);
    let wy = lemma_product(k, n.y, 12 * s);
    let wz = lemma_product(k, n.z, 12 * s);
    let rx = v.x - wx;
    let ry = v.y - wy;
    let rz = v.z - wz;
    let r = v_reflect(v, n);
    assert(r == V3 { x: rx, y: ry, z: rz });
    let bx = lemma_product(rx, n.x, 25 * s);
    let by = lemma_product(ry, n.y, 25 * s);
    let bz = lemma_product(rz, n.z, 25 * s);
    let big_r = bx + by + bz;
    assert(v_dot(r, n) == big_r);
    let sum_b = rx * n.x + ry * n.y + rz * n.z;
    assert(big_r * s <= sum_b < big_r * s + 3 * s);
    // how far the products with the normal stray
    let nn = n.x * n.x + n.y * n.y + n.z * n.z;
    let e = nn - ss;
    let gx = lemma_scaled_component(k, n.x, wx);
    let gy = lemma_scaled_component(k, n.y, wy);
    let gz = lemma_scaled_component(k, n.z, wz);
    let sum_w = wx * n.x + wy * n.y + wz * n.z;
    assert(sum_b == sum_a - sum_w) by (nonlinear_arith)
        requires
            sum_b == rx * n.x + ry * n.y + rz * n.z,
            sum_a == v.x * n.x + v.y * n.y + v.z * n.z,
            sum_w == wx * n.x + wy * n.y + wz * n.z,
            rx == v.x - wx,
            ry == v.y - wy,
            rz == v.z - wz,
    ;
    let knn = k * nn;
    assert(knn == k * (n.x * n.x) + k * (n.y * n.y) + k * (n.z * n.z)) by (nonlinear_arith)
        requires
            knn == k * nn,
            nn == n.x * n.x + n.y * n.y + n.z * n.z,
    ;
    assert(knn - 6 * ss <= sum_w * s <= knn + 6 * ss);
    let de = d * e;
    assert(knn == 2 * (d * ss) + 2 * de) by (nonlinear_arith)
        requires
            knn == k * nn,
            k == 2 * d,
            e == nn - ss,
            de == d * e,
    ;
    assert(-(6 * slack) * ss <= de <= (6 * slack) * ss) by (nonlinear_arith)
        requires
            de == d * e,
            -6 * s <= d <= 6 * s,
            -slack * s <= e <= slack * s,
            slack >= 0,
            s == 0x1_0000_0000,
            ss == 0x1_0000_0000_0000_0000,
    ;
    assert((big_r + d) * ss <= (12 * slack + 9) * ss) by (nonlinear_arith)
        requires
            big_r * s <= sum_b,
            sum_b == sum_a - sum_w,
            sum_a < d * s + 3 * s,
            knn - 6 * ss <= sum_w * s,
            knn == 2 * (d * ss) + 2 * de,
            -(6 * slack) * ss <= de,
            s == 0x1_0000_0000,
            ss == 0x1_0000_0000_0000_0000,
    ;
    assert((big_r + d) * ss >= -(12 * slack + 9) * ss) by (nonlinear_arith)
        requires
            sum_b < big_r * s + 3 * s,
            sum_b == sum_a - sum_w,
            d * s <= sum_a,
            sum_w * s <= knn + 6 * ss,
            knn == 2 * (d * ss) + 2 * de,
            de <= (6 * slack) * ss,
            s == 0x1_0000_0000,
            ss == 0x1_0000_0000_0000_0000,
    ;
}

/// The product of a scaled component with the component strays from the
/// scaled square by two units at most.
proof fn lemma_scaled_component(k: int, c: int, w: int) -> (g: int)
    requires
        -0x2_0000_0000 <= c <= 0x2_0000_0000,
        w * 0x1_0000_0000 <= k * c < w * 0x1_0000_0000 + 0x1_0000_0000,
    ensures
        g == (w * c) * 0x1_0000_0000 - k * (c * c),
        -0x2_0000_0000_0000_0000 <= g <= 0x2_0000_0000_0000_0000,
{
    let g = (w * c) * 0x1_0000_0000 - k * (c * c);
    let f = k * c - w * 0x1_0000_0000;
    assert(g == -(f * c)) by (nonlinear_arith)
        requires
            g == (w * c) * 0x1_0000_0000 - k * (c * c),
            f == k * c - w * 0x1_0000_0000,
    ;
    assert(-0x2_0000_0000_0000_0000 <= f * c <= 0x2_0000_0000_0000_0000) by (nonlinear_arith)
        requires
            0 <= f < 0x1_0000_0000,
            -0x2_0000_0000 <= c <= 0x2_0000_0000,
    ;
    g
}

/// The square of a product is the product of the squares.
proof fn lemma_square_of_product(a: int, b: int)
    ensures
        (a * b) * (a * b) == (a * a) * (b * b),
{
    assert((a * b) * (a * b) == (a * a) * (b * b)) by (nonlinear_arith);
}

/// The product of two products does not depend on how the factors are paired.
proof fn lemma_crossed_products(a: int, b: int, c: int, d: int)
    ensures
        (a * d) * (c * b) == (a * b) * (c * d),
{
    assert((a * d) * (c * b) == (a * b) * (c * d)) by (nonlinear_arith);
}

/// The exact dot product of two vectors, which is not rounded.
pub open spec fn exact_product(u: V3, v: V3) -> int {
    u.x * v.x + u.y * v.y + u.z * v.z
}

/// The inequality of Cauchy and Schwarz: the square of the dot product of two
/// vectors is at most the product of the squares of their lengths.
pub proof fn lemma_cauchy_schwarz(u: V3, v: V3)
    ensures
        exact_product(u, v) * exact_product(u, v) <= exact_product(u, u) * exact_product(v, v),
{
    let p11 = u.x * v.x;
    let p12 = u.x * v.y;
    let p13 = u.x * v.z;
    let p21 = u.y * v.x;
    let p22 = u.y * v.y;
    let p23 = u.y * v.z;
    let p31 = u.z * v.x;
    let p32 = u.z * v.y;
    let p33 = u.z * v.z;
    let a = p12 - p21;
    let b = p13 - p31;
    let c = p23 - p32;
    let x = exact_product(u, v);
    let uu = exact_product(u, u);
    let vv = exact_product(v, v);
    lemma_square_of_product(u.x, v.x);
    lemma_square_of_product(u.x, v.y);
    lemma_square_of_product(u.x, v.z);
    lemma_square_of_product(u.y, v.x);
    lemma_square_of_product(u.y, v.y);
    lemma_square_of_product(u.y, v.z);
    lemma_square_of_product(u.z, v.x);
    lemma_square_of_product(u.z, v.y);
    lemma_square_of_product(u.z, v.z);
    lemma_crossed_products(u.x, v.x, u.y, v.y);
    lemma_crossed_products(u.x, v.x, u.z, v.z);
    lemma_crossed_products(u.y, v.y, u.z, v.z);
    let ux = u.x * u.x;
    let uy = u.y * u.y;
    let uz = u.z * u.z;
    let vx = v.x * v.x;
    let vy = v.y * v.y;
    let vz = v.z * v.z;
    assert(uu * vv == ux * vx + ux * vy + ux * vz + uy * vx + uy * vy + uy * vz + uz * vx + uz
        * vy + uz * vz) by (nonlinear_arith)
        requires
            uu == ux + uy + uz,
            vv == vx + vy + vz,
    ;
    assert(x * x == p11 * p11 + p22 * p22 + p33 * p33 + 2 * (p11 * p22) + 2 * (p11 * p33) + 2 * (
    p22 * p33)) by (nonlinear_arith)
        requires
            x == p11 + p22 + p33,
    ;
    assert(a * a == p12 * p12 + p21 * p21 - 2 * (p12 * p21)) by (nonlinear_arith)
        requires
            a == p12 - p21,
    ;
    assert(b * b == p13 * p13 + p31 * p31 - 2 * (p13 * p31)) by (nonlinear_arith)
        requires
            b == p13 - p31,
    ;
    assert(c * c == p23 * p23 + p32 * p32 - 2 * (p23 * p32)) by (nonlinear_arith)
        requires
            c == p23 - p32,
    ;
    assert(uu * vv - x * x == a * a + b * b + c * c);
    assert(a * a >= 0 && b * b >= 0 && c * c >= 0) by (nonlinear_arith);
}

/// The sum of two unit vectors does not point against either of them, but for
/// rounding. Let `n` be a unit vector but for `slack_n` and `u` one but for
/// `slack_u`. Then the dot product of `n + u` with `n` falls short of zero by
/// at most `2 * slack_n + slack_u + 3` units of the grid, and that of `n`
/// with itself falls short of one by at most `slack_n + 3` units.
pub proof fn lemma_sum_of_unit_vectors(n: V3, u: V3, slack_n: int, slack_u: int)
    requires
        nearly_unit(n, slack_n),
        nearly_unit(u, slack_u),
    ensures
        v_dot(v_add(n, u), n) >= -(2 * slack_n + slack_u + 3),
        v_dot(n, n) >= ONE_RAW - slack_n - 3,
{
    let s: int = 0x1_0000_0000;
    let ss: int = 0x1_0000_0000_0000_0000;
    let sum = v_add(n, u);
    assert(sum == V3 { x: n.x + u.x, y: n.y + u.y, z: n.z + u.z });
    let ex = lemma_product(sum.x, n.x, 4 * s);
    let ey = lemma_product(sum.y, n.y, 4 * s);
    let ez = lemma_product(sum.z, n.z, 4 * s);
    let dot = ex + ey + ez;
    assert(v_dot(sum, n) == dot);
    let fx = lemma_product(n.x, n.x, 2 * s);
    let fy = lemma_product(n.y, n.y, 2 * s);
    let fz = lemma_product(n.z, n.z, 2 * s);
    assert(v_dot(n, n) == fx + fy + fz);
    let nn = exact_product(n, n);
    let uu = exact_product(u, u);
    let x = exact_product(u, n);
    assert(ss == s * s) by (nonlinear_arith)
        requires
            s == 0x1_0000_0000,
            ss == 0x1_0000_0000_0000_0000,
    ;
    assert(sum.x * n.x + sum.y * n.y + sum.z * n.z == nn + x) by (nonlinear_arith)
        requires
            sum.x == n.x + u.x,
            sum.y == n.y + u.y,
            sum.z == n.z + u.z,
            nn == n.x * n.x + n.y * n.y + n.z * n.z,
            x == u.x * n.x + u.y * n.y + u.z * n.z,
    ;
    assert(dot * s > nn + x - 3 * s);
    lemma_cauchy_schwarz(u, n);
    let b = s * (s + slack_n + slack_u);
    assert(nn >= 0 && uu >= 0) by (nonlinear_arith)
        requires
            nn == n.x * n.x + n.y * n.y + n.z * n.z,
            uu == u.x * u.x + u.y * u.y + u.z * u.z,
    ;
    let bn = ss + slack_n * s;
    let bu = ss + slack_u * s;
    assert(uu * nn <= bu * bn) by (nonlinear_arith)
        requires
            0 <= uu <= bu,
            0 <= nn <= bn,
    ;
    assert(bu * bn <= b * b) by (nonlinear_arith)
        requires
            bn == s * (s + slack_n),
            bu == s * (s + slack_u),
            b == s * (s + slack_n + slack_u),
            slack_n >= 0,
            slack_u >= 0,
            s > 0,
    ;
    if x < -b {
        assert(x * x > b * b) by (nonlinear_arith)
            requires
                x < -b,
                b >= 0,
        ;
    }
    assert(x >= -b);
}

/// Every component is a raw value.
pub open spec fn representable(v: V3) -> bool {
    &&& i64::MIN <= v.x <= i64::MAX
    &&& i64::MIN <= v.y <= i64::MAX
    &&& i64::MIN <= v.z <= i64::MAX
}

/// No component of the unit vector of a vector exceeds one in magnitude by
/// more than a unit of the grid, however long the vector.
pub proof fn lemma_unit_vector_components(v: V3)
    requires
        v != v_zero(),
        representable(v),
    ensures
        within(v_unit(v), ONE_RAW + 1),
{
    if v_length(v) < ONE_RAW {
        lemma_shorter_than_one(v);
        lemma_unit_vector_length(v);
    }
    let xx = v.x * v.x;
    let yy = v.y * v.y;
    let zz = v.z * v.z;
    let n = xx + yy + zz;
    assert(xx >= 0 && yy >= 0 && zz >= 0) by (nonlinear_arith)
        requires
            xx == v.x * v.x,
            yy == v.y * v.y,
            zz == v.z * v.z,
    ;
    assert(n >= 1) by (nonlinear_arith)
        requires
            n == v.x * v.x + v.y * v.y + v.z * v.z,
            v.x != 0 || v.y != 0 || v.z != 0,
    ;
    let r = isqrt(n);
    lemma_isqrt_bounds(n);
    assert(r >= 1) by {
        if r == 0 {
            assert((r + 1) * (r + 1) == 1) by (nonlinear_arith)
                requires
                    r == 0,
            ;
        }
    }
    lemma_component_below_length(v.x, yy + zz, r);
    lemma_component_below_length(v.y, xx + zz, r);
    lemma_component_below_length(v.z, xx + yy, r);
    let l = v_length(v);
    lemma_quotient_near_one(v.x, l);
    lemma_quotient_near_one(v.y, l);
    lemma_quotient_near_one(v.z, l);
}

/// A scalar that exceeds the divisor by a unit at most in magnitude gives a
/// quotient that exceeds one by a unit at most.
proof fn lemma_quotient_near_one(c: int, l: int)
    requires
        l >= 1,
        -l - 1 <= c <= l,
        c >= -l || l >= 0x1_0000_0000,
    ensures
        -0x1_0000_0000 - 1 <= fx_div(c, l) <= 0x1_0000_0000,
{
    let s: int = 0x1_0000_0000;
    let n = c * s;
    let q = n / l;
    lemma_fundamental_div_mod(n, l);
    assert(n == q * l + n % l) by (nonlinear_arith)
        requires
            n == l * q + n % l,
    ;
    assert(q <= s) by (nonlinear_arith)
        requires
            q * l + n % l == c * s,
            n % l >= 0,
            c <= l,
            l >= 1,
            s == 0x1_0000_0000,
    ;
    assert(q >= -s - 1) by (nonlinear_arith)
        requires
            q * l + n % l == c * s,
            n % l < l,
            c >= -l - 1,
            c >= -l || l >= s,
            l >= 1,
            s == 0x1_0000_0000,
    ;
    assert(floor_div(c * ONE_RAW, l) == q);
}

/// The sum of two unit vectors is not longer than two, but for rounding. Let
/// `n` be a unit vector but for `slack_n` and `u` one but for `slack_u`. Then
/// the length of `n` exceeds one by half of `slack_n` at most, and the length
/// of `n + u` exceeds two by half of the two slacks at most.
pub proof fn lemma_length_of_a_sum_of_unit_vectors(n: V3, u: V3, slack_n: int, slack_u: int)
    requires
        nearly_unit(n, slack_n),
        nearly_unit(u, slack_u),
    ensures
        v_length(n) <= ONE_RAW + slack_n / 2,
        v_length(v_add(n, u)) <= 2 * ONE_RAW + (slack_n + slack_u) / 2,
{
    let s: int = 0x1_0000_0000;
    let ss: int = 0x1_0000_0000_0000_0000;
    let sum = v_add(n, u);
    assert(sum == V3 { x: n.x + u.x, y: n.y + u.y, z: n.z + u.z });
    let nn = exact_product(n, n);
    let uu = exact_product(u, u);
    let both = exact_product(sum, sum);
    assert((n.x + u.x) * (n.x + u.x) <= 2 * (n.x * n.x) + 2 * (u.x * u.x)) by (nonlinear_arith);
    assert((n.y + u.y) * (n.y + u.y) <= 2 * (n.y * n.y) + 2 * (u.y * u.y)) by (nonlinear_arith);
    assert((n.z + u.z) * (n.z + u.z) <= 2 * (n.z * n.z) + 2 * (u.z * u.z)) by (nonlinear_arith);
    assert(both <= 2 * nn + 2 * uu);
    let k = slack_n + slack_u;
    let h = k / 2;
    let r = 2 * s + h + 1;
    assert(both < r * r) by (nonlinear_arith)
        requires
            both <= 4 * ss + 2 * (k * s),
            r == 2 * s + h + 1,
            k <= 2 * h + 1,
            h >= 0,
            s == 0x1_0000_0000,
            ss == 0x1_0000_0000_0000_0000,
    ;
    assert(both >= 0) by (nonlinear_arith)
        requires
            both == sum.x * sum.x + sum.y * sum.y + sum.z * sum.z,
    ;
    lemma_isqrt_below(both, r);
    let hn = slack_n / 2;
    let rn = s + hn + 1;
    assert(nn < rn * rn) by (nonlinear_arith)
        requires
            nn <= ss + slack_n * s,
            rn == s + hn + 1,
            slack_n <= 2 * hn + 1,
            hn >= 0,
            s == 0x1_0000_0000,
            ss == 0x1_0000_0000_0000_0000,
    ;
    assert(nn >= 0) by (nonlinear_arith)
        requires
            nn == n.x * n.x + n.y * n.y + n.z * n.z,
    ;
    lemma_isqrt_below(nn, rn);
}

} // verus!
