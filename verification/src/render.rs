//! The integrator: the color that a ray brings back from the scene, and the
//! pixels that the camera sees.
use crate::camera::{camera_ray, Camera, CameraModel};
use crate::fixed::{
    floor_div, floor_div_wide, fx_add, fx_mul, fx_sub, sat, saturate, Fixed, ONE_RAW,
};
use crate::hit_record::HitModel;
use crate::hittable::Hittable;
use crate::material::{
    in_unit_cube, lambertian_draw, lambertian_scatter, metal_draw, metal_scatter, scatter_outcome,
    scatter_view, MaterialModel,
};
use crate::random::{in_unit_ball, is_unit_sample, random_f64, Sampler};
use crate::ray::{Ray, RayModel};
use crate::vec3::{
    sampled_channel_byte, unit_vector, v_add, v_mul, v_scale, v_unit, v_zero, Vec3, V3,
};
use crate::vector_laws::{
    lemma_unit_vector_components, lemma_unit_vector_length, representable, within,
    EXACT_LENGTH_BOUND,
};
use vstd::arithmetic::div_mod::lemma_fundamental_div_mod;
use vstd::prelude::*;

verus! {

/// Raw value of the least ray parameter at which a hit counts: `0.001`. A hit
/// nearer to the origin of a ray is the surface that the ray has just left.
pub const T_MIN_RAW: i64 = 4_294_967;

/// Raw value of the greatest ray parameter.
pub const T_MAX_RAW: i64 = i64::MAX;

/// Raw value of the green share of the sky's blue, `0.7`.
pub const SKY_GREEN_RAW: i64 = 3_006_477_107;

/// The color white.
pub open spec fn white() -> V3 {
    V3 { x: ONE_RAW as int, y: ONE_RAW as int, z: ONE_RAW as int }
}

/// The blue of the sky: `(0.5, 0.7, 1.0)`.
pub open spec fn sky_blue() -> V3 {
    V3 { x: ONE_RAW / 2, y: SKY_GREEN_RAW as int, z: ONE_RAW as int }
}

/// The share of blue in the background behind a ray: `0.5 * (y + 1)`, where
/// `y` is the height of the ray's direction at length one.
pub open spec fn background_blend(ray: RayModel) -> int {
    fx_mul(ONE_RAW / 2, fx_add(v_unit(ray.direction).y, ONE_RAW as int))
}

/// The color of the background behind a ray: white blended with blue, the
/// bluer the higher the ray points.
pub open spec fn background(ray: RayModel) -> V3 {
    let t = background_blend(ray);
    v_add(v_scale(fx_sub(ONE_RAW as int, t), white()), v_scale(t, sky_blue()))
}

/// `color` is what a ray brings back after the hit `hit`, where the material
/// answered `out` and the scattered ray, if there is one, brought `rest`:
/// black if the ray was absorbed, else `rest` attenuated.
pub open spec fn bounce(
    ray: RayModel,
    hit: Option<HitModel>,
    color: V3,
    out: Option<(V3, RayModel)>,
    rest: V3,
) -> bool {
    &&& hit matches Some(rec)
    &&& scatter_outcome(rec.material, ray, rec, out)
    &&& match out {
        Some((attenuation, scattered)) => color == v_mul(attenuation, rest),
        None => color == v_zero(),
    }
}

/// `color` is a color that `ray` may bring back from `world` with `depth`
/// bounces left. Without a bounce left it is black. A ray that hits nothing
/// brings the background. A ray that hits a surface brings black if the
/// material absorbs it, and else what the scattered ray brings with one bounce
/// less, attenuated by the material.
pub open spec fn radiance<H: Hittable>(world: &H, ray: RayModel, depth: nat, color: V3) -> bool
    decreases depth,
{
    let hit = world.hit_model(ray, T_MIN_RAW as int, T_MAX_RAW as int);
    if depth == 0 {
        color == v_zero()
    } else if hit is None {
        color == background(ray)
    } else {
        exists|out: Option<(V3, RayModel)>, rest: V3|
            #[trigger] bounce(ray, hit, color, out, rest) && (out matches Some(s) ==> radiance(
                world,
                s.1,
                (depth - 1) as nat,
                rest,
            ))
    }
}

/// The random value `sample` is one that the material may draw for a bounce.
pub open spec fn admissible(m: MaterialModel, sample: V3) -> bool {
    match m {
        MaterialModel::Lambertian { albedo } => is_unit_sample(sample),
        MaterialModel::Metal { albedo, fuzz } => in_unit_ball(sample),
    }
}

/// What the material does with the ray `r_in` that hit at `rec`, where it
/// draws `sample`.
pub open spec fn scattered_by(m: MaterialModel, r_in: RayModel, rec: HitModel, sample: V3)
    -> Option<(V3, RayModel)> {
    match m {
        MaterialModel::Lambertian { albedo } => Some(lambertian_scatter(albedo, rec, sample)),
        MaterialModel::Metal { albedo, fuzz } => metal_scatter(albedo, fuzz, r_in, rec, sample),
    }
}

/// The color that `ray` brings back from `world` with `depth` bounces left,
/// where the materials draw the random values `draws`, one for each bounce
/// and in this order. The color depends on nothing else.
pub open spec fn traced<H: Hittable>(world: &H, ray: RayModel, depth: nat, draws: Seq<V3>) -> V3
    decreases depth,
{
    let hit = world.hit_model(ray, T_MIN_RAW as int, T_MAX_RAW as int);
    if depth == 0 {
        v_zero()
    } else if hit is None {
        background(ray)
    } else {
        match scattered_by(hit.unwrap().material, ray, hit.unwrap(), draws[0]) {
            Some(s) => v_mul(s.0, traced(world, s.1, (depth - 1) as nat, draws.skip(1))),
            None => v_zero(),
        }
    }
}

/// `draws` holds a random value for every bounce of `ray`, and each is one
/// that the material of that bounce may draw.
pub open spec fn admissible_draws<H: Hittable>(
    world: &H,
    ray: RayModel,
    depth: nat,
    draws: Seq<V3>,
) -> bool
    decreases depth,
{
    let hit = world.hit_model(ray, T_MIN_RAW as int, T_MAX_RAW as int);
    if depth == 0 || hit is None {
        true
    } else {
        &&& draws.len() >= 1
        &&& admissible(hit.unwrap().material, draws[0])
        &&& match scattered_by(hit.unwrap().material, ray, hit.unwrap(), draws[0]) {
            Some(s) => admissible_draws(world, s.1, (depth - 1) as nat, draws.skip(1)),
            None => true,
        }
    }
}

/// A draw that explains what the material answered.
proof fn lemma_scatter_draw(
    m: MaterialModel,
    r_in: RayModel,
    rec: HitModel,
    out: Option<(V3, RayModel)>,
) -> (sample: V3)
    requires
        scatter_outcome(m, r_in, rec, out),
    ensures
        admissible(m, sample),
        scattered_by(m, r_in, rec, sample) == out,
{
    match m {
        MaterialModel::Lambertian { albedo } => {
            choose|unit: V3| #[trigger] lambertian_draw(albedo, rec, out, unit)
        },
        MaterialModel::Metal { albedo, fuzz } => {
            choose|sample: V3| #[trigger] metal_draw(albedo, fuzz, r_in, rec, out, sample)
        },
    }
}

/// The color that a ray brings back is a function of the ray, the scene, the
/// depth and the random values drawn, and of nothing else: for every color
/// that the ray may bring there are draws that give it, so that the same
/// draws give the same color again.
pub proof fn lemma_color_follows_the_draws<H: Hittable>(
    world: &H,
    ray: RayModel,
    depth: nat,
    color: V3,
) -> (draws: Seq<V3>)
    requires
        radiance(world, ray, depth, color),
    ensures
        admissible_draws(world, ray, depth, draws),
        color == traced(world, ray, depth, draws),
    decreases depth,
{
    let hit = world.hit_model(ray, T_MIN_RAW as int, T_MAX_RAW as int);
    if depth == 0 || hit is None {
        Seq::empty()
    } else {
        let (out, rest) = choose|out: Option<(V3, RayModel)>, rest: V3|
            #[trigger] bounce(ray, hit, color, out, rest) && (out matches Some(s) ==> radiance(
                world,
                s.1,
                (depth - 1) as nat,
                rest,
            ));
        let rec = hit.unwrap();
        let sample = lemma_scatter_draw(rec.material, ray, rec, out);
        match out {
            Some(s) => {
                let tail = lemma_color_follows_the_draws(world, s.1, (depth - 1) as nat, rest);
                let draws = seq![sample] + tail;
                assert(draws[0] == sample);
                assert(draws.skip(1) =~= tail);
                draws
            },
            None => seq![sample],
        }
    }
}

/// A ray without a bounce left brings back black, whatever it would have hit.
pub proof fn lemma_exhausted_depth_is_black<H: Hittable>(world: &H, ray: RayModel, color: V3)
    requires
        radiance(world, ray, 0, color),
    ensures
        color == v_zero(),
{
}

/// A ray that hits nothing brings back the background and nothing else: the
/// blend of white and blue that its direction alone decides.
pub proof fn lemma_miss_is_background<H: Hittable>(
    world: &H,
    ray: RayModel,
    depth: nat,
    color: V3,
)
    requires
        depth > 0,
        world.hit_model(ray, T_MIN_RAW as int, T_MAX_RAW as int) is None,
        radiance(world, ray, depth, color),
    ensures
        color == background(ray),
        color == v_add(
            v_scale(fx_sub(ONE_RAW as int, background_blend(ray)), white()),
            v_scale(background_blend(ray), sky_blue()),
        ),
{
}

/// The background is a color between the blue of the sky and white: its red
/// lies between 0.5 and 1, its green between 0.7 and 1, and its blue is 1,
/// wherever the ray points and however long its direction.
pub proof fn lemma_background_range(ray: RayModel)
    requires
        ray.direction != v_zero(),
        representable(ray.direction),
    ensures
        -1 <= background_blend(ray) <= ONE_RAW,
        within(ray.direction, EXACT_LENGTH_BOUND as int) ==> 0 <= background_blend(ray),
        ONE_RAW / 2 <= background(ray).x <= ONE_RAW,
        SKY_GREEN_RAW <= background(ray).y <= ONE_RAW,
        background(ray).z == ONE_RAW,
{
    lemma_unit_vector_components(ray.direction);
    if within(ray.direction, EXACT_LENGTH_BOUND as int) {
        lemma_unit_vector_length(ray.direction);
    }
    let t = background_blend(ray);
    lemma_blend_of_height(v_unit(ray.direction).y);
    lemma_blend(t);
}

/// The share of blue for a height between minus one and one lies between
/// zero and one; a height that falls short of minus one by a unit of the grid
/// gives a share that falls short of zero by a unit.
proof fn lemma_blend_of_height(y: int)
    requires
        -ONE_RAW - 1 <= y <= ONE_RAW + 1,
    ensures
        -1 <= fx_mul(ONE_RAW / 2, fx_add(y, ONE_RAW as int)) <= ONE_RAW,
        y >= -ONE_RAW ==> 0 <= fx_mul(ONE_RAW / 2, fx_add(y, ONE_RAW as int)),
        fx_mul(ONE_RAW / 2, fx_add(y, ONE_RAW as int)) == (y + ONE_RAW) / 2,
{
    let one: int = 0x1_0000_0000;
    let sum = y + one;
    let p = 0x8000_0000 * sum;
    lemma_fundamental_div_mod(p, one);
    lemma_fundamental_div_mod(sum, 2);
}

/// The higher a ray points, the bluer the background behind it: its red and
/// its green do not grow with the height of the direction at length one.
pub proof fn lemma_background_falls_with_height(low: RayModel, high: RayModel)
    requires
        low.direction != v_zero(),
        high.direction != v_zero(),
        representable(low.direction),
        representable(high.direction),
        v_unit(low.direction).y <= v_unit(high.direction).y,
    ensures
        background_blend(low) <= background_blend(high),
        background(high).x <= background(low).x,
        background(high).y <= background(low).y,
        background(high).z == background(low).z,
{
    lemma_unit_vector_components(low.direction);
    lemma_unit_vector_components(high.direction);
    lemma_blend_of_height(v_unit(low.direction).y);
    lemma_blend_of_height(v_unit(high.direction).y);
    let t1 = background_blend(low);
    let t2 = background_blend(high);
    lemma_blend(t1);
    lemma_blend(t2);
    let g: int = 3_006_477_107;
    let one: int = 0x1_0000_0000;
    assert(t1 <= t2);
    assert((t2 * g) / one <= (t1 * g) / one + (t2 - t1)) by {
        lemma_fundamental_div_mod(t1 * g, one);
        lemma_fundamental_div_mod(t2 * g, one);
    }
}

/// The blend of white and blue with the share `t` of blue, channel by
/// channel. The share may fall short of zero by one unit of the grid, where
/// the direction is too long for its length.
proof fn lemma_blend(t: int)
    requires
        -1 <= t <= ONE_RAW,
    ensures
        v_add(v_scale(fx_sub(ONE_RAW as int, t), white()), v_scale(t, sky_blue())) == (V3 {
            x: ONE_RAW - t + t / 2,
            y: ONE_RAW - t + (t * SKY_GREEN_RAW) / (ONE_RAW as int),
            z: ONE_RAW as int,
        }),
        t >= 0 ==> 0 <= (t * SKY_GREEN_RAW) / (ONE_RAW as int) <= t,
        t < 0 ==> (t * SKY_GREEN_RAW) / (ONE_RAW as int) == t,
{
    let one: int = 0x1_0000_0000;
    let g: int = 3_006_477_107;
    let s = one - t;
    assert((s * one) / one == s) by (nonlinear_arith)
        requires
            one == 0x1_0000_0000,
    ;
    assert((t * one) / one == t) by (nonlinear_arith)
        requires
            one == 0x1_0000_0000,
    ;
    assert(t * (one / 2) == t * 0x8000_0000);
    assert((t * 0x8000_0000) / one == t / 2);
    lemma_fundamental_div_mod(t * g, one);
}

/// The background is a color: every channel lies between 0 and 1, wherever
/// the ray points.
pub proof fn lemma_background_is_a_color(ray: RayModel)
    requires
        ray.direction != v_zero(),
        representable(ray.direction),
    ensures
        in_unit_cube(background(ray)),
{
    lemma_background_range(ray);
}

/// The product of two colors is a color.
pub proof fn lemma_product_of_colors(a: V3, b: V3)
    requires
        in_unit_cube(a),
        in_unit_cube(b),
    ensures
        in_unit_cube(v_mul(a, b)),
{
    lemma_channel_product(a.x, b.x);
    lemma_channel_product(a.y, b.y);
    lemma_channel_product(a.z, b.z);
}

/// The product of two scalars between 0 and 1 lies between 0 and 1.
proof fn lemma_channel_product(a: int, b: int)
    requires
        0 <= a <= ONE_RAW,
        0 <= b <= ONE_RAW,
    ensures
        0 <= fx_mul(a, b) <= ONE_RAW,
{
    let one: int = 0x1_0000_0000;
    let p = a * b;
    assert(0 <= p <= one * one) by (nonlinear_arith)
        requires
            p == a * b,
            0 <= a <= one,
            0 <= b <= one,
    ;
    assert(one * one == 0x1_0000_0000_0000_0000) by (nonlinear_arith)
        requires
            one == 0x1_0000_0000,
    ;
}

/// The color of the background behind `ray`: between the blue of the sky
/// and white.
pub fn background_color(ray: &Ray) -> (color: Vec3)
    ensures
        color@ == background(ray@),
        in_unit_cube(color@),
        ONE_RAW / 2 <= color@.x <= ONE_RAW,
        SKY_GREEN_RAW <= color@.y <= ONE_RAW,
        color@.z == ONE_RAW,
{
    let direction = ray.direction();
    proof {
        assert(representable(direction@));
        lemma_background_is_a_color(ray@);
        lemma_background_range(ray@);
    }
    let unit_direction = unit_vector(direction);
    let half = Fixed::from_raw(ONE_RAW / 2);
    let one = Fixed::one();
    let t = half * (unit_direction.y() + one);
    let white = Vec3::from(one, one, one);
    let blue = Vec3::from(half, Fixed::from_raw(SKY_GREEN_RAW), one);
    (one - t) * white + t * blue
}

/// The color that `ray` brings back from `world`, with at most `depth`
/// bounces.
pub fn ray_color<H: Hittable>(ray: &Ray, world: &H, depth: u32, sampler: &mut Sampler) -> (color:
    Vec3)
    ensures
        radiance(world, ray@, depth as nat, color@),
        exists|draws: Seq<V3>|
            admissible_draws(world, ray@, depth as nat, draws) && color@ == #[trigger] traced(
                world,
                ray@,
                depth as nat,
                draws,
            ),
        depth == 0 ==> color@ == v_zero(),
        depth > 0 && world.hit_model(ray@, T_MIN_RAW as int, T_MAX_RAW as int) is None ==> color@
            == background(ray@),
        in_unit_cube(color@),
    decreases depth,
{
    let color = if depth == 0 {
        Vec3::new()
    } else {
        match world.hit(ray, Fixed::from_raw(T_MIN_RAW), Fixed::from_raw(T_MAX_RAW)) {
            Some(rec) => {
                let out = rec.material.scatter(ray, &rec, sampler);
                match out {
                    Some((attenuation, scattered)) => {
                        let rest = ray_color(&scattered, world, depth - 1, sampler);
                        let color = attenuation * rest;
                        proof {
                            assert(bounce(ray@, Some(rec@), color@, scatter_view(out), rest@));
                            assert(radiance(world, ray@, depth as nat, color@));
                            lemma_product_of_colors(attenuation@, rest@);
                        }
                        color
                    },
                    None => {
                        proof {
                            assert(bounce(
                                ray@,
                                Some(rec@),
                                v_zero(),
                                scatter_view(out),
                                v_zero(),
                            ));
                            assert(radiance(world, ray@, depth as nat, v_zero()));
                        }
                        Vec3::new()
                    },
                }
            },
            None => background_color(ray),
        }
    };
    proof {
        let draws = lemma_color_follows_the_draws(world, ray@, depth as nat, color@);
        assert(color@ == traced(world, ray@, depth as nat, draws));
    }
    color
}

/// The place of a sample on the image plane along one axis, as a share of the
/// extent of the image: `(index + jitter) / extent`, rounded down to the grid.
pub open spec fn sample_coordinate(index: int, extent: int, jitter: int) -> int {
    sat(floor_div(index * ONE_RAW + jitter, extent))
}

/// The ray through the pixel in column `i` and row `j`, rows counted from the
/// bottom, displaced within the pixel by the two jitters.
pub open spec fn sample_ray(
    camera: CameraModel,
    i: int,
    j: int,
    width: int,
    height: int,
    jitter_u: int,
    jitter_v: int,
) -> RayModel {
    camera_ray(
        camera,
        sample_coordinate(i, width, jitter_u),
        sample_coordinate(j, height, jitter_v),
    )
}

/// Where a pixel is on the image and how it is to be sampled.
pub struct PixelModel {
    pub camera: CameraModel,
    /// Column, counted from the left.
    pub i: int,
    /// Row, counted from the bottom.
    pub j: int,
    pub width: int,
    pub height: int,
    pub max_depth: nat,
}

/// `after` is the sum `before` and one more estimate of the pixel's color:
/// what a ray through the pixel, displaced by two jitters in `[0, 1)`, brings
/// back from `world`.
pub open spec fn sample_drawn<H: Hittable>(
    world: &H,
    px: PixelModel,
    before: V3,
    after: V3,
    jitter_u: int,
    jitter_v: int,
    color: V3,
) -> bool {
    &&& 0 <= jitter_u < ONE_RAW
    &&& 0 <= jitter_v < ONE_RAW
    &&& radiance(
        world,
        sample_ray(px.camera, px.i, px.j, px.width, px.height, jitter_u, jitter_v),
        px.max_depth,
        color,
    )
    &&& after == v_add(before, color)
}

/// `total` is a sum that `samples` estimates of the pixel's color may give.
pub open spec fn is_sample_sum<H: Hittable>(world: &H, px: PixelModel, samples: nat, total: V3)
    -> bool
    decreases samples,
{
    if samples == 0 {
        total == v_zero()
    } else {
        exists|before: V3, jitter_u: int, jitter_v: int, color: V3|
            is_sample_sum(world, px, (samples - 1) as nat, before) && #[trigger] sample_drawn(
                world,
                px,
                before,
                total,
                jitter_u,
                jitter_v,
                color,
            )
    }
}

/// The three 8-bit levels of a pixel whose channels sum to `total` over
/// `samples` estimates.
pub open spec fn pixel_bytes(total: V3, samples: int) -> Seq<u8> {
    seq![
        sampled_channel_byte(total.x, samples) as u8,
        sampled_channel_byte(total.y, samples) as u8,
        sampled_channel_byte(total.z, samples) as u8,
    ]
}

/// `rgb` is what `total` gives as the pixel's levels, and `total` is a sum
/// that the estimates may give.
pub open spec fn pixel_from_sum<H: Hittable>(
    world: &H,
    px: PixelModel,
    samples: nat,
    rgb: Seq<u8>,
    total: V3,
) -> bool {
    is_sample_sum(world, px, samples, total) && rgb == pixel_bytes(total, samples as int)
}

/// `rgb` are levels that the pixel may get: those of the mean of `samples`
/// estimates of its color, gamma-corrected.
pub open spec fn is_pixel<H: Hittable>(world: &H, px: PixelModel, samples: nat, rgb: Seq<u8>)
    -> bool {
    exists|total: V3| #[trigger] pixel_from_sum(world, px, samples, rgb, total)
}

/// A sample of a pixel of the image lies on the image: its place is a share
/// between 0 and 1 of the extent of the image.
pub proof fn lemma_sample_on_the_image(index: int, extent: int, jitter: int)
    requires
        0 <= index < extent,
        0 <= jitter < ONE_RAW,
    ensures
        0 <= sample_coordinate(index, extent, jitter) < ONE_RAW,
{
    let one: int = 0x1_0000_0000;
    let n = index * one + jitter;
    let q = n / extent;
    lemma_fundamental_div_mod(n, extent);
    assert(n == q * extent + n % extent) by (nonlinear_arith)
        requires
            n == extent * q + n % extent,
    ;
    assert(n < extent * one);
    assert(q < one) by (nonlinear_arith)
        requires
            q * extent <= n,
            n < extent * one,
            extent > 0,
    ;
    assert(q >= 0) by (nonlinear_arith)
        requires
            n == q * extent + n % extent,
            n % extent < extent,
            n >= 0,
            extent > 0,
    ;
}

/// The place of a sample along one axis of the image, as a share of its
/// extent.
pub fn sample_position(index: u32, extent: u32, jitter: Fixed) -> (r: Fixed)
    requires
        extent > 0,
    ensures
        r@ == sample_coordinate(index as int, extent as int, jitter@),
{
    let sum: i128 = (index as i128) * 0x1_0000_0000 + (jitter.raw as i128);
    Fixed { raw: saturate(floor_div_wide(sum, extent as i128)) }
}

/// The levels of the pixel in column `i` and row `j`, rows counted from the
/// bottom: the mean of `samples_per_pixel` estimates, each from a ray through
/// a random place in the pixel.
pub fn pixel_color<H: Hittable>(
    camera: &Camera,
    world: &H,
    i: u32,
    j: u32,
    image_width: u32,
    image_height: u32,
    samples_per_pixel: u32,
    max_depth: u32,
    sampler: &mut Sampler,
) -> (rgb: [u8; 3])
    requires
        image_width > 0,
        image_height > 0,
        samples_per_pixel > 0,
    ensures
        is_pixel(
            world,
            PixelModel {
                camera: camera@,
                i: i as int,
                j: j as int,
                width: image_width as int,
                height: image_height as int,
                max_depth: max_depth as nat,
            },
            samples_per_pixel as nat,
            rgb@,
        ),
{
    let ghost px = PixelModel {
        camera: camera@,
        i: i as int,
        j: j as int,
        width: image_width as int,
        height: image_height as int,
        max_depth: max_depth as nat,
    };
    let mut pixel_color = Vec3::new();
    let mut s: u32 = 0;
    while s < samples_per_pixel
        invariant
            0 <= s <= samples_per_pixel,
            image_width > 0,
            image_height > 0,
            px == (PixelModel {
                camera: camera@,
                i: i as int,
                j: j as int,
                width: image_width as int,
                height: image_height as int,
                max_depth: max_depth as nat,
            }),
            is_sample_sum(world, px, s as nat, pixel_color@),
        decreases samples_per_pixel - s,
    {
        let jitter_u = random_f64(sampler);
        let jitter_v = random_f64(sampler);
        let u = sample_position(i, image_width, jitter_u);
        let v = sample_position(j, image_height, jitter_v);
        let ray = camera.get_ray(u, v);
        let color = ray_color(&ray, world, max_depth, sampler);
        let ghost before = pixel_color@;
        pixel_color.add_assign(color);
        s = s + 1;
        proof {
            assert(sample_drawn(world, px, before, pixel_color@, jitter_u@, jitter_v@, color@));
        }
    }
    let rgb = pixel_color.as_color_sampled(samples_per_pixel);
    proof {
        assert(rgb@ =~= pixel_bytes(pixel_color@, samples_per_pixel as int));
        assert(pixel_from_sum(world, px, samples_per_pixel as nat, rgb@, pixel_color@));
    }
    rgb
}

/// The pixels of the scanline `j`, rows counted from the bottom, from left to
/// right.
pub fn render_row<H: Hittable>(
    camera: &Camera,
    world: &H,
    j: u32,
    image_width: u32,
    image_height: u32,
    samples_per_pixel: u32,
    max_depth: u32,
    sampler: &mut Sampler,
) -> (row: Vec<[u8; 3]>)
    requires
        image_width > 0,
        image_height > 0,
        samples_per_pixel > 0,
    ensures
        row.len() == image_width,
        forall|i: int|
            0 <= i < image_width ==> is_pixel(
                world,
                PixelModel {
                    camera: camera@,
                    i,
                    j: j as int,
                    width: image_width as int,
                    height: image_height as int,
                    max_depth: max_depth as nat,
                },
                samples_per_pixel as nat,
                (#[trigger] row[i])@,
            ),
{
    let mut row: Vec<[u8; 3]> = Vec::new();
    let mut i: u32 = 0;
    while i < image_width
        invariant
            0 <= i <= image_width,
            image_width > 0,
            image_height > 0,
            samples_per_pixel > 0,
            row.len() == i,
            forall|k: int|
                0 <= k < i ==> is_pixel(
                    world,
                    PixelModel {
                        camera: camera@,
                        i: k,
                        j: j as int,
                        width: image_width as int,
                        height: image_height as int,
                        max_depth: max_depth as nat,
                    },
                    samples_per_pixel as nat,
                    (#[trigger] row[k])@,
                ),
        decreases image_width - i,
    {
        let rgb = pixel_color(
            camera,
            world,
            i,
            j,
            image_width,
            image_height,
            samples_per_pixel,
            max_depth,
            sampler,
        );
        row.push(rgb);
        i = i + 1;
    }
    row
}

/// The image that the camera sees of `world`: its scanlines from the top one
/// down, each from left to right. The scanline `r` of the result is the row
/// `image_height - 1 - r` counted from the bottom.
pub fn render<H: Hittable>(
    camera: &Camera,
    world: &H,
    image_width: u32,
    image_height: u32,
    samples_per_pixel: u32,
    max_depth: u32,
    sampler: &mut Sampler,
) -> (image: Vec<Vec<[u8; 3]>>)
    requires
        image_width > 0,
        image_height > 0,
        samples_per_pixel > 0,
    ensures
        image.len() == image_height,
        forall|r: int| 0 <= r < image_height ==> (#[trigger] image[r]).len() == image_width,
        forall|r: int, i: int|
            0 <= r < image_height && 0 <= i < image_width ==> is_pixel(
                world,
                PixelModel {
                    camera: camera@,
                    i,
                    j: image_height - 1 - r,
                    width: image_width as int,
                    height: image_height as int,
                    max_depth: max_depth as nat,
                },
                samples_per_pixel as nat,
                (#[trigger] image[r][i])@,
            ),
{
    let mut image: Vec<Vec<[u8; 3]>> = Vec::new();
    let mut r: u32 = 0;
    while r < image_height
        invariant
            0 <= r <= image_height,
            image_width > 0,
            image_height > 0,
            samples_per_pixel > 0,
            image.len() == r,
            forall|k: int| 0 <= k < r ==> (#[trigger] image[k]).len() == image_width,
            forall|k: int, i: int|
                0 <= k < r && 0 <= i < image_width ==> is_pixel(
                    world,
                    PixelModel {
                        camera: camera@,
                        i,
                        j: image_height - 1 - k,
                        width: image_width as int,
                        height: image_height as int,
                        max_depth: max_depth as nat,
                    },
                    samples_per_pixel as nat,
                    (#[trigger] image[k][i])@,
                ),
        decreases image_height - r,
    {
        let j = image_height - 1 - r;
        let row = render_row(
            camera,
            world,
            j,
            image_width,
            image_height,
            samples_per_pixel,
            max_depth,
            sampler,
        );
        image.push(row);
        r = r + 1;
    }
    image
}

} // verus!
