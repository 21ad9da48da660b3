use raytracer::camera::Camera;
use raytracer::fixed::{Fixed, ONE_RAW};
use raytracer::hittable::HittableList;
use raytracer::material::{Lambertian, Material, Metal};
use raytracer::random::Sampler;
use raytracer::ray::Ray;
use raytracer::render::{
    background_color, pixel_color, ray_color, render, render_row, sample_position, SKY_GREEN_RAW,
    T_MAX_RAW, T_MIN_RAW,
};
use raytracer::sphere::Sphere;
use raytracer::vec3::Vec3;

fn v3(x: f64, y: f64, z: f64) -> Vec3 {
    let s = 4294967296.0;
    Vec3::from(
        Fixed::from_raw((x * s).round() as i64),
        Fixed::from_raw((y * s).round() as i64),
        Fixed::from_raw((z * s).round() as i64),
    )
}

fn parts(v: Vec3) -> (i64, i64, i64) {
    (v.x().raw, v.y().raw, v.z().raw)
}

fn diffuse_scene() -> HittableList {
    let mut world = HittableList::new();
    world.add(Sphere::new(
        v3(0.0, 0.0, -1.0),
        Fixed::from_ratio(1, 2),
        Material::Lambertian(Lambertian::new(v3(0.7, 0.3, 0.3))),
    ));
    world
}

fn mirror_scene() -> HittableList {
    let mut world = HittableList::new();
    world.add(Sphere::new(
        v3(0.0, 0.0, -1.0),
        Fixed::from_ratio(1, 2),
        Material::Metal(Metal::new(v3(0.8, 0.8, 0.8), Fixed::zero())),
    ));
    world
}

fn black_room() -> HittableList {
    let mut world = HittableList::new();
    world.add(Sphere::new(
        Vec3::new(),
        Fixed::from_int(10),
        Material::Lambertian(Lambertian::new(Vec3::new())),
    ));
    world
}

#[test]
fn limits_of_the_ray_parameter() {
    assert_eq!(T_MIN_RAW, Fixed::from_ratio(1, 1000).raw);
    assert_eq!(T_MAX_RAW, i64::MAX);
    assert_eq!(SKY_GREEN_RAW, Fixed::from_ratio(7, 10).raw);
}

#[test]
fn default_camera_looks_down_the_negative_z_axis() {
    let camera = Camera::new();
    let center = camera.get_ray(Fixed::from_ratio(1, 2), Fixed::from_ratio(1, 2));
    assert_eq!(center.origin(), Vec3::new());
    assert_eq!(center.direction(), v3(0.0, 0.0, -1.0));
}

#[test]
fn default_camera_spans_the_viewport() {
    let camera = Camera::new();
    let corner = camera.get_ray(Fixed::zero(), Fixed::zero());
    assert_eq!(parts(corner.direction()), (-7635497415, -ONE_RAW, -ONE_RAW));
    let opposite = camera.get_ray(Fixed::one(), Fixed::one());
    assert_eq!(parts(opposite.direction()), (7635497415, ONE_RAW, -ONE_RAW));
    let inner = camera.get_ray(Fixed::from_ratio(1, 4), Fixed::from_ratio(3, 4));
    assert_eq!(parts(inner.direction()), (-3817748708, 2147483648, -ONE_RAW));
}

#[test]
fn default_is_the_camera_that_new_makes() {
    let a = Camera::new();
    let b = Camera::default();
    for (u, v) in [(0, 0), (1, 3), (2, 2), (4, 1)] {
        let u = Fixed::from_ratio(u, 4);
        let v = Fixed::from_ratio(v, 4);
        assert_eq!(a.get_ray(u, v).direction(), b.get_ray(u, v).direction());
        assert_eq!(a.get_ray(u, v).origin(), b.get_ray(u, v).origin());
    }
}

#[test]
fn camera_with_a_square_viewport() {
    let camera = Camera::with_viewport(Fixed::one(), Fixed::from_int(4), Fixed::from_int(2));
    let corner = camera.get_ray(Fixed::zero(), Fixed::zero());
    assert_eq!(corner.direction(), v3(-2.0, -2.0, -2.0));
    let top_right = camera.get_ray(Fixed::one(), Fixed::one());
    assert_eq!(top_right.direction(), v3(2.0, 2.0, -2.0));
    let center = camera.get_ray(Fixed::from_ratio(1, 2), Fixed::from_ratio(1, 2));
    assert_eq!(center.direction(), v3(0.0, 0.0, -2.0));
}

#[test]
fn background_is_blue_above_and_white_below() {
    let up = Ray::from(Vec3::new(), v3(0.0, 1.0, 0.0));
    assert_eq!(parts(background_color(&up)), (2147483648, 3006477107, 4294967296));
    let down = Ray::from(Vec3::new(), v3(0.0, -3.0, 0.0));
    assert_eq!(background_color(&down), v3(1.0, 1.0, 1.0));
    let level = Ray::from(v3(5.0, 5.0, 5.0), v3(0.0, 0.0, -1.0));
    assert_eq!(parts(background_color(&level)), (3221225472, 3650722201, 4294967296));
    let slanted = Ray::from(Vec3::new(), v3(1.0, 1.0, -1.0));
    assert_eq!(parts(background_color(&slanted)), (2601300341, 3278767122, 4294967296));
}

#[test]
fn ray_that_hits_nothing_brings_the_background() {
    let world = HittableList::new();
    let mut sampler = Sampler::from_seed(21);
    let directions = [
        v3(0.0, 1.0, 0.0),
        v3(0.0, 0.0, -1.0),
        v3(1.0, 1.0, -1.0),
        v3(-0.3, 0.2, 0.9),
    ];
    for d in directions {
        let ray = Ray::from(v3(0.5, 0.5, 0.5), d);
        for depth in [1, 2, 50] {
            assert_eq!(
                ray_color(&ray, &world, depth, &mut sampler),
                background_color(&ray)
            );
        }
    }
    let beside = Ray::from(Vec3::new(), v3(0.0, 1.0, 0.0));
    assert_eq!(
        parts(ray_color(&beside, &diffuse_scene(), 50, &mut sampler)),
        (2147483648, 3006477107, 4294967296)
    );
}

#[test]
fn ray_without_a_bounce_left_brings_black() {
    let mut sampler = Sampler::from_seed(22);
    let towards = Ray::from(Vec3::new(), v3(0.0, 0.0, -1.0));
    let away = Ray::from(Vec3::new(), v3(0.0, 1.0, 0.0));
    assert_eq!(ray_color(&towards, &diffuse_scene(), 0, &mut sampler), Vec3::new());
    assert_eq!(ray_color(&away, &diffuse_scene(), 0, &mut sampler), Vec3::new());
    assert_eq!(ray_color(&away, &HittableList::new(), 0, &mut sampler), Vec3::new());
    assert_eq!(ray_color(&towards, &mirror_scene(), 0, &mut sampler), Vec3::new());
}

#[test]
fn mirror_attenuates_what_the_reflected_ray_brings() {
    let mut sampler = Sampler::from_seed(23);
    let towards = Ray::from(Vec3::new(), v3(0.0, 0.0, -1.0));
    assert_eq!(
        parts(ray_color(&towards, &mirror_scene(), 2, &mut sampler)),
        (2576980377, 2920577760, 3435973837)
    );
    assert_eq!(
        parts(ray_color(&towards, &mirror_scene(), 50, &mut sampler)),
        (2576980377, 2920577760, 3435973837)
    );
}

#[test]
fn last_bounce_brings_black() {
    let mut sampler = Sampler::from_seed(24);
    let towards = Ray::from(Vec3::new(), v3(0.0, 0.0, -1.0));
    assert_eq!(ray_color(&towards, &mirror_scene(), 1, &mut sampler), Vec3::new());
    assert_eq!(ray_color(&towards, &diffuse_scene(), 1, &mut sampler), Vec3::new());
}

#[test]
fn diffuse_surface_darkens_the_light() {
    let mut sampler = Sampler::from_seed(25);
    let towards = Ray::from(Vec3::new(), v3(0.0, 0.0, -1.0));
    for _ in 0..50 {
        let c = ray_color(&towards, &diffuse_scene(), 50, &mut sampler);
        assert!(0 <= c.x().raw && c.x().raw <= Fixed::from_ratio(7, 10).raw + 1);
        assert!(0 <= c.y().raw && c.y().raw <= Fixed::from_ratio(3, 10).raw + 1);
        assert!(0 <= c.z().raw && c.z().raw <= Fixed::from_ratio(3, 10).raw + 1);
    }
}

#[test]
fn background_is_a_color_for_the_longest_directions() {
    let least = Fixed::from_raw(i64::MIN);
    let most = Fixed::from_raw(i64::MAX);
    let zero = Fixed::zero();
    let directions = [
        Vec3::from(zero, least, zero),
        Vec3::from(most, least, most),
        Vec3::from(least, least, least),
        Vec3::from(most, most, most),
        Vec3::from(zero, most, zero),
        Vec3::from(Fixed::from_raw(1), Fixed::from_raw(-1), zero),
    ];
    for d in directions {
        let c = background_color(&Ray::from(Vec3::new(), d));
        for channel in [c.x().raw, c.y().raw, c.z().raw] {
            assert!(0 <= channel && channel <= ONE_RAW, "{:?} behind {:?}", c, d);
        }
        assert!(c.x().raw >= ONE_RAW / 2);
        assert!(c.y().raw >= SKY_GREEN_RAW);
        assert_eq!(c.z().raw, ONE_RAW);
    }
    let down = background_color(&Ray::from(Vec3::new(), Vec3::from(zero, least, zero)));
    assert_eq!(down, v3(1.0, 1.0, 1.0));
}

#[test]
fn ray_color_is_a_color() {
    let mut sampler = Sampler::from_seed(32);
    let mut scene = diffuse_scene();
    scene.add(Sphere::new(
        v3(1.0, 0.0, -1.0),
        Fixed::from_ratio(1, 2),
        Material::Metal(Metal::new(v3(1.0, 1.0, 1.0), Fixed::one())),
    ));
    scene.add(Sphere::new(
        v3(0.0, -100.5, -1.0),
        Fixed::from_int(100),
        Material::Lambertian(Lambertian::new(v3(1.0, 1.0, 1.0))),
    ));
    for i in 0..200 {
        let x = Fixed::from_ratio(i - 100, 50);
        let y = Fixed::from_ratio((i * 7) % 100 - 50, 50);
        let ray = Ray::from(Vec3::new(), Vec3::from(x, y, Fixed::from_int(-1)));
        let c = ray_color(&ray, &scene, 20, &mut sampler);
        for channel in [c.x().raw, c.y().raw, c.z().raw] {
            assert!(0 <= channel && channel <= ONE_RAW);
        }
    }
}

#[test]
fn sample_position_is_a_share_of_the_extent() {
    assert_eq!(sample_position(0, 2, Fixed::zero()).raw, 0);
    assert_eq!(sample_position(1, 2, Fixed::from_ratio(1, 2)).raw, 3221225472);
    assert_eq!(sample_position(3, 4, Fixed::from_raw(ONE_RAW - 1)).raw, 4294967295);
    assert_eq!(sample_position(199, 200, Fixed::from_raw(12345)).raw, 4273492521);
}

#[test]
fn sample_position_on_a_very_wide_image() {
    assert_eq!(sample_position(3_000_000_000, 4_000_000_000, Fixed::zero()).raw, 3221225472);
    assert_eq!(
        sample_position(4294967294, 4294967295, Fixed::from_raw(ONE_RAW - 1)).raw,
        4294967295
    );
    assert_eq!(sample_position(0, 4294967295, Fixed::from_raw(ONE_RAW - 1)).raw, 1);
    assert_eq!(sample_position(0, 4294967295, Fixed::from_raw(ONE_RAW - 2)).raw, 0);
}

#[test]
fn pixel_of_a_black_room_is_black() {
    let camera = Camera::new();
    let world = black_room();
    let mut sampler = Sampler::from_seed(26);
    for (i, j) in [(0, 0), (1, 2), (3, 3)] {
        assert_eq!(
            pixel_color(&camera, &world, i, j, 4, 4, 8, 10, &mut sampler),
            [0, 0, 0]
        );
    }
}

#[test]
fn pixel_of_the_sky_lies_between_blue_and_white() {
    let camera = Camera::new();
    let world = HittableList::new();
    let mut sampler = Sampler::from_seed(27);
    for j in 0..4 {
        for i in 0..4 {
            let rgb = pixel_color(&camera, &world, i, j, 4, 4, 4, 5, &mut sampler);
            assert!(180 <= rgb[0]);
            assert!(213 <= rgb[1]);
            assert_eq!(rgb[2], 255);
        }
    }
}

#[test]
fn image_has_its_top_row_first() {
    let camera = Camera::new();
    let world = HittableList::new();
    let mut sampler = Sampler::from_seed(28);
    let image = render(&camera, &world, 3, 6, 4, 5, &mut sampler);
    assert_eq!(image.len(), 6);
    for row in &image {
        assert_eq!(row.len(), 3);
    }
    for i in 0..3 {
        assert!(image[0][i][0] < image[5][i][0]);
        assert!(image[0][i][1] < image[5][i][1]);
    }
}

#[test]
fn image_of_a_black_room_is_black() {
    let camera = Camera::new();
    let mut sampler = Sampler::from_seed(29);
    let image = render(&camera, &black_room(), 5, 3, 2, 4, &mut sampler);
    assert_eq!(image, vec![vec![[0u8, 0, 0]; 5]; 3]);
}

#[test]
fn row_is_the_scanline_counted_from_the_bottom() {
    let camera = Camera::new();
    let world = diffuse_scene();
    let mut whole = Sampler::from_seed(30);
    let image = render(&camera, &world, 4, 3, 2, 6, &mut whole);
    let mut single = Sampler::from_seed(30);
    let top = render_row(&camera, &world, 2, 4, 3, 2, 6, &mut single);
    assert_eq!(image[0], top);
    let middle = render_row(&camera, &world, 1, 4, 3, 2, 6, &mut single);
    assert_eq!(image[1], middle);
}

#[test]
fn same_seed_gives_the_same_image() {
    let camera = Camera::new();
    let world = diffuse_scene();
    let mut first = Sampler::from_seed(2024);
    let mut second = Sampler::from_seed(2024);
    let a = render(&camera, &world, 2, 2, 1, 50, &mut first);
    let b = render(&camera, &world, 2, 2, 1, 50, &mut second);
    assert_eq!(a.len(), 2);
    assert_eq!(a[0].len(), 2);
    assert_eq!(a[1].len(), 2);
    assert_eq!(a, b);
}

#[test]
fn sphere_in_front_shows_in_the_image() {
    let camera = Camera::new();
    let mut with_sphere = Sampler::from_seed(31);
    let mut without = Sampler::from_seed(31);
    let seen = render(&camera, &diffuse_scene(), 9, 5, 4, 10, &mut with_sphere);
    let sky = render(&camera, &HittableList::new(), 9, 5, 4, 10, &mut without);
    assert_ne!(seen[2][4], sky[2][4]);
    assert!(seen[2][4][2] < 255);
    assert_eq!(seen[0][0], sky[0][0]);
}
