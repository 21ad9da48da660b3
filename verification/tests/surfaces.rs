use raytracer::fixed::{Fixed, ONE_RAW};
use raytracer::hit_record::HitRecord;
use raytracer::hittable::{Hittable, HittableList};
use raytracer::material::{Lambertian, Material, Metal};
use raytracer::ray::Ray;
use raytracer::sphere::Sphere;
use raytracer::vec3::{dot, Vec3};

const T_MIN: i64 = 4294967;

fn point(x: f64, y: f64, z: f64) -> Vec3 {
    let s = 4294967296.0;
    Vec3::from(
        Fixed::from_raw((x * s).round() as i64),
        Fixed::from_raw((y * s).round() as i64),
        Fixed::from_raw((z * s).round() as i64),
    )
}

fn grey() -> Material {
    Material::Lambertian(Lambertian::new(point(0.5, 0.5, 0.5)))
}

fn steel() -> Material {
    Material::Metal(Metal::new(point(0.8, 0.8, 0.8), Fixed::zero()))
}

fn sphere_at(z: f64, material: Material) -> Sphere {
    Sphere::new(point(0.0, 0.0, z), Fixed::from_ratio(1, 2), material)
}

fn forward() -> Ray {
    Ray::from(Vec3::new(), point(0.0, 0.0, -1.0))
}

fn first_hit<H: Hittable>(surface: &H, ray: &Ray) -> Option<HitRecord> {
    surface.hit(ray, Fixed::from_raw(T_MIN), Fixed::from_raw(i64::MAX))
}

#[test]
fn ray_reads_back_what_it_was_made_of() {
    let r = Ray::from(point(1.0, 2.0, 3.0), point(0.0, -1.0, 0.5));
    assert_eq!(r.origin(), point(1.0, 2.0, 3.0));
    assert_eq!(r.direction(), point(0.0, -1.0, 0.5));
}

#[test]
fn ray_at_walks_along_the_direction() {
    let r = Ray::from(point(1.0, 2.0, 3.0), point(0.0, -1.0, 0.5));
    assert_eq!(r.at(Fixed::zero()), point(1.0, 2.0, 3.0));
    assert_eq!(r.at(Fixed::from_int(2)), point(1.0, 0.0, 4.0));
    assert_eq!(r.at(Fixed::from_ratio(-1, 2)), point(1.0, 2.5, 2.75));
}

#[test]
fn sphere_reads_back_what_it_was_made_of() {
    let s = Sphere::new(point(1.0, 2.0, 3.0), Fixed::from_int(4), grey());
    assert_eq!(s.center(), point(1.0, 2.0, 3.0));
    assert_eq!(s.radius(), Fixed::from_int(4));
    assert!(matches!(s.material(), Material::Lambertian(_)));
}

#[test]
fn sphere_in_front_is_hit_head_on() {
    let s = sphere_at(-1.0, grey());
    let rec = s
        .hit(&forward(), Fixed::from_raw(T_MIN), Fixed::from_raw(i64::MAX))
        .unwrap();
    assert_eq!(rec.t, Fixed::from_ratio(1, 2));
    assert_eq!(rec.p, point(0.0, 0.0, -0.5));
    assert_eq!(rec.normal, point(0.0, 0.0, 1.0));
    assert!(rec.front_face);
    assert!(matches!(rec.material, Material::Lambertian(_)));
}

#[test]
fn sphere_hit_from_inside_faces_back() {
    let s = sphere_at(-1.0, grey());
    let from_center = Ray::from(point(0.0, 0.0, -1.0), point(0.0, 0.0, -1.0));
    let rec = first_hit(&s, &from_center).unwrap();
    assert!(!rec.front_face);
    assert_eq!(rec.t, Fixed::from_ratio(1, 2));
    assert_eq!(rec.p, point(0.0, 0.0, -1.5));
    assert_eq!(rec.normal, point(0.0, 0.0, 1.0));
    assert!(dot(rec.normal, from_center.direction()).raw < 0);
    let towards_center = point(0.0, 0.0, -1.0) - rec.p;
    assert!(dot(rec.normal, towards_center).raw > 0);
}

#[test]
fn sphere_hit_from_inside_along_x() {
    let s = Sphere::new(Vec3::new(), Fixed::from_int(2), steel());
    let outward = Ray::from(Vec3::new(), point(1.0, 0.0, 0.0));
    let rec = first_hit(&s, &outward).unwrap();
    assert!(!rec.front_face);
    assert_eq!(rec.t, Fixed::from_int(2));
    assert_eq!(rec.p, point(2.0, 0.0, 0.0));
    assert_eq!(rec.normal, point(-1.0, 0.0, 0.0));
    assert!(matches!(rec.material, Material::Metal(_)));
}

#[test]
fn sphere_hit_from_inside_across_the_center() {
    let s = sphere_at(-1.0, grey());
    let through = Ray::from(point(0.0, 0.0, -0.75), point(0.0, 0.0, -1.0));
    let rec = first_hit(&s, &through).unwrap();
    assert!(!rec.front_face);
    assert_eq!(rec.t, Fixed::from_ratio(3, 4));
    assert_eq!(rec.p, point(0.0, 0.0, -1.5));
    assert_eq!(rec.normal, point(0.0, 0.0, 1.0));
    let across = Ray::from(point(0.25, 0.0, -1.0), point(-1.0, 0.0, 0.0));
    let rec = first_hit(&s, &across).unwrap();
    assert!(!rec.front_face);
    assert_eq!(rec.t, Fixed::from_ratio(3, 4));
    assert_eq!(rec.p, point(-0.5, 0.0, -1.0));
    assert_eq!(rec.normal, point(1.0, 0.0, 0.0));
}

#[test]
fn sphere_beside_the_ray_is_missed() {
    let s = sphere_at(-1.0, grey());
    let upward = Ray::from(Vec3::new(), point(0.0, 1.0, 0.0));
    assert!(first_hit(&s, &upward).is_none());
    let behind = Ray::from(Vec3::new(), point(0.0, 0.0, 1.0));
    assert!(first_hit(&s, &behind).is_none());
}

#[test]
fn sphere_hit_respects_the_range() {
    let s = sphere_at(-1.0, grey());
    let ray = forward();
    let t_min = Fixed::from_raw(T_MIN);
    let t_max = Fixed::from_raw(i64::MAX);
    assert!(s.hit(&ray, t_min, Fixed::from_ratio(1, 4)).is_none());
    let far = s.hit(&ray, Fixed::from_int(1), t_max).unwrap();
    assert_eq!(far.t, Fixed::from_ratio(3, 2));
    assert_eq!(far.p, point(0.0, 0.0, -1.5));
    assert!(!far.front_face);
    assert_eq!(far.normal, point(0.0, 0.0, 1.0));
    assert!(s.hit(&ray, Fixed::from_int(2), t_max).is_none());
    let at_bound = s.hit(&ray, Fixed::from_ratio(1, 2), Fixed::from_ratio(1, 2)).unwrap();
    assert_eq!(at_bound.t, Fixed::from_ratio(1, 2));
}

#[test]
fn sphere_hit_at_an_angle() {
    let s = sphere_at(-1.0, grey());
    let ray = Ray::from(
        Vec3::new(),
        Vec3::from(Fixed::from_raw(429496730), Fixed::from_raw(858993459), Fixed::from_int(-1)),
    );
    let rec = first_hit(&s, &ray).unwrap();
    assert_eq!(rec.t.raw, 2204843047);
    assert_eq!(
        (rec.p.x().raw, rec.p.y().raw, rec.p.z().raw),
        (220484304, 440968609, -2204843047)
    );
    assert_eq!(
        (rec.normal.x().raw, rec.normal.y().raw, rec.normal.z().raw),
        (440968608, 881937218, 4180248498)
    );
    assert!(rec.front_face);
}

#[test]
fn ground_sphere_is_hit_from_above() {
    let ground = Sphere::new(point(0.0, -100.5, -1.0), Fixed::from_int(100), grey());
    let ray = Ray::from(Vec3::new(), point(0.0, -1.0, -1.0));
    let rec = first_hit(&ground, &ray).unwrap();
    assert_eq!(rec.t.raw, 2152825713);
    assert!(rec.front_face);
    assert_eq!(
        (rec.normal.x().raw, rec.normal.y().raw, rec.normal.z().raw),
        (0, 4294913875, 21421415)
    );
}

#[test]
fn short_ray_hits_what_lies_on_its_line() {
    let s = sphere_at(-1.0, grey());
    let short = Ray::from(
        Vec3::new(),
        Vec3::from(Fixed::zero(), Fixed::zero(), Fixed::from_raw(-100)),
    );
    let rec = first_hit(&s, &short).unwrap();
    assert_eq!(rec.t.raw, 92233720353783808);
    assert_eq!(rec.p, point(0.0, 0.0, -0.5));
    assert_eq!(rec.normal, point(0.0, 0.0, 1.0));
    assert!(rec.front_face);
    let slanted = Ray::from(
        Vec3::new(),
        Vec3::from(Fixed::from_raw(3), Fixed::from_raw(-2), Fixed::from_raw(-60000)),
    );
    let rec = first_hit(&s, &slanted).unwrap();
    assert_eq!(rec.t.raw, 153722867482624);
    assert_eq!(
        (rec.p.x().raw, rec.p.y().raw, rec.p.z().raw),
        (107374, -71583, -2147483651)
    );
    assert!(rec.front_face);
    let beside = Ray::from(
        Vec3::new(),
        Vec3::from(Fixed::zero(), Fixed::from_raw(100), Fixed::zero()),
    );
    assert!(first_hit(&s, &beside).is_none());
}

#[test]
fn short_ray_hits_the_ground_where_a_long_one_does() {
    let ground = Sphere::new(point(0.0, -100.5, -1.0), Fixed::from_int(100), grey());
    let long = Ray::from(Vec3::new(), point(0.0, -1.0, -1.0));
    let short = Ray::from(
        Vec3::new(),
        Vec3::from(Fixed::zero(), Fixed::from_raw(-30000), Fixed::from_raw(-30000)),
    );
    let far = first_hit(&ground, &long).unwrap();
    let near = first_hit(&ground, &short).unwrap();
    assert_eq!(near.t.raw, 308210534318080);
    assert_eq!(near.p, far.p);
    assert_eq!(near.normal, far.normal);
    assert_eq!(near.front_face, far.front_face);
}

#[test]
fn short_ray_leaves_a_small_sphere_from_its_center() {
    let small = Sphere::new(Vec3::new(), Fixed::from_raw(1 << 22), grey());
    let short = Ray::from(
        Vec3::new(),
        Vec3::from(Fixed::zero(), Fixed::zero(), Fixed::from_raw(1 << 15)),
    );
    let rec = first_hit(&small, &short).unwrap();
    assert_eq!(rec.t, Fixed::from_int(128));
    assert_eq!(rec.p, Vec3::from(Fixed::zero(), Fixed::zero(), Fixed::from_raw(1 << 22)));
    assert_eq!(rec.normal, point(0.0, 0.0, -1.0));
    assert!(!rec.front_face);
}

#[test]
fn ray_of_one_unit_of_the_grid_still_hits() {
    let s = sphere_at(-1.0, grey());
    let least = Ray::from(
        Vec3::new(),
        Vec3::from(Fixed::zero(), Fixed::zero(), Fixed::from_raw(-1)),
    );
    let rec = first_hit(&s, &least).unwrap();
    assert_eq!(rec.t.raw, i64::MAX);
    assert_eq!(rec.p, point(0.0, 0.0, -0.5));
    assert!(rec.front_face);
}

#[test]
fn record_starts_without_a_normal() {
    let rec = HitRecord::new(point(1.0, 2.0, 3.0), Fixed::from_int(4), grey());
    assert_eq!(rec.p, point(1.0, 2.0, 3.0));
    assert_eq!(rec.t, Fixed::from_int(4));
    assert_eq!(rec.normal, Vec3::new());
    assert!(!rec.front_face);
}

#[test]
fn face_normal_is_turned_against_the_ray() {
    let mut rec = HitRecord::new(point(0.0, 0.0, -0.5), Fixed::from_ratio(1, 2), grey());
    let ray = forward();
    rec.set_face_normal(&ray, point(0.0, 0.0, 1.0));
    assert!(rec.front_face);
    assert_eq!(rec.normal, point(0.0, 0.0, 1.0));
    rec.set_face_normal(&ray, point(0.0, 0.0, -1.0));
    assert!(!rec.front_face);
    assert_eq!(rec.normal, point(0.0, 0.0, 1.0));
    rec.set_face_normal(&ray, point(1.0, 0.0, 0.0));
    assert!(!rec.front_face);
    assert_eq!(rec.normal, point(-1.0, 0.0, 0.0));
    assert_eq!(rec.p, point(0.0, 0.0, -0.5));
    assert_eq!(rec.t, Fixed::from_ratio(1, 2));
}

#[test]
fn list_grows_and_empties() {
    let mut world = HittableList::new();
    assert_eq!(world.len(), 0);
    world.add(sphere_at(-1.0, grey()));
    world.add(sphere_at(-3.0, steel()));
    assert_eq!(world.len(), 2);
    world.clear();
    assert_eq!(world.len(), 0);
    assert!(first_hit(&world, &forward()).is_none());
}

#[test]
fn empty_list_is_never_hit() {
    let world = HittableList::new();
    assert!(first_hit(&world, &forward()).is_none());
}

#[test]
fn list_reports_the_nearest_hit_in_either_order() {
    let near = sphere_at(-1.0, grey());
    let far = sphere_at(-3.0, steel());
    let mut near_first = HittableList::new();
    near_first.add(near);
    near_first.add(far);
    let mut far_first = HittableList::new();
    far_first.add(far);
    far_first.add(near);
    for world in [&near_first, &far_first] {
        let rec = first_hit(world, &forward()).unwrap();
        assert_eq!(rec.t, Fixed::from_ratio(1, 2));
        assert_eq!(rec.p, point(0.0, 0.0, -0.5));
        assert_eq!(rec.normal, point(0.0, 0.0, 1.0));
        assert!(rec.front_face);
        assert!(matches!(rec.material, Material::Lambertian(_)));
    }
}

#[test]
fn list_skips_members_out_of_range() {
    let mut world = HittableList::new();
    world.add(sphere_at(-1.0, grey()));
    world.add(sphere_at(-3.0, steel()));
    let rec = world
        .hit(&forward(), Fixed::from_int(2), Fixed::from_raw(i64::MAX))
        .unwrap();
    assert_eq!(rec.t, Fixed::from_ratio(5, 2));
    assert!(matches!(rec.material, Material::Metal(_)));
    assert!(world
        .hit(&forward(), Fixed::from_int(4), Fixed::from_raw(i64::MAX))
        .is_none());
}

#[test]
fn list_keeps_the_first_of_two_equally_near_hits() {
    let mut world = HittableList::new();
    world.add(sphere_at(-1.0, steel()));
    world.add(sphere_at(-1.0, grey()));
    let rec = first_hit(&world, &forward()).unwrap();
    assert_eq!(rec.t, Fixed::from_ratio(1, 2));
    assert!(matches!(rec.material, Material::Metal(_)));
}

#[test]
fn list_of_one_answers_as_its_member() {
    let s = sphere_at(-1.0, grey());
    let mut world = HittableList::new();
    world.add(s);
    let ray = Ray::from(Vec3::new(), point(0.1, 0.2, -1.0));
    let alone = first_hit(&s, &ray).unwrap();
    let listed = first_hit(&world, &ray).unwrap();
    assert_eq!(alone.t, listed.t);
    assert_eq!(alone.p, listed.p);
    assert_eq!(alone.normal, listed.normal);
    assert_eq!(alone.front_face, listed.front_face);
    assert_eq!(ONE_RAW, 1 << 32);
}

fn squares(v: Vec3) -> i128 {
    let x = v.x().raw as i128;
    let y = v.y().raw as i128;
    let z = v.z().raw as i128;
    x * x + y * y + z * z
}

#[test]
fn sphere_hit_of_an_oblique_ray() {
    let s = sphere_at(-1.0, grey());
    let ray = Ray::from(Vec3::new(), point(0.25, 0.125, -1.0));
    let rec = first_hit(&s, &ray).unwrap();
    assert!(rec.front_face);
    assert_eq!(rec.t.raw, 2240852502);
    assert_eq!(
        (rec.p.x().raw, rec.p.y().raw, rec.p.z().raw),
        (560213125, 280106562, -2240852502)
    );
    assert_eq!(
        (rec.normal.x().raw, rec.normal.y().raw, rec.normal.z().raw),
        (1120426250, 560213124, 4108229588)
    );
}

#[test]
fn sphere_hit_lies_on_the_sphere_with_a_normal_of_length_one() {
    let center = point(0.0, 0.0, -1.0);
    let s = sphere_at(-1.0, grey());
    let one = ONE_RAW as i128;
    let radius = one / 2;
    let mut hits = 0;
    for i in -20i64..=20 {
        for j in -20i64..=20 {
            let direction = Vec3::from(
                Fixed::from_raw(i * ONE_RAW / 40),
                Fixed::from_raw(j * ONE_RAW / 40),
                Fixed::from_raw(-ONE_RAW),
            );
            let ray = Ray::from(Vec3::new(), direction);
            if let Some(rec) = first_hit(&s, &ray) {
                hits += 1;
                let off_the_sphere = squares(rec.p - center) - radius * radius;
                assert!(off_the_sphere.abs() <= 3 * one);
                let off_unit = squares(rec.normal) - one * one;
                assert!(off_unit.abs() <= 46 * one);
                assert!(dot(rec.normal, ray.direction()).raw < 0);
            }
        }
    }
    assert!(hits > 400);
}

#[test]
fn sphere_hit_from_inside_points_back_to_the_center() {
    let center = point(0.0, 0.0, -1.0);
    let s = sphere_at(-1.0, grey());
    let origin = Vec3::from(
        Fixed::from_raw(ONE_RAW / 10),
        Fixed::from_raw(-ONE_RAW / 5),
        Fixed::from_raw(-ONE_RAW + ONE_RAW / 8),
    );
    let direction = Vec3::from(
        Fixed::from_raw(3 * ONE_RAW / 7),
        Fixed::from_raw(ONE_RAW / 3),
        Fixed::from_raw(-ONE_RAW / 9),
    );
    let ray = Ray::from(origin, direction);
    let rec = first_hit(&s, &ray).unwrap();
    assert!(!rec.front_face);
    assert_eq!(rec.t.raw, 3896422511);
    assert_eq!(
        (rec.normal.x().raw, rec.normal.y().raw, rec.normal.z().raw),
        (-4198784180, -879628088, -207870154)
    );
    assert_eq!(dot(rec.normal, rec.p - center).raw, -2147483660);
    assert_eq!(dot(rec.normal, ray.direction()).raw, -2069591614);
}

#[test]
fn sphere_hit_from_just_inside_with_a_range_from_zero() {
    let s = Sphere::new(Vec3::new(), Fixed::from_int(200), grey());
    let origin = Vec3::from(Fixed::from_raw(200 * ONE_RAW - 100), Fixed::zero(), Fixed::zero());
    let inward = Vec3::from(Fixed::from_raw(-(ONE_RAW >> 8)), Fixed::zero(), Fixed::zero());
    let ray = Ray::from(origin, inward);
    let far = s
        .hit(&ray, Fixed::from_raw(1), Fixed::from_raw(i64::MAX))
        .unwrap();
    assert!(!far.front_face);
    assert_eq!(far.t.raw, 439804651110400);
    assert!(dot(far.normal, far.p).raw < 0);
    let at_once = s.hit(&ray, Fixed::zero(), Fixed::from_raw(i64::MAX)).unwrap();
    assert_eq!(at_once.t.raw, 0);
    assert_eq!(at_once.p, origin);
}

#[test]
fn slow_ray_through_the_center_of_a_small_sphere_is_missed() {
    let s = Sphere::new(Vec3::new(), Fixed::from_raw(1 << 24), grey());
    let origin = Vec3::from(Fixed::from_raw(-65_536_000), Fixed::zero(), Fixed::zero());
    let slow = Vec3::from(Fixed::from_raw(65_536), Fixed::zero(), Fixed::zero());
    let ray = Ray::from(origin, slow);
    assert_eq!(ray.direction().length_squared().raw, 1);
    assert_eq!(ray.at(Fixed::from_int(1000)), Vec3::new());
    assert!(s
        .hit(&ray, Fixed::from_raw(T_MIN), Fixed::from_int(4096))
        .is_none());
}
