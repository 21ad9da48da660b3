use raytracer::fixed::Fixed;
use raytracer::hit_record::HitRecord;
use raytracer::material::{Lambertian, Material, Metal};
use raytracer::random::Sampler;
use raytracer::ray::Ray;
use raytracer::vec3::{dot, unit_vector, Vec3};

fn triple(x: f64, y: f64, z: f64) -> Vec3 {
    let s = 4294967296.0;
    Vec3::from(
        Fixed::from_raw((x * s).round() as i64),
        Fixed::from_raw((y * s).round() as i64),
        Fixed::from_raw((z * s).round() as i64),
    )
}

fn components(v: Vec3) -> (i64, i64, i64) {
    (v.x().raw, v.y().raw, v.z().raw)
}

fn record(p: Vec3, normal: Vec3, material: Material) -> HitRecord {
    HitRecord { p, normal, t: Fixed::one(), front_face: true, material }
}

fn floor_record(material: Material) -> HitRecord {
    record(triple(1.0, 0.0, -2.0), triple(0.0, 1.0, 0.0), material)
}

#[test]
fn lambertian_attenuates_by_its_albedo() {
    let albedo = triple(0.7, 0.3, 0.3);
    let m = Lambertian::new(albedo);
    let rec = record(triple(0.0, 0.0, -0.5), triple(0.0, 0.0, 1.0), Material::Lambertian(m));
    let (attenuation, scattered) = m.scatter_with(&rec, triple(1.0, 0.0, 0.0));
    assert_eq!(attenuation, albedo);
    assert_eq!(scattered.origin(), triple(0.0, 0.0, -0.5));
    assert_eq!(scattered.direction(), triple(1.0, 0.0, 1.0));
}

#[test]
fn lambertian_falls_back_to_the_normal_when_the_sum_cancels() {
    let m = Lambertian::new(triple(0.5, 0.5, 0.5));
    let normal = triple(0.0, 0.0, 1.0);
    let rec = record(triple(0.0, 0.0, -0.5), normal, Material::Lambertian(m));
    let (_, opposite) = m.scatter_with(&rec, triple(0.0, 0.0, -1.0));
    assert_eq!(opposite.direction(), normal);
    assert!(opposite.direction().length().raw > 0);
    let almost = Vec3::from(Fixed::from_raw(42), Fixed::from_raw(-7), Fixed::from_raw(-4294967296 + 42));
    let (_, nearly) = m.scatter_with(&rec, almost);
    assert_eq!(nearly.direction(), normal);
    let just_off = Vec3::from(Fixed::from_raw(43), Fixed::zero(), Fixed::from_raw(-4294967296));
    let (_, kept) = m.scatter_with(&rec, just_off);
    assert_eq!(components(kept.direction()), (43, 0, 0));
}

#[test]
fn lambertian_scatters_off_a_surface_that_faces_down() {
    let m = Lambertian::new(triple(0.5, 0.5, 0.5));
    let normal = triple(0.0, 0.0, -1.0);
    let rec = record(Vec3::new(), normal, Material::Lambertian(m));
    let (_, sideways) = m.scatter_with(&rec, triple(0.0, -1.0, 0.0));
    assert_eq!(sideways.direction(), triple(0.0, -1.0, -1.0));
    let (_, along) = m.scatter_with(&rec, triple(0.0, 0.0, -1.0));
    assert_eq!(along.direction(), triple(0.0, 0.0, -2.0));
    let (_, cancelled) = m.scatter_with(&rec, triple(0.0, 0.0, 1.0));
    assert_eq!(cancelled.direction(), normal);
    let nearly = Vec3::from(Fixed::from_raw(-42), Fixed::from_raw(42), Fixed::from_raw(4294967296 - 42));
    let (_, fallen_back) = m.scatter_with(&rec, nearly);
    assert_eq!(fallen_back.direction(), normal);
    let off = Vec3::from(Fixed::from_raw(-43), Fixed::zero(), Fixed::from_raw(4294967296));
    let (_, kept) = m.scatter_with(&rec, off);
    assert_eq!(components(kept.direction()), (-43, 0, 0));
}

#[test]
fn lambertian_always_scatters_from_the_hit_point() {
    let albedo = triple(0.8, 0.8, 0.0);
    let m = Lambertian::new(albedo);
    let p = triple(0.25, -1.0, 3.0);
    let normal = unit_vector(triple(1.0, 1.0, 1.0));
    let rec = record(p, normal, Material::Lambertian(m));
    let incoming = Ray::from(Vec3::new(), triple(0.0, 0.0, -1.0));
    let mut sampler = Sampler::from_seed(11);
    for _ in 0..500 {
        let (attenuation, scattered) = m.scatter(&incoming, &rec, &mut sampler).unwrap();
        assert_eq!(attenuation, albedo);
        assert_eq!(scattered.origin(), p);
        assert_ne!(scattered.direction(), Vec3::new());
        assert!(scattered.direction().length().raw > 0);
    }
}

#[test]
fn metal_without_fuzz_is_a_mirror() {
    let albedo = triple(0.8, 0.8, 0.8);
    let m = Metal::new(albedo, Fixed::zero());
    let rec = floor_record(Material::Metal(m));
    let incoming = Ray::from(triple(0.0, 1.0, -2.0), triple(1.0, -1.0, 0.0));
    let (attenuation, scattered) = m
        .scatter_with(&incoming, &rec, triple(0.3, -0.2, 0.1))
        .unwrap();
    assert_eq!(attenuation, albedo);
    assert_eq!(scattered.origin(), triple(1.0, 0.0, -2.0));
    assert_eq!(components(scattered.direction()), (3037000500, 3037000501, 0));
    let unit_incoming = unit_vector(incoming.direction());
    assert_eq!(
        dot(scattered.direction(), rec.normal).raw,
        dot(-unit_incoming, rec.normal).raw
    );
}

#[test]
fn metal_reflects_straight_back_when_hit_head_on() {
    let m = Metal::new(triple(0.8, 0.6, 0.2), Fixed::zero());
    let rec = floor_record(Material::Metal(m));
    let incoming = Ray::from(triple(1.0, 5.0, -2.0), triple(0.0, -3.0, 0.0));
    let (_, scattered) = m.scatter_with(&incoming, &rec, Vec3::new()).unwrap();
    assert_eq!(scattered.direction(), triple(0.0, 1.0, 0.0));
}

#[test]
fn metal_absorbs_what_is_reflected_into_the_surface() {
    let m = Metal::new(triple(0.8, 0.8, 0.8), Fixed::zero());
    let rec = floor_record(Material::Metal(m));
    let along_normal = Ray::from(triple(1.0, -1.0, -2.0), triple(0.0, 1.0, 0.0));
    assert!(m.scatter_with(&along_normal, &rec, Vec3::new()).is_none());
    let grazing = Ray::from(triple(0.0, 0.0, -2.0), triple(1.0, 0.0, 0.0));
    assert!(m.scatter_with(&grazing, &rec, Vec3::new()).is_none());
}

#[test]
fn metal_fuzz_perturbs_the_reflection() {
    let m = Metal::new(triple(0.8, 0.8, 0.8), Fixed::from_ratio(1, 2));
    let rec = floor_record(Material::Metal(m));
    let incoming = Ray::from(triple(0.0, 1.0, -2.0), triple(3.0, -4.0, 0.0));
    let (_, scattered) = m
        .scatter_with(&incoming, &rec, triple(0.25, 0.5, -0.125))
        .unwrap();
    assert_eq!(
        components(scattered.direction()),
        (3113851289, 4509715661, -268435456)
    );
}

#[test]
fn metal_fuzz_can_push_the_reflection_into_the_surface() {
    let m = Metal::new(triple(0.8, 0.8, 0.8), Fixed::one());
    let rec = floor_record(Material::Metal(m));
    let incoming = Ray::from(triple(0.0, 1.0, -2.0), triple(1.0, -0.1, 0.0));
    assert!(m
        .scatter_with(&incoming, &rec, triple(0.0, -0.9, 0.0))
        .is_none());
    assert!(m.scatter_with(&incoming, &rec, Vec3::new()).is_some());
}

#[test]
fn metal_scatter_leaves_the_surface_or_absorbs() {
    let albedo = triple(0.8, 0.6, 0.2);
    let m = Metal::new(albedo, Fixed::one());
    let rec = floor_record(Material::Metal(m));
    let incoming = Ray::from(triple(0.0, 1.0, -2.0), triple(1.0, -0.2, 0.0));
    let mut sampler = Sampler::from_seed(12);
    let mut scattered_some = false;
    let mut absorbed_some = false;
    for _ in 0..500 {
        match m.scatter(&incoming, &rec, &mut sampler) {
            Some((attenuation, scattered)) => {
                scattered_some = true;
                assert_eq!(attenuation, albedo);
                assert_eq!(scattered.origin(), rec.p);
                assert!(dot(scattered.direction(), rec.normal).raw > 0);
            }
            None => absorbed_some = true,
        }
    }
    assert!(scattered_some && absorbed_some);
}

#[test]
fn material_asks_the_variant_it_holds() {
    let diffuse = Material::Lambertian(Lambertian::new(triple(0.1, 0.2, 0.3)));
    let mirror = Material::Metal(Metal::new(triple(0.9, 0.9, 0.9), Fixed::zero()));
    let incoming = Ray::from(triple(1.0, 1.0, -2.0), triple(0.0, -1.0, 0.0));
    let mut sampler = Sampler::from_seed(13);
    let rec = floor_record(diffuse);
    let (attenuation, scattered) = diffuse.scatter(&incoming, &rec, &mut sampler).unwrap();
    assert_eq!(attenuation, triple(0.1, 0.2, 0.3));
    assert_eq!(scattered.origin(), rec.p);
    let rec = floor_record(mirror);
    let (attenuation, scattered) = mirror.scatter(&incoming, &rec, &mut sampler).unwrap();
    assert_eq!(attenuation, triple(0.9, 0.9, 0.9));
    assert_eq!(scattered.direction(), triple(0.0, 1.0, 0.0));
}

fn squares(v: Vec3) -> i128 {
    let x = v.x().raw as i128;
    let y = v.y().raw as i128;
    let z = v.z().raw as i128;
    x * x + y * y + z * z
}

#[test]
fn lambertian_direction_is_not_longer_than_two() {
    let m = Lambertian::new(triple(0.5, 0.5, 0.5));
    let normal = triple(0.0, 0.0, 1.0);
    let rec = record(triple(0.0, 0.0, -0.5), normal, Material::Lambertian(m));
    let one: i64 = 4294967296;
    let samples = [
        triple(0.0, 0.0, 0.999),
        triple(0.3, -0.2, 0.1),
        triple(-0.5, 0.5, 0.5),
        triple(0.001, 0.0, 0.0),
        Vec3::from(Fixed::from_raw(1), Fixed::zero(), Fixed::from_raw(3)),
    ];
    for sample in samples {
        let unit = unit_vector(sample);
        let (_, scattered) = m.scatter_with(&rec, unit);
        let length = scattered.direction().length().raw;
        assert!(length > 0);
        assert!(length <= 2 * one + 35);
        assert!(dot(scattered.direction(), normal).raw >= -73);
    }
    let (_, plain) = m.scatter_with(&rec, unit_vector(triple(0.3, -0.2, 0.1)));
    assert!(plain.direction().length().raw <= 2 * one + 35);
    let (_, along) = m.scatter_with(&rec, normal);
    assert_eq!(along.direction().length().raw, 2 * one);
}

#[test]
fn metal_fuzz_stays_within_its_radius() {
    let fuzz = Fixed::from_ratio(1, 2);
    let rough = Metal::new(triple(0.8, 0.8, 0.8), fuzz);
    let mirror = Metal::new(triple(0.8, 0.8, 0.8), Fixed::zero());
    let rec = floor_record(Material::Metal(rough));
    let incoming = Ray::from(triple(0.0, 1.0, -2.0), triple(3.0, -4.0, 0.0));
    let (_, reflected) = mirror.scatter_with(&incoming, &rec, Vec3::new()).unwrap();
    let samples = [
        triple(0.25, 0.5, -0.125),
        triple(0.57, 0.57, 0.57),
        triple(-0.99, 0.0, 0.1),
        triple(0.0, 0.9999, 0.0),
    ];
    for sample in samples {
        assert!(sample.length_squared().raw < 4294967296);
        let (_, scattered) = rough.scatter_with(&incoming, &rec, sample).unwrap();
        let strayed = scattered.direction() - reflected.direction();
        assert!(strayed.length().raw <= fuzz.raw + 6);
        let bound = (fuzz.raw + 6) as i128;
        assert!(squares(strayed) < (bound + 1) * (bound + 1));
    }
}
