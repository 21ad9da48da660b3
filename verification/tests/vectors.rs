use raytracer::fixed::{Fixed, ONE_RAW};
use raytracer::vec3::{dot, reflect, unit_vector, Vec3};

fn vector(x: f64, y: f64, z: f64) -> Vec3 {
    let s = 4294967296.0;
    Vec3::from(
        Fixed::from_raw((x * s).round() as i64),
        Fixed::from_raw((y * s).round() as i64),
        Fixed::from_raw((z * s).round() as i64),
    )
}

fn raws(v: Vec3) -> (i64, i64, i64) {
    (v.x().raw, v.y().raw, v.z().raw)
}

#[test]
fn new_is_the_zero_vector() {
    assert_eq!(raws(Vec3::new()), (0, 0, 0));
    assert_eq!(Vec3::new(), vector(0.0, 0.0, 0.0));
}

#[test]
fn from_keeps_the_components() {
    let v = Vec3::from(Fixed::from_raw(1), Fixed::from_raw(-2), Fixed::from_raw(3));
    assert_eq!(v.x().raw, 1);
    assert_eq!(v.y().raw, -2);
    assert_eq!(v.z().raw, 3);
}

#[test]
fn index_reads_the_axes() {
    let v = vector(1.0, 2.0, 3.0);
    assert_eq!(*v.index(0), Fixed::from_int(1));
    assert_eq!(*v.index(1), Fixed::from_int(2));
    assert_eq!(*v.index(2), Fixed::from_int(3));
}

#[test]
fn index_mut_writes_one_axis() {
    let mut v = vector(1.0, 2.0, 3.0);
    *v.index_mut(1) = Fixed::from_int(7);
    assert_eq!(v, vector(1.0, 7.0, 3.0));
    *v.index_mut(0) = Fixed::from_int(-1);
    *v.index_mut(2) = Fixed::zero();
    assert_eq!(v, vector(-1.0, 7.0, 0.0));
}

#[test]
fn vectors_add_and_subtract_by_component() {
    let a = vector(1.0, -2.0, 0.5);
    let b = vector(0.25, 4.0, -8.0);
    assert_eq!(a + b, vector(1.25, 2.0, -7.5));
    assert_eq!(a - b, vector(0.75, -6.0, 8.5));
    assert_eq!(-a, vector(-1.0, 2.0, -0.5));
    assert_eq!(a + Fixed::from_int(1), vector(2.0, -1.0, 1.5));
}

#[test]
fn vectors_scale_and_divide() {
    let a = vector(1.0, -2.0, 0.5);
    let two = Fixed::from_int(2);
    assert_eq!(two * a, vector(2.0, -4.0, 1.0));
    assert_eq!(a * two, vector(2.0, -4.0, 1.0));
    assert_eq!(a / two, vector(0.5, -1.0, 0.25));
    assert_eq!(a * vector(3.0, 0.5, -4.0), vector(3.0, -1.0, -2.0));
}

#[test]
fn assigning_operations_update_in_place() {
    let mut a = vector(1.0, -2.0, 0.5);
    a.add_assign(vector(1.0, 1.0, 1.0));
    assert_eq!(a, vector(2.0, -1.0, 1.5));
    a.mul_assign(Fixed::from_int(-2));
    assert_eq!(a, vector(-4.0, 2.0, -3.0));
}

#[test]
fn dot_product_sums_the_products() {
    assert_eq!(dot(vector(1.0, 2.0, 3.0), vector(4.0, -5.0, 6.0)).raw, 51539607552);
    assert_eq!(dot(vector(1.0, 0.0, 0.0), vector(0.0, 1.0, 0.0)).raw, 0);
}

#[test]
fn squared_length_and_length() {
    let v = vector(3.0, 4.0, 0.0);
    assert_eq!(v.length_squared().raw, 25 * ONE_RAW);
    assert_eq!(v.length().raw, 5 * ONE_RAW);
    assert_eq!(Vec3::new().length().raw, 0);
}

#[test]
fn length_vanishes_for_the_zero_vector_only() {
    let tiny = Vec3::from(Fixed::from_raw(1), Fixed::from_raw(1), Fixed::from_raw(1));
    assert_eq!(tiny.length_squared().raw, 0);
    assert_eq!(tiny.length().raw, 1);
    let small = Vec3::from(Fixed::from_raw(3), Fixed::from_raw(4), Fixed::zero());
    assert_eq!(small.length().raw, 5);
}

#[test]
fn length_saturates() {
    let m = Fixed::from_raw(i64::MIN);
    assert_eq!(Vec3::from(m, m, m).length().raw, i64::MAX);
}

#[test]
fn unit_vector_of_an_axis_is_exact() {
    assert_eq!(unit_vector(vector(0.0, 0.0, -5.0)), vector(0.0, 0.0, -1.0));
    assert_eq!(unit_vector(vector(0.0, 0.125, 0.0)), vector(0.0, 1.0, 0.0));
    let tiny = Vec3::from(Fixed::from_raw(1), Fixed::zero(), Fixed::zero());
    assert_eq!(unit_vector(tiny), vector(1.0, 0.0, 0.0));
}

#[test]
fn unit_vector_rounds_each_component_down() {
    assert_eq!(raws(unit_vector(vector(3.0, 4.0, 0.0))), (2576980377, 3435973836, 0));
    assert_eq!(
        raws(unit_vector(vector(1.0, 2.0, 3.0))),
        (1147878293, 2295756587, 3443634880)
    );
}

#[test]
fn unit_vector_has_length_one() {
    let vectors = [
        vector(3.0, 4.0, 0.0),
        vector(1.0, 2.0, 3.0),
        vector(-0.001, 0.002, 0.0005),
        vector(100.5, -20.25, 7.0),
        vector(-1.0, -1.0, -1.0),
        vector(12345.0, 0.5, -999.0),
        vector(0.0, 0.0, -0.00001),
    ];
    for v in vectors {
        let excess = unit_vector(v).length().raw - ONE_RAW;
        assert!(-4 <= excess && excess <= 13, "excess {} for {:?}", excess, v);
        if v.length().raw >= ONE_RAW {
            assert!(excess <= 7);
        }
    }
}

#[test]
fn unit_vector_of_a_vector_of_a_few_units_is_as_fine() {
    let tiny = Vec3::from(Fixed::from_raw(1), Fixed::from_raw(1), Fixed::from_raw(1));
    let unit = unit_vector(tiny);
    assert_eq!(raws(unit), (2479700525, 2479700525, 2479700525));
    assert_eq!(unit.length().raw, ONE_RAW);
    let slanted = Vec3::from(Fixed::from_raw(1), Fixed::zero(), Fixed::from_raw(3));
    assert_eq!(raws(unit_vector(slanted)), (1358187913, 0, 4074563740));
    let short = Vec3::from(Fixed::from_raw(1 << 20), Fixed::zero(), Fixed::zero());
    assert_eq!(raws(unit_vector(short)), (ONE_RAW, 0, 0));
}

#[test]
fn reflect_mirrors_at_the_plane() {
    assert_eq!(
        reflect(vector(1.0, -1.0, 0.0), vector(0.0, 1.0, 0.0)),
        vector(1.0, 1.0, 0.0)
    );
    assert_eq!(
        reflect(vector(1.0, -2.0, 3.0), vector(0.0, 0.0, 1.0)),
        vector(1.0, -2.0, -3.0)
    );
}

#[test]
fn reflection_keeps_the_angle_to_the_normal() {
    let n = vector(0.0, 1.0, 0.0);
    let incoming = unit_vector(vector(3.0, -4.0, 0.0));
    let reflected = reflect(incoming, n);
    assert_eq!(raws(reflected), (2576980377, 3435973837, 0));
    assert_eq!(dot(reflected, n).raw, dot(-incoming, n).raw);
    let slanted = unit_vector(vector(1.0, 2.0, 2.0));
    let incoming = unit_vector(vector(0.3, -0.8, 0.1));
    let reflected = reflect(incoming, slanted);
    let difference = dot(reflected, slanted).raw - dot(-incoming, slanted).raw;
    assert!(difference.abs() <= 16, "difference {}", difference);
}

#[test]
fn near_zero_asks_every_component_to_be_below_the_threshold() {
    assert!(Vec3::new().near_zero());
    let below = Fixed::from_raw(42);
    let at = Fixed::from_raw(43);
    assert!(Vec3::from(below, below, below).near_zero());
    assert!(!Vec3::from(at, below, below).near_zero());
    assert!(!Vec3::from(below, at, below).near_zero());
    assert!(!Vec3::from(below, below, at).near_zero());
    assert!(!vector(1.0, 0.0, 1.0).near_zero());
}

#[test]
fn near_zero_goes_by_the_magnitude_of_the_components() {
    assert!(!vector(-1.0, 0.0, 0.0).near_zero());
    assert!(!vector(-0.5, -0.5, -1.0).near_zero());
    assert!(!vector(0.0, -0.00001, 0.0).near_zero());
    let below = Fixed::from_raw(-42);
    let at = Fixed::from_raw(-43);
    assert!(Vec3::from(below, below, below).near_zero());
    assert!(Vec3::from(below, Fixed::from_raw(42), Fixed::zero()).near_zero());
    assert!(!Vec3::from(at, below, below).near_zero());
    assert!(!Vec3::from(below, at, below).near_zero());
    assert!(!Vec3::from(below, below, at).near_zero());
}

#[test]
fn as_color_scales_to_bytes() {
    assert_eq!(vector(0.0, 0.5, 1.0).as_color(), [0, 127, 255]);
    assert_eq!(vector(-1.0, 3.0, 0.999).as_color(), [0, 255, 254]);
    assert_eq!(vector(0.25, 0.75, 0.1).as_color(), [63, 191, 25]);
}

#[test]
fn as_color_sampled_takes_the_mean_of_any_number_of_samples() {
    let sum = Fixed::from_raw(1 << 62);
    let total = Vec3::from(sum, Fixed::zero(), Fixed::from_raw(i64::MAX));
    assert_eq!(total.as_color_sampled(4294967295), [127, 0, 180]);
    assert_eq!(total.as_color_sampled(1 << 31), [180, 0, 254]);
}

#[test]
fn as_color_sampled_averages_and_takes_the_root() {
    assert_eq!(vector(1.0, 0.25, 0.0).as_color_sampled(1), [255, 127, 0]);
    assert_eq!(vector(100.0, 25.0, 50.0).as_color_sampled(100), [255, 127, 180]);
    assert_eq!(vector(9.0, -1.0, 4.0).as_color_sampled(1), [255, 0, 255]);
    assert_eq!(vector(0.5, 0.7, 1.0).as_color_sampled(1), [180, 213, 255]);
}
