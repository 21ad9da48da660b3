use raytracer::fixed::{Fixed, ONE_RAW};
use raytracer::random::{random_f64, random_f64_min_max, Sampler, MAX_TRIES};
use raytracer::vec3::{unit_vector, Vec3};

#[test]
fn random_scalars_lie_in_the_unit_interval() {
    let mut sampler = Sampler::from_seed(1);
    for _ in 0..1000 {
        let r = random_f64(&mut sampler);
        assert!(0 <= r.raw && r.raw < ONE_RAW);
    }
}

#[test]
fn random_scalars_vary() {
    let mut sampler = Sampler::from_seed(2);
    let first = random_f64(&mut sampler);
    let mut differs = false;
    for _ in 0..100 {
        if random_f64(&mut sampler) != first {
            differs = true;
        }
    }
    assert!(differs);
}

#[test]
fn random_scalars_between_bounds_lie_between_them() {
    let mut sampler = Sampler::from_seed(3);
    let min = Fixed::from_int(-1);
    let max = Fixed::from_int(1);
    let mut below_zero = false;
    let mut above_zero = false;
    for _ in 0..1000 {
        let r = random_f64_min_max(min, max, &mut sampler);
        assert!(min.raw <= r.raw && r.raw < max.raw);
        if r.raw < 0 {
            below_zero = true;
        }
        if r.raw > 0 {
            above_zero = true;
        }
    }
    assert!(below_zero && above_zero);
}

#[test]
fn random_scalars_in_a_range_of_one_value() {
    let mut sampler = Sampler::from_seed(4);
    let min = Fixed::from_raw(41);
    let max = Fixed::from_raw(42);
    for _ in 0..10 {
        assert_eq!(random_f64_min_max(min, max, &mut sampler).raw, 41);
    }
}

#[test]
fn random_vectors_lie_in_the_cube() {
    let mut sampler = Sampler::from_seed(5);
    let min = Fixed::from_ratio(1, 4);
    let max = Fixed::from_ratio(3, 4);
    for _ in 0..200 {
        let v = Vec3::random(min, max, &mut sampler);
        for axis in 0..3u8 {
            let c = v.index(axis).raw;
            assert!(min.raw <= c && c < max.raw);
        }
    }
}

#[test]
fn random_points_lie_inside_the_unit_sphere() {
    let mut sampler = Sampler::from_seed(6);
    for _ in 0..500 {
        let p = Vec3::random_in_unit_sphere(&mut sampler);
        assert!(p.length_squared().raw < ONE_RAW);
        for axis in 0..3u8 {
            let c = p.index(axis).raw;
            assert!(-ONE_RAW <= c && c < ONE_RAW);
        }
    }
}

#[test]
fn random_directions_have_length_one() {
    let mut sampler = Sampler::from_seed(7);
    for _ in 0..500 {
        let u = Vec3::random_unit_vector(&mut sampler);
        let len = u.length().raw;
        assert!(ONE_RAW - 4 <= len && len <= ONE_RAW + 13, "length {}", len);
        for c in [u.x().raw, u.y().raw, u.z().raw] {
            assert!(-ONE_RAW <= c && c <= ONE_RAW);
        }
    }
}

#[test]
fn direction_towards_a_sample_is_its_unit_vector() {
    let half = Fixed::from_ratio(1, 2);
    let p = Vec3::from(Fixed::zero(), half, Fixed::zero());
    assert_eq!(
        p.direction_towards(),
        Vec3::from(Fixed::zero(), Fixed::one(), Fixed::zero())
    );
    let q = Vec3::from(Fixed::from_ratio(3, 10), Fixed::from_ratio(-4, 10), Fixed::zero());
    let u = q.direction_towards();
    assert_eq!(u, unit_vector(q));
    assert!((u.length().raw - ONE_RAW).abs() <= 4);
}

#[test]
fn direction_towards_a_sample_near_the_center_is_its_unit_vector() {
    let x_axis = Vec3::from(Fixed::one(), Fixed::zero(), Fixed::zero());
    let near = Vec3::from(Fixed::from_raw(1 << 20), Fixed::zero(), Fixed::zero());
    assert_eq!(near.direction_towards(), x_axis);
    let nearest = Vec3::from(Fixed::from_raw(1), Fixed::zero(), Fixed::zero());
    assert_eq!(nearest.direction_towards(), x_axis);
    let down = Vec3::from(Fixed::zero(), Fixed::from_raw(-3), Fixed::zero());
    assert_eq!(
        down.direction_towards(),
        Vec3::from(Fixed::zero(), Fixed::from_int(-1), Fixed::zero())
    );
    let diagonal = Vec3::from(Fixed::from_raw(1), Fixed::from_raw(1), Fixed::zero());
    assert_eq!(diagonal.direction_towards(), unit_vector(diagonal));
    assert_eq!(
        diagonal.direction_towards(),
        Vec3::from(Fixed::from_raw(3037000501), Fixed::from_raw(3037000501), Fixed::zero())
    );
    let slanted = Vec3::from(Fixed::from_raw(1), Fixed::zero(), Fixed::from_raw(3));
    let u = slanted.direction_towards();
    assert_eq!(
        u,
        Vec3::from(Fixed::from_raw(1358187913), Fixed::zero(), Fixed::from_raw(4074563740))
    );
    assert!((u.length().raw - ONE_RAW).abs() <= 4);
}

#[test]
fn direction_towards_the_center_is_the_z_axis() {
    let axis = Vec3::from(Fixed::zero(), Fixed::zero(), Fixed::one());
    assert_eq!(Vec3::new().direction_towards(), axis);
}

#[test]
fn samplers_with_one_seed_give_one_stream() {
    let mut a = Sampler::from_seed(99);
    let mut b = Sampler::from_seed(99);
    for _ in 0..50 {
        assert_eq!(random_f64(&mut a), random_f64(&mut b));
        assert_eq!(
            Vec3::random_unit_vector(&mut a),
            Vec3::random_unit_vector(&mut b)
        );
    }
}

#[test]
fn samplers_with_different_seeds_differ() {
    let mut a = Sampler::from_seed(1);
    let mut b = Sampler::from_seed(2);
    let mut differs = false;
    for _ in 0..50 {
        if random_f64(&mut a) != random_f64(&mut b) {
            differs = true;
        }
    }
    assert!(differs);
}

#[test]
fn the_rejection_sampler_is_bounded() {
    assert_eq!(MAX_TRIES, 64);
}

#[test]
fn rejection_accepts_what_lies_strictly_inside_the_unit_sphere() {
    let half = Fixed::from_ratio(1, 2);
    let inside = Vec3::from(half, half, half);
    assert_eq!(inside.accepted_in_unit_sphere(), Some(inside));
    assert_eq!(Vec3::new().accepted_in_unit_sphere(), Some(Vec3::new()));
    let almost = Vec3::from(Fixed::from_raw(ONE_RAW - 1), Fixed::zero(), Fixed::zero());
    assert_eq!(almost.accepted_in_unit_sphere(), Some(almost));
    let on_the_sphere = Vec3::from(Fixed::zero(), Fixed::from_int(-1), Fixed::zero());
    assert_eq!(on_the_sphere.accepted_in_unit_sphere(), None);
    let corner = Vec3::from(Fixed::from_ratio(3, 5), Fixed::from_ratio(3, 5), Fixed::from_ratio(3, 5));
    assert_eq!(corner.accepted_in_unit_sphere(), None);
    let far = Vec3::from(Fixed::from_int(-1), Fixed::from_int(-1), Fixed::from_int(-1));
    assert_eq!(far.accepted_in_unit_sphere(), None);
}

#[test]
fn random_points_are_points_that_the_rejection_accepts() {
    let mut sampler = Sampler::from_seed(8);
    let mut off_center = false;
    for _ in 0..200 {
        let p = Vec3::random_in_unit_sphere(&mut sampler);
        assert_eq!(p.accepted_in_unit_sphere(), Some(p));
        if p != Vec3::new() {
            off_center = true;
        }
    }
    assert!(off_center);
}
