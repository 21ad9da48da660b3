use raytracer::fixed::{clamp, Fixed, ONE_RAW};

fn scalar(x: f64) -> Fixed {
    Fixed::from_raw((x * 4294967296.0).round() as i64)
}

#[test]
fn one_has_thirty_two_fractional_bits() {
    assert_eq!(ONE_RAW, 4294967296);
    assert_eq!(Fixed::one().raw, 1i64 << 32);
    assert_eq!(Fixed::zero().raw, 0);
    assert_eq!(Fixed::from_raw(-17).raw, -17);
}

#[test]
fn from_int_scales_and_saturates() {
    assert_eq!(Fixed::from_int(3).raw, 3 * ONE_RAW);
    assert_eq!(Fixed::from_int(-100).raw, -100 * ONE_RAW);
    assert_eq!(Fixed::from_int(1 << 40).raw, i64::MAX);
    assert_eq!(Fixed::from_int(-(1 << 40)).raw, i64::MIN);
}

#[test]
fn from_ratio_rounds_down() {
    assert_eq!(Fixed::from_ratio(7, 10).raw, 3006477107);
    assert_eq!(Fixed::from_ratio(1, 1000).raw, 4294967);
    assert_eq!(Fixed::from_ratio(16, 9).raw, 7635497415);
    assert_eq!(Fixed::from_ratio(1, 3).raw, 1431655765);
    assert_eq!(Fixed::from_ratio(-1, 3).raw, -1431655766);
    assert_eq!(Fixed::from_ratio(1, -3).raw, -1431655766);
    assert_eq!(Fixed::from_ratio(-1, -3).raw, 1431655765);
    assert_eq!(Fixed::from_ratio(1, 2), scalar(0.5));
}

#[test]
fn addition_and_subtraction_saturate() {
    assert_eq!((scalar(1.5) + scalar(2.25)).raw, scalar(3.75).raw);
    assert_eq!((scalar(1.5) - scalar(2.25)).raw, scalar(-0.75).raw);
    assert_eq!((Fixed::from_raw(i64::MAX) + Fixed::from_raw(1)).raw, i64::MAX);
    assert_eq!((Fixed::from_raw(i64::MIN) - Fixed::from_raw(1)).raw, i64::MIN);
    assert_eq!((Fixed::from_raw(i64::MIN) + Fixed::from_raw(i64::MAX)).raw, -1);
}

#[test]
fn negation_saturates_at_the_least_value() {
    assert_eq!((-scalar(2.5)).raw, scalar(-2.5).raw);
    assert_eq!((-Fixed::from_raw(i64::MIN)).raw, i64::MAX);
    assert_eq!((-Fixed::zero()).raw, 0);
}

#[test]
fn multiplication_rounds_down_and_saturates() {
    assert_eq!((scalar(1.5) * scalar(-2.25)).raw, -14495514624);
    assert_eq!((Fixed::from_raw(3) * Fixed::from_raw(5)).raw, 0);
    assert_eq!((Fixed::from_raw(-1) * Fixed::from_raw(1)).raw, -1);
    assert_eq!((Fixed::from_raw(i64::MAX) * Fixed::from_raw(i64::MAX)).raw, i64::MAX);
    assert_eq!((Fixed::from_raw(i64::MIN) * Fixed::from_raw(i64::MAX)).raw, i64::MIN);
    assert_eq!((Fixed::from_int(7) * Fixed::from_int(-6)).raw, -42 * ONE_RAW);
}

#[test]
fn division_rounds_down_and_saturates() {
    assert_eq!((Fixed::from_int(1) / Fixed::from_int(3)).raw, 1431655765);
    assert_eq!((Fixed::from_int(-1) / Fixed::from_int(3)).raw, -1431655766);
    assert_eq!((Fixed::from_raw(-5) / Fixed::from_int(2)).raw, -3);
    assert_eq!((Fixed::from_raw(i64::MAX) / Fixed::from_raw(1)).raw, i64::MAX);
    assert_eq!((Fixed::from_int(42) / Fixed::from_int(-6)).raw, -7 * ONE_RAW);
    assert_eq!((Fixed::zero() / Fixed::from_raw(-1)).raw, 0);
}

#[test]
fn division_by_a_whole_number_rounds_down() {
    assert_eq!(Fixed::from_int(7).div_int(2).raw, 7 * ONE_RAW / 2);
    assert_eq!(Fixed::from_int(7).div_int(-2).raw, -15032385536);
    assert_eq!(Fixed::from_raw(-5).div_int(2).raw, -3);
    assert_eq!(Fixed::from_raw(5).div_int(2).raw, 2);
    assert_eq!(Fixed::from_raw(i64::MAX).div_int(1).raw, i64::MAX);
    assert_eq!(Fixed::from_raw(i64::MIN).div_int(-1).raw, i64::MAX);
    assert_eq!(Fixed::from_raw(1 << 62).div_int(4294967295).raw, 1 << 30);
}

#[test]
fn square_root_rounds_down() {
    assert_eq!(Fixed::from_int(9).sqrt().raw, 3 * ONE_RAW);
    assert_eq!(Fixed::from_int(2).sqrt().raw, 6074000999);
    assert_eq!(scalar(0.25).sqrt().raw, scalar(0.5).raw);
    assert_eq!(Fixed::from_raw(1).sqrt().raw, 65536);
    assert_eq!(Fixed::zero().sqrt().raw, 0);
    assert_eq!(Fixed::from_raw(i64::MAX).sqrt().raw, 199032864766430);
}

#[test]
fn square_root_is_the_integer_root_of_the_scaled_value() {
    for raw in [1i64, 2, 3, 1000, 4294967295, 4294967296, 4294967297, 123456789012345, i64::MAX] {
        let r = Fixed::from_raw(raw).sqrt().raw as i128;
        let n = (raw as i128) << 32;
        assert!(r >= 0);
        assert!(r * r <= n);
        assert!(n < (r + 1) * (r + 1));
    }
}

#[test]
fn clamp_limits_to_the_interval() {
    let lo = Fixed::zero();
    let hi = Fixed::from_int(255);
    assert_eq!(clamp(Fixed::from_int(-3), lo, hi), lo);
    assert_eq!(clamp(Fixed::from_int(300), lo, hi), hi);
    assert_eq!(clamp(Fixed::from_int(12), lo, hi), Fixed::from_int(12));
    assert_eq!(clamp(lo, lo, hi), lo);
    assert_eq!(clamp(hi, lo, hi), hi);
}
