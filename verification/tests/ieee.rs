use rinha_rust_api::ieee::{Double, Single};

fn double(v: f64) -> Double {
    Double { bits: v.to_bits() }
}

fn single(v: f32) -> Single {
    Single { bits: v.to_bits() }
}

const DOUBLES: [f64; 16] = [
    0.0,
    -0.0,
    1.0,
    -1.0,
    0.5,
    -0.5,
    1.5,
    1e-310,
    -1e-310,
    f64::MAX,
    f64::MIN,
    f64::MIN_POSITIVE,
    f64::INFINITY,
    f64::NEG_INFINITY,
    f64::NAN,
    123.456,
];

const SINGLES: [f32; 18] = [
    0.0,
    -0.0,
    1.0,
    -1.0,
    0.5,
    0.99999994,
    1.0000001,
    1e-40,
    -1e-40,
    f32::MAX,
    f32::MIN,
    f32::INFINITY,
    f32::NEG_INFINITY,
    f32::NAN,
    16_777_216.0,
    8_388_607.5,
    2_048.0,
    6.0e10,
];

#[test]
fn doubles_compare_as_numbers_do() {
    for a in DOUBLES {
        assert_eq!(double(a).is_finite(), a.is_finite());
        assert_eq!(double(a).is_nan(), a.is_nan());
        for b in DOUBLES {
            assert_eq!(double(a).lt(double(b)), a < b, "{a} {b}");
        }
    }
}

#[test]
fn the_larger_double_is_the_maximum() {
    for a in DOUBLES {
        for b in DOUBLES {
            let max = f64::from_bits(double(a).max(double(b)).bits);
            if a.is_nan() && b.is_nan() {
                assert!(max.is_nan());
            } else {
                assert_eq!(max, a.max(b));
            }
        }
    }
}

#[test]
fn doubles_are_held_to_the_unit_range() {
    for a in DOUBLES {
        let held = f64::from_bits(double(a).clamp_unit().bits);
        if a.is_nan() {
            assert!(held.is_nan());
        } else {
            assert_eq!(held, a.clamp(0.0, 1.0));
        }
    }
}

#[test]
fn singles_compare_as_numbers_do() {
    for a in SINGLES {
        assert_eq!(single(a).is_nan(), a.is_nan());
        for b in SINGLES {
            assert_eq!(single(a).lt(single(b)), a < b, "{a} {b}");
            assert_eq!(single(a).ge(single(b)), a >= b, "{a} {b}");
        }
    }
}

#[test]
fn singles_compare_with_whole_numbers() {
    for a in SINGLES {
        for n in [0u64, 1, 2, 2047, 2048, 2049, 8_388_607, 8_388_608, 16_777_216, 16_777_217] {
            assert_eq!(single(a).at_least(n), f64::from(a) >= n as f64, "{a} {n}");
        }
        assert_eq!(single(a).at_least(60_129_542_144), f64::from(a) >= 6.0129542144e10);
    }
}

#[test]
fn what_reaches_a_number_reaches_a_smaller_one() {
    for a in SINGLES {
        for n in [1u64, 2048, 16_777_216] {
            if single(a).at_least(n) {
                assert!(single(a).at_least(n - 1));
                assert!(single(a).at_least(0));
            }
        }
    }
}
