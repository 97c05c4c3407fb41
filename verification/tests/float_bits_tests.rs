use lib::float_bits::{ge, le, lt, max, min, nan, total_key_of, INFINITY, NEG_INFINITY, SIGN_BIT, ZERO};

fn b(x: f64) -> u64 {
    x.to_bits()
}

#[test]
fn constants_are_the_standard_bit_patterns() {
    assert_eq!(INFINITY, f64::INFINITY.to_bits());
    assert_eq!(NEG_INFINITY, f64::NEG_INFINITY.to_bits());
    assert_eq!(ZERO, 0.0f64.to_bits());
    assert_eq!(SIGN_BIT, (-0.0f64).to_bits());
}

#[test]
fn nan_detects_every_nan_and_nothing_else() {
    assert!(nan(b(f64::NAN)));
    assert!(nan(b(-f64::NAN)));
    assert!(nan(0x7FF0_0000_0000_0001));
    assert!(!nan(b(f64::INFINITY)));
    assert!(!nan(b(f64::NEG_INFINITY)));
    assert!(!nan(b(0.0)));
    assert!(!nan(b(-1.5)));
}

#[test]
fn comparisons_agree_with_f64_on_samples() {
    let samples = [
        f64::NEG_INFINITY,
        -1.0e300,
        -2.5,
        -1.0,
        -f64::MIN_POSITIVE,
        -0.0,
        0.0,
        5.0e-324,
        1.0,
        1.0000000000000002,
        3.0,
        1.0e300,
        f64::INFINITY,
        f64::NAN,
    ];
    for &x in &samples {
        for &y in &samples {
            assert_eq!(le(b(x), b(y)), x <= y, "{x} <= {y}");
            assert_eq!(lt(b(x), b(y)), x < y, "{x} < {y}");
            assert_eq!(ge(b(x), b(y)), x >= y, "{x} >= {y}");
        }
    }
}

#[test]
fn zeros_compare_equal() {
    assert!(le(b(-0.0), b(0.0)));
    assert!(le(b(0.0), b(-0.0)));
    assert!(!lt(b(-0.0), b(0.0)));
}

#[test]
fn min_and_max_ignore_nan_like_f64() {
    assert_eq!(min(b(f64::NAN), b(2.0)), b(2.0));
    assert_eq!(min(b(2.0), b(f64::NAN)), b(2.0));
    assert_eq!(max(b(f64::NAN), b(-3.0)), b(-3.0));
    assert_eq!(max(b(-3.0), b(f64::NAN)), b(-3.0));
    assert!(nan(min(b(f64::NAN), b(f64::NAN))));
}

#[test]
fn min_and_max_pick_the_right_value() {
    assert_eq!(min(b(1.0), b(-4.0)), b(-4.0));
    assert_eq!(max(b(1.0), b(-4.0)), b(1.0));
    assert_eq!(min(b(f64::NEG_INFINITY), b(-1.0e308)), b(f64::NEG_INFINITY));
    assert_eq!(max(b(7.0), b(f64::INFINITY)), b(f64::INFINITY));
    assert_eq!(f64::from_bits(min(b(0.25), b(0.5))), 0.25f64.min(0.5));
    assert_eq!(f64::from_bits(max(b(0.25), b(0.5))), 0.25f64.max(0.5));
}

#[test]
fn total_key_orders_like_total_cmp() {
    let samples = [
        -f64::NAN,
        f64::NEG_INFINITY,
        -1.0,
        -0.0,
        0.0,
        1.0,
        f64::INFINITY,
        f64::NAN,
    ];
    for &x in &samples {
        for &y in &samples {
            assert_eq!(
                total_key_of(b(x)).cmp(&total_key_of(b(y))),
                x.total_cmp(&y),
                "{x} vs {y}"
            );
        }
    }
}

#[test]
fn total_key_exact_values() {
    assert_eq!(total_key_of(b(0.0)), 0);
    assert_eq!(total_key_of(b(-0.0)), -1);
    assert_eq!(total_key_of(b(1.0)), 0x3FF0_0000_0000_0000);
    assert_eq!(total_key_of(b(-1.0)), -1 - 0x3FF0_0000_0000_0000);
}
