use pullauta::fbits::{f32_bits_is_nan, f32_bits_widen, f64_bits_is_nan, f64_bits_le, f64_bits_lt};

fn samples() -> Vec<f64> {
    vec![
        0.0,
        -0.0,
        1.5,
        -2.5,
        1.0e300,
        -1.0e300,
        f64::MIN_POSITIVE,
        -f64::MIN_POSITIVE,
        5.0e-324,
        f64::MAX,
        f64::MIN,
        f64::INFINITY,
        f64::NEG_INFINITY,
        f64::NAN,
    ]
}

#[test]
fn bit_order_matches_std_order() {
    for &a in &samples() {
        for &b in &samples() {
            assert_eq!(
                f64_bits_lt(a.to_bits(), b.to_bits()),
                a < b,
                "lt disagrees on {a} and {b}"
            );
            assert_eq!(
                f64_bits_le(a.to_bits(), b.to_bits()),
                a <= b,
                "le disagrees on {a} and {b}"
            );
        }
    }
}

#[test]
fn nan_classification_matches_std() {
    for &a in &samples() {
        assert_eq!(f64_bits_is_nan(a.to_bits()), a.is_nan());
    }
    for a in [0.0f32, -0.0, 3.5, f32::NAN, f32::INFINITY, f32::MIN_POSITIVE, 1.0e-42] {
        assert_eq!(f32_bits_is_nan(a.to_bits()), a.is_nan());
    }
}

#[test]
fn widening_matches_std_conversion() {
    for a in [
        0.0f32,
        -0.0,
        3.5,
        -7.25,
        f32::MAX,
        f32::MIN,
        f32::MIN_POSITIVE,
        1.0e-42,
        1.0e-45,
        f32::INFINITY,
        f32::NEG_INFINITY,
        f32::NAN,
    ] {
        assert_eq!(f32_bits_widen(a.to_bits()), (a as f64).to_bits(), "widen disagrees on {a}");
    }
}
