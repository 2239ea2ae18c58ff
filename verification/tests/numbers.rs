use fracture_core::{Scalar, Vec2};

fn s(value: f32) -> Scalar {
    Scalar::from_bits(value.to_bits())
}

fn f(value: Scalar) -> f32 {
    f32::from_bits(value.to_bits())
}

/// The same number, or both not a number.
fn same(a: Scalar, b: f32) -> bool {
    if b.is_nan() {
        a.is_nan()
    } else {
        a.to_bits() == b.to_bits()
    }
}

/// Numbers of every size and both signs, and the edges between them.
fn samples() -> Vec<f32> {
    let mut out = vec![
        0.0,
        -0.0,
        1.0,
        -1.0,
        0.5,
        -0.5,
        1.5,
        -1.5,
        2.0,
        3.0,
        -7.25,
        0.1,
        -0.1,
        1.0e-45,
        -1.0e-45,
        f32::MIN_POSITIVE,
        1.1754942e-38,
        f32::MAX,
        f32::MIN,
        f32::INFINITY,
        f32::NEG_INFINITY,
        f32::NAN,
        16777216.0,
        16777217.0,
        2147483648.0,
        -2147483648.0,
        2147483520.0,
        -2147483904.0,
        4294967296.0,
        1.0e10,
        -1.0e10,
        0.33333334,
        3.1415927,
        6.2831855,
    ];
    let mut state: u64 = 0x1234_5678_9abc_def1;
    for _ in 0..120 {
        state = state
            .wrapping_mul(6364136223846793005)
            .wrapping_add(1442695040888963407);
        out.push(f32::from_bits((state >> 32) as u32));
        out.push(((state >> 20) as i32 % 4096) as f32 / 64.0);
    }
    out
}

#[test]
fn sums_and_differences_are_those_of_single_precision() {
    let values = samples();
    for &a in &values {
        for &b in &values {
            assert!(same(s(a).plus(s(b)), a + b), "{a:?} + {b:?}");
            assert!(same(s(a).minus(s(b)), a - b), "{a:?} - {b:?}");
        }
    }
}

#[test]
fn products_and_quotients_are_those_of_single_precision() {
    let values = samples();
    for &a in &values {
        for &b in &values {
            assert!(same(s(a).times(s(b)), a * b), "{a:?} * {b:?}");
            assert!(same(s(a).over(s(b)), a / b), "{a:?} / {b:?}");
        }
    }
}

#[test]
fn remainders_are_those_of_single_precision() {
    let values = samples();
    for &a in &values {
        for &b in &values {
            assert!(same(s(a).rem(s(b)), a % b), "{a:?} % {b:?}");
            assert!(
                same(s(a).rem_euclid(s(b)), a.rem_euclid(b)),
                "{a:?} rem_euclid {b:?}"
            );
        }
    }
}

#[test]
fn comparisons_follow_the_numbers() {
    let values = samples();
    for &a in &values {
        for &b in &values {
            assert_eq!(s(a).is_below(s(b)), a < b);
            assert_eq!(s(a).is_at_most(s(b)), a <= b);
            assert_eq!(s(a).equals_value(s(b)), a == b);
            let (max, min) = (f(s(a).max(s(b))), f(s(a).min(s(b))));
            assert!(max == a.max(b) || (max.is_nan() && a.is_nan() && b.is_nan()));
            assert!(min == a.min(b) || (min.is_nan() && a.is_nan() && b.is_nan()));
        }
        assert!(same(s(a).clamp(s(-1.0), s(2.0)), a.clamp(-1.0, 2.0)));
    }
    assert_eq!(s(0.0).max(s(-0.0)), s(0.0));
    assert_eq!(s(-0.0).max(s(0.0)), s(0.0));
    assert_eq!(s(0.0).min(s(-0.0)), s(-0.0));
}

#[test]
fn roots_signs_and_whole_parts_follow_the_numbers() {
    for a in samples() {
        assert!(same(s(a).sqrt(), a.sqrt()), "sqrt {a:?}");
        assert_eq!(s(a).is_nan(), a.is_nan());
        assert_eq!(s(a).is_finite(), a.is_finite());
        assert_eq!(s(a).negate().to_bits(), (-a).to_bits());
        assert_eq!(s(a).abs().to_bits(), a.abs().to_bits());
        assert_eq!(s(a).floor_to_i32(), a.floor() as i32, "floor {a:?}");
    }
}

#[test]
fn integers_become_the_nearest_numbers() {
    for n in [
        0u64,
        1,
        2,
        3,
        16_777_215,
        16_777_216,
        16_777_217,
        16_777_219,
        33_554_435,
        u32::MAX as u64,
        u64::MAX,
        1 << 40,
    ] {
        assert_eq!(f(Scalar::from_u64(n)), n as f32);
    }
    for n in [0i32, 1, -1, 7, -7, 16_777_217, -16_777_217, i32::MAX, i32::MIN] {
        assert_eq!(f(Scalar::from_i32(n)), n as f32);
    }
}

#[test]
fn vectors_have_lengths_and_directions() {
    let v = Vec2::new(s(3.0), s(-4.0));
    assert_eq!(f(v.length()), 5.0);
    assert_eq!(v.normalized_or_zero(), Vec2::new(s(0.6), s(-0.8)));
    assert_eq!(v.perp(), Vec2::new(s(4.0), s(3.0)));
    assert_eq!(f(v.dot(Vec2::new(s(2.0), s(1.0)))), 2.0);
    assert_eq!(Vec2::zero().normalized_or_zero(), Vec2::zero());
    assert!(!Vec2::new(s(f32::NAN), s(0.0)).is_finite());
}
