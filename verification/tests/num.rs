use rustkit_layout::num::Num;

fn n(v: f32) -> Num {
    Num::from_bits(v.to_bits())
}

fn same(a: Num, b: f32) -> bool {
    let a = f32::from_bits(a.to_bits());
    (a.is_nan() && b.is_nan()) || a.to_bits() == b.to_bits()
}

/// Numbers of all magnitudes, with the edges between their ranges.
fn samples() -> Vec<f32> {
    let mut v = vec![
        0.0,
        -0.0,
        1.0,
        -1.0,
        0.1,
        0.01,
        1.0 / 3.0,
        0.5,
        -0.5,
        1.5,
        2.5,
        -2.5,
        16.0,
        1920.0,
        16777215.0,
        16777216.0,
        16777217.0,
        1.0e10,
        1.0e-10,
        f32::MAX,
        f32::MIN,
        f32::MIN_POSITIVE,
        f32::INFINITY,
        f32::NEG_INFINITY,
        f32::NAN,
        f32::EPSILON,
    ];
    v.push(f32::from_bits(1));
    v.push(f32::from_bits(0x007f_ffff));
    v.push(f32::from_bits(0x8000_0001));
    let mut state: u32 = 0x1234_5678;
    for _ in 0..120 {
        state ^= state << 13;
        state ^= state >> 17;
        state ^= state << 5;
        v.push(f32::from_bits(state));
        v.push(((state >> 8) as f32) / 1000.0);
    }
    v
}

#[test]
fn sums_and_differences_round_as_hardware_does() {
    for a in samples() {
        for b in samples() {
            assert!(same(n(a) + n(b), a + b), "{a} + {b}");
            assert!(same(n(a) - n(b), a - b), "{a} - {b}");
        }
    }
}

#[test]
fn products_round_as_hardware_does() {
    for a in samples() {
        for b in samples() {
            assert!(same(n(a) * n(b), a * b), "{a} * {b}");
        }
    }
}

#[test]
fn quotients_round_as_hardware_does() {
    for a in samples() {
        for b in samples() {
            assert!(same(n(a) / n(b), a / b), "{a} / {b}");
        }
    }
}

#[test]
fn comparisons_agree_with_hardware() {
    for a in samples() {
        for b in samples() {
            assert_eq!(n(a) < n(b), a < b, "{a} < {b}");
            assert_eq!(n(a) <= n(b), a <= b, "{a} <= {b}");
            assert_eq!(n(a) == n(b), a == b, "{a} == {b}");
        }
    }
}

#[test]
fn rounding_to_whole_numbers_agrees_with_hardware() {
    for a in samples() {
        assert!(same(n(a).floor(), a.floor()), "floor {a}");
        assert!(same(n(a).ceil(), a.ceil()), "ceil {a}");
        assert!(same(n(a).round(), a.round()), "round {a}");
        assert!(same(n(a).abs(), a.abs()), "abs {a}");
        assert!(same(n(a).negate(), -a), "negate {a}");
        assert_eq!(n(a).to_i32(), a as i32, "to_i32 {a}");
        assert_eq!(n(a).is_nan(), a.is_nan());
        assert_eq!(n(a).is_finite(), a.is_finite());
    }
}

#[test]
fn remainders_agree_with_hardware() {
    for a in samples() {
        for b in [1.0f32, -1.0, 0.3, 7.0, 1.0e-3, 50.5, f32::INFINITY, 0.0] {
            assert!(same(n(a).rem(n(b)), a % b), "{a} % {b}");
            assert!(same(n(a).rem_euclid(n(b)), a.rem_euclid(b)), "{a} rem_euclid {b}");
        }
    }
}

#[test]
fn larger_and_smaller_ignore_nan() {
    for a in samples() {
        for b in samples() {
            if a == 0.0 && b == 0.0 {
                continue;
            }
            assert!(same(n(a).max(n(b)), a.max(b)), "max {a} {b}");
            assert!(same(n(a).min(n(b)), a.min(b)), "min {a} {b}");
        }
    }
}

#[test]
fn constants_are_the_nearest_numbers() {
    assert!(same(Num::of(16), 16.0));
    assert!(same(Num::of(-7), -7.0));
    assert!(same(Num::of(i32::MAX), i32::MAX as f32));
    assert!(same(Num::of(i32::MIN), i32::MIN as f32));
    assert!(same(Num::frac(1, 10), 0.1));
    assert!(same(Num::frac(8, 10), 0.8));
    assert!(same(Num::frac(35, 100), 0.35));
    assert!(same(Num::from_usize(16777217), 16777217.0));
    assert!(same(Num::from_usize(usize::MAX), usize::MAX as f32));
    assert!(same(Num::zero(), 0.0));
    assert!(same(Num::infinity(), f32::INFINITY));
    assert!(same(Num::max_value(), f32::MAX));
}
