//! Bit patterns compare as the values that they stand for.
use spectrum_compare::single::Single;

fn samples() -> Vec<u32> {
    let mut found = vec![
        0, 1, 2, 0x007f_ffff, 0x0080_0000, 0x3f80_0000, 0x3f80_0001, 0x7f7f_ffff, 0x7f80_0000,
        0x7f80_0001, 0x7fc0_0000, 0x7fff_ffff, 0x42c8_0000, 0x2b8c_bccc,
    ];
    let mut seed: u32 = 12345;
    for _ in 0..200 {
        seed = seed.wrapping_mul(1664525).wrapping_add(1013904223);
        found.push(seed);
    }
    let negative: Vec<u32> = found.iter().map(|b| b ^ 0x8000_0000).collect();
    found.extend(negative);
    found
}

#[test]
fn order_is_that_of_the_values() {
    for a in samples() {
        for b in samples() {
            let (x, y) = (f32::from_bits(a), f32::from_bits(b));
            let (s, t) = (Single { bits: a }, Single { bits: b });
            assert_eq!(s.lt(t), x < y, "{a:x} < {b:x}");
            assert_eq!(s.le(t), x <= y, "{a:x} <= {b:x}");
        }
    }
}

#[test]
fn larger_value_passes_over_nan() {
    for a in samples() {
        for b in samples() {
            let (x, y) = (f32::from_bits(a), f32::from_bits(b));
            let got = f32::from_bits(Single { bits: a }.max(Single { bits: b }).bits);
            if x.is_nan() && y.is_nan() {
                assert!(got.is_nan());
            } else {
                assert_eq!(got, x.max(y), "{a:x} {b:x}");
            }
        }
    }
}

#[test]
fn absolute_value_clears_the_sign() {
    for a in samples() {
        assert_eq!(Single { bits: a }.abs().bits, f32::from_bits(a).abs().to_bits());
    }
    assert_eq!(Single { bits: (-2.5f32).to_bits() }.abs().bits, 2.5f32.to_bits());
}

#[test]
fn zeros_are_equal_and_nan_is_unordered() {
    let minus = Single { bits: (-0.0f32).to_bits() };
    let plus = Single { bits: 0 };
    assert!(!minus.lt(plus) && !plus.lt(minus));
    assert!(minus.le(plus) && plus.le(minus));
    let nan = Single { bits: f32::NAN.to_bits() };
    assert!(!nan.lt(plus) && !plus.lt(nan) && !nan.le(nan));
}

#[test]
fn order_is_transitive_on_values() {
    let a = Single { bits: (-3.0f32).to_bits() };
    let b = Single { bits: 0.25f32.to_bits() };
    let c = Single { bits: 7.5f32.to_bits() };
    assert!(a.lt(b) && b.lt(c) && a.lt(c) && !c.lt(a));
}
