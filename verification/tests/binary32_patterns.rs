//! The bit-level routines for 32-bit patterns, held against the machine's own
//! floating-point arithmetic.
use rustiest_linear_algebra::binary32;
use rustiest_linear_algebra::binary64;

/// A small deterministic generator of 32-bit words.
struct Words(u32);

impl Words {
    fn next(&mut self) -> u32 {
        let mut x = self.0;
        x ^= x << 13;
        x ^= x >> 17;
        x ^= x << 5;
        self.0 = x;
        x
    }
}

fn notable() -> Vec<u32> {
    let mut v = vec![
        0.0f32.to_bits(),
        (-0.0f32).to_bits(),
        1.0f32.to_bits(),
        (-1.0f32).to_bits(),
        0.5f32.to_bits(),
        1.5f32.to_bits(),
        f32::INFINITY.to_bits(),
        f32::NEG_INFINITY.to_bits(),
        f32::NAN.to_bits(),
        f32::NAN.to_bits() | 0x8000_0000,
        0x7f80_0001,
        0xff80_0001,
        f32::MAX.to_bits(),
        f32::MIN.to_bits(),
        f32::MIN_POSITIVE.to_bits(),
        1,
        2,
        3,
        0x007f_ffff,
        0x0040_0000,
        0x8000_0001,
        f32::EPSILON.to_bits(),
        8388608.0f32.to_bits(),
        8388607.5f32.to_bits(),
        16777216.0f32.to_bits(),
        64.000001f32.to_bits(),
        42.0f32.to_bits(),
        42.3f32.to_bits(),
        1e-6f32.to_bits(),
        1e6f32.to_bits(),
    ];
    let mut w = Words(0x9e37_79b9);
    for _ in 0..300 {
        v.push(w.next());
    }
    for _ in 0..300 {
        // exponents around one, where fractions and whole parts mix
        let e = 110 + w.next() % 50;
        let f = w.next() & 0x007f_ffff;
        let s = w.next() & 0x8000_0000;
        v.push(s | (e << 23) | f);
    }
    for _ in 0..100 {
        // subnormal numbers
        v.push(w.next() & 0x807f_ffff);
    }
    v
}

fn machine_is_basically_an_integer(v: f32) -> bool {
    v.fract().abs() < v.abs() * 1e-6
}

#[test]
fn nan_patterns_of_32_bits_are_recognised() {
    for bits in notable() {
        assert_eq!(binary32::is_nan(bits), f32::from_bits(bits).is_nan(), "{bits:#x}");
    }
}

#[test]
fn magnitude_bits_of_32_bits_clears_the_sign() {
    for bits in notable() {
        let v = f32::from_bits(bits);
        if !v.is_nan() {
            assert_eq!(binary32::magnitude_bits(bits), v.abs().to_bits(), "{bits:#x}");
        }
    }
}

#[test]
fn promote_agrees_with_machine_widening() {
    for bits in notable() {
        let v = f32::from_bits(bits);
        let r = binary32::promote(bits);
        if v.is_nan() {
            assert!(f64::from_bits(r).is_nan(), "{bits:#x}");
            assert_eq!(r >> 63, (bits >> 31) as u64);
        } else {
            assert_eq!(r, f64::from(v).to_bits(), "{bits:#x} {v:e}");
        }
    }
}

#[test]
fn promote_examples() {
    assert_eq!(binary32::promote(1.0f32.to_bits()), 1.0f64.to_bits());
    assert_eq!(binary32::promote((-2.5f32).to_bits()), (-2.5f64).to_bits());
    assert_eq!(binary32::promote((-0.0f32).to_bits()), (-0.0f64).to_bits());
    assert_eq!(binary32::promote(f32::INFINITY.to_bits()), f64::INFINITY.to_bits());
    // the smallest subnormal is 2^-149, a normal number of the wider format
    assert_eq!(binary32::promote(1), 2.0f64.powi(-149).to_bits());
    assert_eq!(binary32::promote(f32::MAX.to_bits()), 3.4028234663852886e38f64.to_bits());
}

#[test]
fn is_basically_an_integer_of_32_bits_agrees_with_machine_arithmetic() {
    for bits in notable() {
        let v = f32::from_bits(bits);
        assert_eq!(
            binary32::is_basically_an_integer(bits),
            machine_is_basically_an_integer(v),
            "{bits:#x} {v:e}"
        );
    }
}

#[test]
fn is_basically_an_integer_of_32_bits_near_the_tolerance() {
    let mut w = Words(0x1234_5679);
    let mut seen_true = 0;
    let mut seen_false = 0;
    for _ in 0..40000 {
        let whole = (1 + w.next() % 3000) as f32;
        let steps = w.next() % 64;
        let bits = whole.to_bits() + steps;
        let v = f32::from_bits(bits);
        let expected = machine_is_basically_an_integer(v);
        if expected {
            seen_true += 1;
        } else {
            seen_false += 1;
        }
        assert_eq!(binary32::is_basically_an_integer(bits), expected, "{bits:#x} {v:e}");
    }
    assert!(seen_true > 100);
    assert!(seen_false > 100);
}

#[test]
fn is_basically_an_integer_of_32_bits_examples() {
    assert!(binary32::is_basically_an_integer(64.000001f32.to_bits()));
    assert!(binary32::is_basically_an_integer(42.0f32.to_bits()));
    assert!(!binary32::is_basically_an_integer(42.3f32.to_bits()));
    assert!(!binary32::is_basically_an_integer(0.0f32.to_bits()));
    assert!(!binary32::is_basically_an_integer(0.25f32.to_bits()));
    assert!(binary32::is_basically_an_integer(f32::MAX.to_bits()));
    assert!(!binary32::is_basically_an_integer(f32::INFINITY.to_bits()));
    assert!(!binary32::is_basically_an_integer(f32::NAN.to_bits()));
}

#[test]
fn tolerance_is_the_pattern_of_ten_to_the_minus_six() {
    let bits = 1e-6f32.to_bits();
    let significand = (bits & 0x007f_ffff) | binary32::HIDDEN;
    let exponent = bits >> 23;
    assert_eq!(significand as u64, binary32::TOLERANCE);
    // value = significand * 2^(exponent - 150)
    assert_eq!(150 - exponent, binary32::TOLERANCE_SCALE);
}

#[test]
fn constants_are_the_patterns_they_name() {
    assert_eq!(binary32::ONE, 1.0f32.to_bits());
    assert_eq!(binary32::INFINITY, f32::INFINITY.to_bits());
    assert_eq!(binary32::SIGN, (-0.0f32).to_bits());
    assert_eq!(binary64::ONE, 1.0f64.to_bits());
    assert_eq!(binary64::INFINITY, f64::INFINITY.to_bits());
    assert_eq!(binary64::SIGN, (-0.0f64).to_bits());
}
