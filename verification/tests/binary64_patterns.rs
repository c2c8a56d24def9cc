//! The bit-level routines for 64-bit patterns, held against the machine's own
//! floating-point arithmetic.
use rustiest_linear_algebra::binary64;

/// A small deterministic generator of 64-bit words.
struct Words(u64);

impl Words {
    fn next(&mut self) -> u64 {
        let mut x = self.0;
        x ^= x << 13;
        x ^= x >> 7;
        x ^= x << 17;
        self.0 = x;
        x
    }
}

fn notable() -> Vec<u64> {
    let mut v = vec![
        0.0f64.to_bits(),
        (-0.0f64).to_bits(),
        1.0f64.to_bits(),
        (-1.0f64).to_bits(),
        0.5f64.to_bits(),
        1.5f64.to_bits(),
        2.5f64.to_bits(),
        (-2.5f64).to_bits(),
        f64::INFINITY.to_bits(),
        f64::NEG_INFINITY.to_bits(),
        f64::NAN.to_bits(),
        f64::NAN.to_bits() | (1u64 << 63),
        0x7ff0_0000_0000_0001,
        0xfff0_0000_0000_0001,
        f64::MAX.to_bits(),
        f64::MIN.to_bits(),
        f64::MIN_POSITIVE.to_bits(),
        1,
        2,
        0x000f_ffff_ffff_ffff,
        0x8000_0000_0000_0001,
        f64::EPSILON.to_bits(),
        4503599627370496.0f64.to_bits(),
        4503599627370495.5f64.to_bits(),
        9007199254740992.0f64.to_bits(),
        9007199254740991.0f64.to_bits(),
        64.00000001f64.to_bits(),
        42.0f64.to_bits(),
        42.3f64.to_bits(),
        1e-12f64.to_bits(),
        1e12f64.to_bits(),
        0.9999999999999999f64.to_bits(),
        1.0000000000000002f64.to_bits(),
    ];
    let mut w = Words(0x9e37_79b9_7f4a_7c15);
    for _ in 0..200 {
        v.push(w.next());
    }
    for _ in 0..200 {
        // exponents around one, where fractions and whole parts mix
        let e = 1000 + w.next() % 100;
        let f = w.next() & 0x000f_ffff_ffff_ffff;
        let s = w.next() & 0x8000_0000_0000_0000;
        v.push(s | (e << 52) | f);
    }
    v
}

fn machine_is_basically_an_integer(v: f64) -> bool {
    v.fract().abs() < v.abs() * 1e-12
}

#[test]
fn nan_patterns_are_recognised() {
    for bits in notable() {
        assert_eq!(binary64::is_nan(bits), f64::from_bits(bits).is_nan(), "{bits:#x}");
    }
}

#[test]
fn magnitude_bits_clears_the_sign() {
    for bits in notable() {
        let v = f64::from_bits(bits);
        if !v.is_nan() {
            assert_eq!(binary64::magnitude_bits(bits), v.abs().to_bits(), "{bits:#x}");
        }
    }
}

#[test]
fn equal_agrees_with_machine_equality() {
    let all = notable();
    for &a in &all {
        for &b in &all {
            assert_eq!(
                binary64::equal(a, b),
                f64::from_bits(a) == f64::from_bits(b),
                "{a:#x} {b:#x}"
            );
        }
    }
}

#[test]
fn compare_agrees_with_machine_order() {
    let all = notable();
    for &a in &all {
        for &b in &all {
            assert_eq!(
                binary64::compare(a, b),
                f64::from_bits(a).partial_cmp(&f64::from_bits(b)),
                "{a:#x} {b:#x}"
            );
        }
    }
}

#[test]
fn truncate_agrees_with_machine_trunc() {
    for bits in notable() {
        let v = f64::from_bits(bits);
        let r = binary64::truncate(bits);
        if v.is_nan() {
            assert!(f64::from_bits(r).is_nan());
        } else {
            assert_eq!(r, v.trunc().to_bits(), "{bits:#x}");
        }
    }
}

#[test]
fn truncate_examples() {
    assert_eq!(binary64::truncate(2.75f64.to_bits()), 2.0f64.to_bits());
    assert_eq!(binary64::truncate((-2.75f64).to_bits()), (-2.0f64).to_bits());
    assert_eq!(binary64::truncate(0.75f64.to_bits()), 0.0f64.to_bits());
    assert_eq!(binary64::truncate((-0.75f64).to_bits()), (-0.0f64).to_bits());
    assert_eq!(binary64::truncate(1e300f64.to_bits()), 1e300f64.to_bits());
    assert_eq!(binary64::truncate(f64::INFINITY.to_bits()), f64::INFINITY.to_bits());
}

#[test]
fn from_integer_agrees_with_machine_conversion() {
    let mut values: Vec<i64> = vec![
        0,
        1,
        -1,
        2,
        3,
        -3,
        42,
        459877902,
        -459877902,
        i32::MAX as i64,
        i32::MIN as i64,
        9007199254740991,
        -9007199254740991,
        9007199254740992,
        -9007199254740992,
        9007199254740993,
        9007199254740994,
        9007199254740995,
        -9007199254740993,
        18014398509481983,
        18014398509481985,
        18014398509481986,
        18014398509481987,
        i64::MAX,
        i64::MAX - 1,
        i64::MAX - 511,
        i64::MAX - 512,
        i64::MAX - 513,
        i64::MIN,
        i64::MIN + 1,
        i64::MIN + 512,
        i64::MIN + 513,
    ];
    let mut w = Words(0x2545_f491_4f6c_dd1d);
    for _ in 0..500 {
        let x = w.next();
        let shift = w.next() % 64;
        values.push((x >> shift) as i64);
        values.push(((x >> shift) as i64).wrapping_neg());
    }
    for v in values {
        assert_eq!(binary64::from_integer(v), (v as f64).to_bits(), "{v}");
    }
}

#[test]
fn from_integer_rounds_ties_to_even() {
    // 2^53 + 1 lies halfway between 2^53 and 2^53 + 2
    assert_eq!(binary64::from_integer(9007199254740993), 9007199254740992.0f64.to_bits());
    // 2^53 + 3 lies halfway between 2^53 + 2 and 2^53 + 4
    assert_eq!(binary64::from_integer(9007199254740995), 9007199254740996.0f64.to_bits());
    // the largest integer rounds up to 2^63
    assert_eq!(binary64::from_integer(i64::MAX), 9223372036854775808.0f64.to_bits());
}

#[test]
fn is_basically_an_integer_of_64_bits_agrees_with_machine_arithmetic() {
    for bits in notable() {
        let v = f64::from_bits(bits);
        assert_eq!(
            binary64::is_basically_an_integer(bits),
            machine_is_basically_an_integer(v),
            "{bits:#x} {v:e}"
        );
    }
}

#[test]
fn is_basically_an_integer_of_64_bits_near_the_tolerance() {
    // whole numbers with a fraction close to 10^-12 of their size, where the
    // rounding of the tolerance decides
    let mut w = Words(0x1234_5678_9abc_def1);
    let mut seen_true = 0;
    let mut seen_false = 0;
    for _ in 0..20000 {
        let whole = (1 + w.next() % 4000) as f64;
        let steps = w.next() % 12000;
        let bits = whole.to_bits() + steps;
        let v = f64::from_bits(bits);
        let expected = machine_is_basically_an_integer(v);
        if expected {
            seen_true += 1;
        } else {
            seen_false += 1;
        }
        assert_eq!(binary64::is_basically_an_integer(bits), expected, "{bits:#x} {v:e}");
        let below = (-v).to_bits();
        assert_eq!(binary64::is_basically_an_integer(below), expected, "{below:#x}");
    }
    assert!(seen_true > 100);
    assert!(seen_false > 100);
}

#[test]
fn is_basically_an_integer_of_64_bits_examples() {
    assert!(binary64::is_basically_an_integer(42.0f64.to_bits()));
    assert!(!binary64::is_basically_an_integer(42.3f64.to_bits()));
    assert!(!binary64::is_basically_an_integer(64.00000001f64.to_bits()));
    assert!(binary64::is_basically_an_integer(1e300f64.to_bits()));
    assert!(!binary64::is_basically_an_integer(0.0f64.to_bits()));
    assert!(!binary64::is_basically_an_integer((-0.0f64).to_bits()));
    assert!(!binary64::is_basically_an_integer(0.5f64.to_bits()));
    assert!(!binary64::is_basically_an_integer(f64::INFINITY.to_bits()));
    assert!(!binary64::is_basically_an_integer(f64::NAN.to_bits()));
}

#[test]
fn tolerance_is_the_pattern_of_ten_to_the_minus_twelve() {
    let bits = 1e-12f64.to_bits();
    let significand = (bits & 0x000f_ffff_ffff_ffff) | binary64::HIDDEN;
    let exponent = bits >> 52;
    assert_eq!(significand, binary64::TOLERANCE);
    // value = significand * 2^(exponent - 1075)
    assert_eq!(1075 - exponent, binary64::TOLERANCE_SCALE as u64);
}
