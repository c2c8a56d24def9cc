//! The 32-bit binary floating-point format, read from its bit patterns.
//!
//! A pattern is a sign, eight exponent digits and twenty-three fraction
//! digits. Every finite value is a whole multiple of `2^-149`, the unit of
//! [`magnitude`] here. Each value of this format is also a value of the 64-bit
//! format; [`widened_magnitude`] and [`value`] measure it in the unit of that
//! format, `2^-1074`, so that numbers of the two formats can be set side by
//! side.
use crate::binary64;
use crate::dyadic::{
    bit_length, digits, excess_digits, fraction_below_share, lemma_bit_length_bounds,
    lemma_bit_length_unique, lemma_fraction_below_share, lemma_fraction_below_share_small,
    lemma_fraction_below_share_whole, lemma_pow2_quotient, lemma_product_digits,
    lemma_shifted_significand, low_digits_below_share, power_of_two, round_half_even,
    round_to_precision,
};
use vstd::arithmetic::mul::lemma_mul_is_associative;
use vstd::arithmetic::power2::{
    lemma2_to64, lemma2_to64_rest, lemma_pow2_adds, lemma_pow2_pos,
    lemma_pow2_strictly_increases, pow2,
};
use vstd::prelude::*;

verus! {

/// The pattern of negative zero: the sign digit alone.
pub const SIGN: u32 = 0x8000_0000;

/// The weight of the lowest exponent digit, `2^23`.
pub const HIDDEN: u32 = 0x0080_0000;

/// The pattern of positive infinity: all exponent digits set, no fraction.
pub const INFINITY: u32 = 0x7f80_0000;

/// The pattern of the number one.
pub const ONE: u32 = 0x3f80_0000;

/// Whether the sign digit is set.
pub open spec fn negative(bits: u32) -> bool {
    bits >= SIGN
}

/// The pattern without its sign digit.
pub open spec fn unsigned(bits: u32) -> u32 {
    if bits >= SIGN {
        (bits - SIGN) as u32
    } else {
        bits
    }
}

/// The exponent field, `0 ..= 255`.
pub open spec fn exponent(bits: u32) -> nat {
    (unsigned(bits) / HIDDEN) as nat
}

/// The fraction field, below `2^23`.
pub open spec fn fraction(bits: u32) -> nat {
    (unsigned(bits) % HIDDEN) as nat
}

/// The pattern stands for no number.
pub open spec fn not_a_number(bits: u32) -> bool {
    unsigned(bits) > INFINITY
}

/// The pattern is one of the two infinities.
pub open spec fn infinite(bits: u32) -> bool {
    unsigned(bits) == INFINITY
}

/// The pattern is a zero, a subnormal or a normal number.
pub open spec fn finite(bits: u32) -> bool {
    unsigned(bits) < INFINITY
}

/// The magnitude of the number one, `2^149`, in the unit of this format.
pub open spec fn one() -> nat {
    pow2(149)
}

/// The absolute value of the pattern in units of `2^-149`, read as in the
/// 64-bit format.
pub open spec fn magnitude(bits: u32) -> nat {
    if exponent(bits) == 0 {
        fraction(bits)
    } else {
        (HIDDEN + fraction(bits)) as nat * pow2((exponent(bits) - 1) as nat)
    }
}

/// The absolute value of the pattern in units of `2^-1074`, with an infinity
/// where the 64-bit format has its own.
pub open spec fn widened_magnitude(bits: u32) -> nat {
    if infinite(bits) {
        pow2(2098)
    } else {
        magnitude(bits) * pow2(925)
    }
}

/// The signed value of the pattern in units of `2^-1074`.
pub open spec fn value(bits: u32) -> int {
    if negative(bits) {
        -(widened_magnitude(bits) as int)
    } else {
        widened_magnitude(bits) as int
    }
}

/// Numbers of an exponent field below that of one are smaller than one, and
/// the pattern of one has the magnitude [`one`].
pub proof fn lemma_magnitude_below_one(bits: u32)
    requires
        exponent(bits) < 127,
    ensures
        magnitude(bits) < one(),
        magnitude(ONE) == one(),
{
    let e = exponent(bits);
    let f = fraction(bits);
    lemma2_to64();
    lemma_pow2_adds(23, 126);
    assert(exponent(ONE) == 127);
    assert(fraction(ONE) == 0);
    lemma_pow2_pos(126);
    if e == 0 {
        assert(f < pow2(23) * pow2(126)) by (nonlinear_arith)
            requires
                f < pow2(23),
                pow2(126) >= 1,
        ;
    } else {
        let lift = pow2((e - 1) as nat);
        lemma_pow2_pos((e - 1) as nat);
        if e - 1 < 125 {
            lemma_pow2_strictly_increases((e - 1) as nat, 125);
        }
        vstd::arithmetic::power2::lemma_pow2_unfold(126);
        assert((HIDDEN + f) * lift < pow2(23) * pow2(126)) by (nonlinear_arith)
            requires
                f < HIDDEN,
                HIDDEN == pow2(23),
                2 * lift <= pow2(126),
                lift > 0,
        ;
    }
}

/// Whether the pattern stands for no number.
pub fn is_nan(bits: u32) -> (r: bool)
    ensures
        r == not_a_number(bits),
{
    magnitude_bits(bits) > INFINITY
}

/// The pattern with its sign digit cleared: the absolute value.
pub fn magnitude_bits(bits: u32) -> (r: u32)
    ensures
        r == unsigned(bits),
{
    if bits >= SIGN {
        bits - SIGN
    } else {
        bits
    }
}

/// The pattern of the 64-bit format for the same number. Every number of
/// this format has one, so nothing is rounded; the sign of a zero is kept, an
/// infinity stays an infinity, and what is no number stays no number.
pub fn promote(bits: u32) -> (r: u64)
    ensures
        binary64::not_a_number(r) == not_a_number(bits),
        binary64::negative(r) == negative(bits),
        !not_a_number(bits) ==> binary64::magnitude(r) == widened_magnitude(bits),
        !not_a_number(bits) ==> binary64::value(r) == value(bits),
        not_a_number(bits) ==> binary64::unsigned(r) == binary64::INFINITY + fraction(bits)
            * 0x2000_0000,
{
    let u: u32 = magnitude_bits(bits);
    let sign: u64 = if bits >= SIGN {
        binary64::SIGN
    } else {
        0
    };
    let e: u32 = u / HIDDEN;
    let f: u32 = u % HIDDEN;
    proof {
        lemma2_to64();
        lemma2_to64_rest();
    }
    let body: u64 = if e == 255 {
        proof {
            binary64::lemma_magnitude_infinity(binary64::INFINITY);
        }
        binary64::INFINITY + f as u64 * 0x2000_0000
    } else if e == 0 {
        if f == 0 {
            proof {
                binary64::lemma_magnitude_zero(0);
                assert(0 * pow2(925) == 0);
            }
            0
        } else {
            let n: u32 = digits(f as u64);
            proof {
                lemma_bit_length_bounds(f as nat);
                if n > 24 {
                    lemma_pow2_strictly_increases(23, (n - 1) as nat);
                }
                lemma_shifted_significand(f as nat, 53);
            }
            let sig: u64 = f as u64 * power_of_two(53 - n);
            proof {
                binary64::lemma_magnitude_compose((n + 872) as nat, sig as nat);
                lemma_pow2_adds((53 - n) as nat, (n + 872) as nat);
                lemma_mul_is_associative(
                    f as int,
                    pow2((53 - n) as nat) as int,
                    pow2((n + 872) as nat) as int,
                );
            }
            (n + 872) as u64 * binary64::HIDDEN + sig
        }
    } else {
        let sig: u64 = (HIDDEN + f) as u64 * 0x2000_0000;
        proof {
            binary64::lemma_magnitude_compose((e + 895) as nat, sig as nat);
            lemma_pow2_adds(29, (e + 895) as nat);
            lemma_pow2_adds((e - 1) as nat, 925);
            lemma_mul_is_associative(
                (HIDDEN + f) as int,
                pow2(29) as int,
                pow2((e + 895) as nat) as int,
            );
            lemma_mul_is_associative(
                (HIDDEN + f) as int,
                pow2((e - 1) as nat) as int,
                pow2(925) as int,
            );
        }
        (e + 895) as u64 * binary64::HIDDEN + sig
    };
    sign + body
}

/// The relative tolerance of [`is_basically_an_integer`] is `TOLERANCE / 2^43`,
/// the number of the format nearest to `10^-6`.
pub const TOLERANCE: u64 = 8796093;

/// The divisor of [`TOLERANCE`], as a power of two.
pub const TOLERANCE_SCALE: u32 = 43;

/// [`TOLERANCE`] over `2^43` is `10^-6` rounded to the 24 digits of the
/// format: the integer nearest to `2^43 / 10^6`, which has 24 digits.
pub proof fn lemma_tolerance_is_nearest()
    ensures
        round_to_precision(pow2(43), 1000000, 24) == TOLERANCE,
        bit_length(TOLERANCE as nat) == 24,
{
    lemma2_to64();
    lemma2_to64_rest();
    lemma_bit_length_unique(TOLERANCE as nat, 24);
    let n = pow2(43);
    let d: nat = 1000000;
    assert(n / d == TOLERANCE as nat);
    assert(n % d == 22208);
    assert(excess_digits(n / d, 24) == 0);
    assert(d * pow2(0) == d);
    assert(round_half_even(n, d) == TOLERANCE as nat);
}

/// Whether a number is, within the relative tolerance, a whole number. In the
/// arithmetic of the format this is the test `|v - trunc(v)| < |v| * t` for
/// the tolerance `t`, in which the difference on the left is exact and the
/// product on the right is rounded. So the number is finite, and the part of
/// its magnitude below one is smaller than its magnitude times
/// `TOLERANCE / 2^43`, rounded to 24 digits, all in units of `2^-149`. Zero
/// is none, since nothing is smaller than a zero tolerance.
pub open spec fn basically_integer(bits: u32) -> bool {
    finite(bits) && fraction_below_share(magnitude(bits), one(), TOLERANCE as nat, 43, 24)
}

/// Decides [`basically_integer`].
pub fn is_basically_an_integer(bits: u32) -> (r: bool)
    ensures
        r == basically_integer(bits),
{
    let u: u32 = magnitude_bits(bits);
    if u >= INFINITY {
        return false;
    }
    let e: u32 = u / HIDDEN;
    let sig: u32 = HIDDEN + u % HIDDEN;
    let ghost m = magnitude(bits);
    proof {
        lemma2_to64();
        lemma2_to64_rest();
        lemma_tolerance_is_nearest();
        lemma_pow2_pos(149);
    }
    if e < 127 {
        proof {
            lemma_magnitude_below_one(bits);
            lemma_fraction_below_share_small(m, one(), TOLERANCE as nat, 43, 24);
        }
        false
    } else if e >= 150 {
        proof {
            lemma_pow2_quotient(sig as nat, 149, (e - 1) as nat);
            lemma_pow2_pos((e - 1) as nat);
            lemma_pow2_strictly_increases(43, (e - 1) as nat);
            assert(m * TOLERANCE as nat >= pow2(43)) by (nonlinear_arith)
                requires
                    m == sig as nat * pow2((e - 1) as nat),
                    sig >= 1,
                    TOLERANCE >= 1,
                    pow2((e - 1) as nat) > pow2(43),
            ;
            lemma_fraction_below_share_whole(m, one(), TOLERANCE as nat, 43, 24);
        }
        true
    } else {
        let drop: u32 = 150 - e;
        proof {
            lemma_bit_length_bounds(TOLERANCE as nat);
            lemma_product_digits(sig as nat, TOLERANCE as nat, 24);
            lemma_fraction_below_share(
                sig as nat,
                (e - 1) as nat,
                drop as nat,
                TOLERANCE as nat,
                43,
                24,
            );
        }
        low_digits_below_share(sig as u64, drop, TOLERANCE, TOLERANCE_SCALE, 24)
    }
}

} // verus!
