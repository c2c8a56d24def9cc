//! The 64-bit binary floating-point format, read from its bit patterns.
//!
//! A pattern is a sign, eleven exponent digits and fifty-two fraction digits.
//! Every finite value is a whole multiple of `2^-1074`, so this module measures
//! values in that unit: [`magnitude`] and [`value`] are integers, and the
//! number one is [`one`]. An infinity is given the magnitude `2^2098`, the
//! place where the next exponent would begin, which keeps the order of values
//! the order of integers.
use crate::dyadic::{
    bit_length, digits, excess_digits, fraction_below_share, lemma_bit_length_at_most,
    lemma_bit_length_bounds, lemma_bit_length_shift, lemma_bit_length_unique,
    lemma_fraction_below_share, lemma_fraction_below_share_small,
    lemma_fraction_below_share_whole, lemma_pow2_quotient, lemma_product_digits,
    lemma_round_to_precision_exact, lemma_rounded_significand, lemma_shifted_significand,
    low_digits_below_share, power_of_two, round_half_even, round_half_even_shift,
    round_to_precision,
};
use core::cmp::Ordering;
use vstd::arithmetic::div_mod::{
    lemma_div_multiples_vanish_quotient, lemma_fundamental_div_mod, lemma_mod_multiples_vanish,
};
use vstd::arithmetic::mul::{
    lemma_mul_inequality, lemma_mul_is_associative, lemma_mul_is_commutative,
    lemma_mul_strict_inequality,
};
use vstd::arithmetic::power2::{
    lemma2_to64, lemma2_to64_rest, lemma_pow2_adds, lemma_pow2_pos,
    lemma_pow2_strictly_increases, lemma_pow2_unfold, pow2,
};
use vstd::prelude::*;

verus! {

/// The pattern of positive zero with the sign digit set: negative zero.
pub const SIGN: u64 = 0x8000_0000_0000_0000;

/// The weight of the lowest exponent digit, `2^52`.
pub const HIDDEN: u64 = 0x0010_0000_0000_0000;

/// The pattern of positive infinity: all exponent digits set, no fraction.
pub const INFINITY: u64 = 0x7ff0_0000_0000_0000;

/// The pattern of the number one.
pub const ONE: u64 = 0x3ff0_0000_0000_0000;

/// Whether the sign digit is set.
pub open spec fn negative(bits: u64) -> bool {
    bits >= SIGN
}

/// The pattern without its sign digit.
pub open spec fn unsigned(bits: u64) -> u64 {
    if bits >= SIGN {
        (bits - SIGN) as u64
    } else {
        bits
    }
}

/// The exponent field, `0 ..= 2047`.
pub open spec fn exponent(bits: u64) -> nat {
    (unsigned(bits) / HIDDEN) as nat
}

/// The fraction field, below `2^52`.
pub open spec fn fraction(bits: u64) -> nat {
    (unsigned(bits) % HIDDEN) as nat
}

/// The pattern stands for no number.
pub open spec fn not_a_number(bits: u64) -> bool {
    unsigned(bits) > INFINITY
}

/// The pattern is one of the two infinities.
pub open spec fn infinite(bits: u64) -> bool {
    unsigned(bits) == INFINITY
}

/// The pattern is a zero, a subnormal or a normal number.
pub open spec fn finite(bits: u64) -> bool {
    unsigned(bits) < INFINITY
}

/// The magnitude of the number one, `2^1074`, in the unit of this module.
pub open spec fn one() -> nat {
    pow2(1074)
}

/// The absolute value of the pattern in units of `2^-1074`. With a zero
/// exponent field the fraction counts units; otherwise the fraction with its
/// hidden leading digit is doubled once for each exponent step above one.
pub open spec fn magnitude(bits: u64) -> nat {
    if exponent(bits) == 0 {
        fraction(bits)
    } else {
        (HIDDEN + fraction(bits)) as nat * pow2((exponent(bits) - 1) as nat)
    }
}

/// The signed value of the pattern in units of `2^-1074`; both zeros are 0.
pub open spec fn value(bits: u64) -> int {
    if negative(bits) {
        -(magnitude(bits) as int)
    } else {
        magnitude(bits) as int
    }
}

/// The pattern without a sign whose magnitude is `m`, for an `m` that the
/// format holds exactly: the count of doublings goes to the exponent field,
/// the remaining digits to the fraction.
pub open spec fn encode_magnitude(m: nat) -> u64 {
    let k = excess_digits(m, 53);
    (k * HIDDEN + m / pow2(k)) as u64
}

/// The pattern with the given sign and magnitude.
pub open spec fn encode(minus: bool, m: nat) -> u64 {
    if minus {
        (encode_magnitude(m) + SIGN) as u64
    } else {
        encode_magnitude(m)
    }
}

/// How two integers stand to each other.
pub open spec fn order_of(x: int, y: int) -> Ordering {
    if x < y {
        Ordering::Less
    } else if x == y {
        Ordering::Equal
    } else {
        Ordering::Greater
    }
}

/// The magnitude of a pattern assembled from a doubling count `k` and a
/// significand `sig`: `sig * 2^k`. A significand of exactly `2^53`, as rounding
/// up may leave it, carries into the exponent on its own.
pub proof fn lemma_magnitude_compose(k: nat, sig: nat)
    requires
        k <= 2046,
        sig <= 2 * HIDDEN,
        k > 0 ==> sig >= HIDDEN,
        k == 2046 ==> sig == HIDDEN,
    ensures
        k * HIDDEN + sig <= INFINITY,
        magnitude((k * HIDDEN + sig) as u64) == sig * pow2(k),
{
    let bits = (k * HIDDEN + sig) as u64;
    assert(k * HIDDEN + sig <= INFINITY);
    assert(unsigned(bits) == bits);
    if sig < HIDDEN {
        lemma2_to64();
        assert(exponent(bits) == 0);
        assert(fraction(bits) == sig);
    } else if sig < 2 * HIDDEN {
        assert(exponent(bits) == k + 1);
        assert(fraction(bits) == sig - HIDDEN);
    } else {
        assert(exponent(bits) == k + 2);
        assert(fraction(bits) == 0);
        lemma_pow2_unfold(k + 1);
        assert(HIDDEN * (2 * pow2(k)) == (2 * HIDDEN) * pow2(k)) by (nonlinear_arith);
    }
}

/// Encoding undoes reading: the unsigned pattern is recovered from its
/// magnitude, so distinct unsigned patterns have distinct magnitudes.
pub proof fn lemma_encode_magnitude(bits: u64)
    ensures
        encode_magnitude(magnitude(bits)) == unsigned(bits),
{
    let e = exponent(bits);
    let f = fraction(bits);
    lemma2_to64();
    lemma2_to64_rest();
    if e == 0 {
        if f > 0 {
            crate::dyadic::lemma_bit_length_bounds(f);
            if bit_length(f) > 53 {
                lemma_pow2_strictly_increases(52, (bit_length(f) - 1) as nat);
            }
        }
        assert(excess_digits(f, 53) == 0);
        assert(encode_magnitude(f) == f);
    } else {
        let sig = (HIDDEN + f) as nat;
        assert(pow2(52) <= sig < pow2(53));
        lemma_bit_length_unique(sig, 53);
        lemma_bit_length_shift(sig, (e - 1) as nat);
        assert(excess_digits(magnitude(bits), 53) == e - 1);
        lemma_pow2_quotient(sig, (e - 1) as nat, (e - 1) as nat);
        assert(sig * pow2(0) == sig);
        assert(magnitude(bits) / pow2((e - 1) as nat) == sig);
        assert(unsigned(bits) == e * HIDDEN + f);
    }
}

/// Unsigned patterns are ordered as their magnitudes.
pub proof fn lemma_magnitude_increasing(a: u64, b: u64)
    requires
        unsigned(a) < unsigned(b),
    ensures
        magnitude(a) < magnitude(b),
{
    let ea = exponent(a);
    let eb = exponent(b);
    let fa = fraction(a);
    let fb = fraction(b);
    lemma2_to64();
    assert(ea <= eb);
    if eb > 0 {
        lemma_pow2_pos((eb - 1) as nat);
        let pb = pow2((eb - 1) as nat);
        if ea == eb {
            assert(fa < fb);
            lemma_mul_strict_inequality(HIDDEN + fa, HIDDEN + fb, pb as int);
        } else if ea == 0 {
            lemma_mul_inequality(1, pb as int, (HIDDEN + fb) as int);
        } else {
            let pa = pow2((ea - 1) as nat);
            lemma_pow2_pos((ea - 1) as nat);
            lemma_pow2_unfold(ea);
            if ea < eb - 1 {
                lemma_pow2_strictly_increases(ea, (eb - 1) as nat);
            }
            assert(2 * pa <= pb);
            assert((HIDDEN + fa) * pa < HIDDEN * pb) by (nonlinear_arith)
                requires
                    fa < HIDDEN,
                    2 * pa <= pb,
                    pa > 0,
            ;
            assert(HIDDEN * pb <= (HIDDEN + fb) * pb) by (nonlinear_arith)
                requires
                    fb >= 0,
                    pb > 0,
            ;
        }
    }
}

/// Only the two zeros have magnitude zero.
pub proof fn lemma_magnitude_zero(bits: u64)
    ensures
        magnitude(bits) == 0 <==> unsigned(bits) == 0,
{
    if unsigned(bits) > 0 {
        lemma_magnitude_increasing(0, bits);
    }
}

/// Finite magnitudes lie below that of infinity, which is `2^2098`.
pub proof fn lemma_magnitude_infinity(bits: u64)
    ensures
        magnitude(INFINITY) == pow2(2098),
        finite(bits) ==> magnitude(bits) < pow2(2098),
        infinite(bits) ==> magnitude(bits) == pow2(2098),
{
    lemma2_to64_rest();
    assert(exponent(INFINITY) == 2047);
    assert(fraction(INFINITY) == 0);
    vstd::arithmetic::power2::lemma_pow2_adds(52, 2046);
    if finite(bits) {
        lemma_magnitude_increasing(bits, INFINITY);
    }
}

/// Whether the pattern stands for no number.
pub fn is_nan(bits: u64) -> (r: bool)
    ensures
        r == not_a_number(bits),
{
    magnitude_bits(bits) > INFINITY
}

/// The pattern with its sign digit cleared: the absolute value.
pub fn magnitude_bits(bits: u64) -> (r: u64)
    ensures
        r == unsigned(bits),
{
    if bits >= SIGN {
        bits - SIGN
    } else {
        bits
    }
}

/// Equality of the numbers that two patterns stand for: positive and negative
/// zero are equal, and nothing equals a pattern that is no number.
pub fn equal(a: u64, b: u64) -> (r: bool)
    ensures
        r == (!not_a_number(a) && !not_a_number(b) && value(a) == value(b)),
{
    let ua = magnitude_bits(a);
    let ub = magnitude_bits(b);
    proof {
        lemma_encode_magnitude(a);
        lemma_encode_magnitude(b);
        lemma_magnitude_zero(a);
        lemma_magnitude_zero(b);
    }
    if ua > INFINITY || ub > INFINITY {
        false
    } else {
        a == b || (ua == 0 && ub == 0)
    }
}

/// The opposite order.
fn reversed(o: Ordering) -> (r: Ordering)
    ensures
        r == (match o {
            Ordering::Less => Ordering::Greater,
            Ordering::Equal => Ordering::Equal,
            Ordering::Greater => Ordering::Less,
        }),
{
    match o {
        Ordering::Less => Ordering::Greater,
        Ordering::Equal => Ordering::Equal,
        Ordering::Greater => Ordering::Less,
    }
}

/// The order of the numbers that two patterns stand for, and `None` where one
/// of them is no number.
pub fn compare(a: u64, b: u64) -> (r: Option<Ordering>)
    ensures
        r == (if not_a_number(a) || not_a_number(b) {
            None
        } else {
            Some(order_of(value(a), value(b)))
        }),
{
    let ua = magnitude_bits(a);
    let ub = magnitude_bits(b);
    if ua > INFINITY || ub > INFINITY {
        return None;
    }
    proof {
        if ua < ub {
            lemma_magnitude_increasing(a, b);
        }
        if ub < ua {
            lemma_magnitude_increasing(b, a);
        }
        lemma_magnitude_zero(a);
        lemma_magnitude_zero(b);
    }
    let minus_a = a >= SIGN;
    let minus_b = b >= SIGN;
    let upward = if ua < ub {
        Ordering::Less
    } else if ua == ub {
        Ordering::Equal
    } else {
        Ordering::Greater
    };
    if minus_a && minus_b {
        Some(reversed(upward))
    } else if minus_a {
        if ua == 0 && ub == 0 {
            Some(Ordering::Equal)
        } else {
            Some(Ordering::Less)
        }
    } else if minus_b {
        if ua == 0 && ub == 0 {
            Some(Ordering::Equal)
        } else {
            Some(Ordering::Greater)
        }
    } else {
        Some(upward)
    }
}

/// The absolute value of an integer.
pub open spec fn absolute(v: int) -> nat {
    if v < 0 {
        (-v) as nat
    } else {
        v as nat
    }
}

/// The pattern of the number nearest to the integer `v`, ties to even: what a
/// conversion of `v` to this format gives. Integers of at most 53 digits are
/// met exactly.
pub open spec fn nearest_to_integer(v: int) -> u64 {
    encode(v < 0, round_to_precision(absolute(v), 1, 53) * one())
}

/// The value of the number nearest to the integer `v`, in units of
/// `2^-1074`: `v` itself rounded to 53 digits, ties to even.
pub open spec fn integer_value(v: int) -> int {
    let m = (round_to_precision(absolute(v), 1, 53) * one()) as int;
    if v < 0 {
        -m
    } else {
        m
    }
}

/// Reading undoes encoding: a significand of 53 digits doubled `k` times is
/// encoded with `k` above the exponent field's lowest step, and read back
/// as itself.
pub proof fn lemma_magnitude_of_encoded(sig: nat, k: nat)
    requires
        HIDDEN <= sig < 2 * HIDDEN,
        k <= 2045,
    ensures
        encode_magnitude(sig * pow2(k)) == k * HIDDEN + sig,
        magnitude(encode_magnitude(sig * pow2(k))) == sig * pow2(k),
{
    lemma2_to64();
    lemma2_to64_rest();
    lemma_bit_length_unique(sig, 53);
    lemma_bit_length_shift(sig, k);
    lemma_pow2_quotient(sig, k, k);
    assert(sig * pow2(0) == sig);
    lemma_magnitude_compose(k, sig);
}

/// The pattern of a rounded integer, field by field. An integer of `n`
/// digits has the exponent field `n + 1022`; its fraction holds the digits
/// after the first, moved up where there are fewer than 53 and rounded where
/// there are more. A significand that rounding carries to `2^53` runs over
/// into the exponent field, as it should.
pub proof fn lemma_encode_integer(m: nat)
    requires
        bit_length(m) <= 64,
    ensures
        ({
            let n = bit_length(m);
            let target = round_to_precision(m, 1, 53) * one();
            let body = encode_magnitude(target);
            &&& magnitude(body) == target
            &&& body < INFINITY
            &&& m == 0 ==> body == 0
            &&& 0 < n <= 53 ==> body == (n + 1021) * HIDDEN + m * pow2((53 - n) as nat)
            &&& n > 53 ==> body == (n + 1021) * HIDDEN + round_half_even(
                m,
                pow2((n - 53) as nat),
            )
        }),
{
    let n = bit_length(m);
    let rounded = round_to_precision(m, 1, 53);
    let target = rounded * one();
    lemma2_to64();
    lemma2_to64_rest();
    if m == 0 {
        lemma_round_to_precision_exact(0, 53);
        assert(target == 0) by (nonlinear_arith)
            requires
                target == rounded * one(),
                rounded == 0,
        ;
        assert(excess_digits(0, 53) == 0);
        lemma_magnitude_zero(0);
    } else if n <= 53 {
        let up = (53 - n) as nat;
        lemma_shifted_significand(m, 53);
        lemma_round_to_precision_exact(m, 53);
        lemma_pow2_adds(up, (n + 1021) as nat);
        lemma_mul_is_associative(m as int, pow2(up) as int, pow2((n + 1021) as nat) as int);
        lemma_magnitude_of_encoded(m * pow2(up), (n + 1021) as nat);
    } else {
        let down = (n - 53) as nat;
        let q = round_half_even(m, pow2(down));
        assert(m / 1 == m);
        assert(1 * pow2(down) == pow2(down));
        lemma_rounded_significand(m, 53);
        lemma_pow2_adds(down, 1074);
        lemma_mul_is_associative(q as int, pow2(down) as int, pow2(1074) as int);
        if q < 2 * HIDDEN {
            lemma_magnitude_of_encoded(q, down + 1074);
        } else {
            lemma_pow2_unfold(down + 1075);
            assert(q * pow2(down + 1074) == HIDDEN * pow2(down + 1075)) by (nonlinear_arith)
                requires
                    q == 2 * HIDDEN,
                    pow2(down + 1075) == 2 * pow2(down + 1074),
            ;
            lemma_magnitude_of_encoded(HIDDEN as nat, down + 1075);
        }
    }
}

/// The pattern that [`nearest_to_integer`] names is a finite number with the
/// sign of the integer and the integer's rounded magnitude, and is the
/// integer itself where that is below `2^53` in magnitude.
pub proof fn lemma_nearest_to_integer(v: int)
    requires
        bit_length(absolute(v)) <= 64,
    ensures
        finite(nearest_to_integer(v)),
        negative(nearest_to_integer(v)) == (v < 0),
        magnitude(nearest_to_integer(v)) == round_to_precision(absolute(v), 1, 53) * one(),
        value(nearest_to_integer(v)) == integer_value(v),
        absolute(v) < 2 * HIDDEN ==> value(nearest_to_integer(v)) == v * one(),
{
    let m = absolute(v);
    lemma_encode_integer(m);
    if m < 2 * HIDDEN {
        lemma2_to64_rest();
        lemma_bit_length_at_most(m, 53);
        lemma_round_to_precision_exact(m, 53);
        if v < 0 {
            assert(v * one() == -(m * one())) by (nonlinear_arith)
                requires
                    v == -m,
            ;
        }
    }
}

/// Converts a 64-bit integer to the nearest number of the format, ties to
/// even. An integer below `2^53` in magnitude is met exactly.
pub fn from_integer(v: i64) -> (r: u64)
    ensures
        r == nearest_to_integer(v as int),
        finite(r),
        negative(r) == (v < 0),
        value(r) == integer_value(v as int),
        absolute(v as int) < 2 * HIDDEN ==> value(r) == v * one(),
{
    let m: u64 = if v >= 0 {
        v as u64
    } else if v == i64::MIN {
        SIGN
    } else {
        (-v) as u64
    };
    let sign: u64 = if v < 0 {
        SIGN
    } else {
        0
    };
    let n: u32 = digits(m);
    proof {
        lemma2_to64_rest();
        lemma_encode_integer(m as nat);
        lemma_nearest_to_integer(v as int);
    }
    let body: u64 = if m == 0 {
        0
    } else if n <= 53 {
        proof {
            lemma_shifted_significand(m as nat, 53);
        }
        (n + 1021) as u64 * HIDDEN + m * power_of_two(53 - n)
    } else {
        proof {
            lemma_rounded_significand(m as nat, 53);
        }
        (n + 1021) as u64 * HIDDEN + round_half_even_shift(m as u128, n - 53) as u64
    };
    sign + body
}

/// The pattern of the number one has the magnitude [`one`].
pub proof fn lemma_magnitude_one()
    ensures
        magnitude(ONE) == one(),
{
    lemma2_to64_rest();
    assert(exponent(ONE) == 1023);
    assert(fraction(ONE) == 0);
    lemma_pow2_adds(52, 1022);
}

/// The magnitude of a number with its fractional part removed.
pub open spec fn whole_magnitude(bits: u64) -> nat {
    (magnitude(bits) / one()) * one()
}

/// Rounds toward zero to a whole number. The sign stays, also on a zero; an
/// infinity stays; what is no number stays no number.
pub fn truncate(bits: u64) -> (r: u64)
    ensures
        not_a_number(bits) ==> r == bits,
        !not_a_number(bits) ==> !not_a_number(r),
        negative(r) == negative(bits),
        !not_a_number(bits) ==> magnitude(r) == whole_magnitude(bits),
{
    let u: u64 = magnitude_bits(bits);
    let e: u64 = u / HIDDEN;
    let ghost f = fraction(bits);
    let ghost sig = (HIDDEN + f) as nat;
    proof {
        lemma_pow2_pos(1074);
    }
    if e < 1023 {
        proof {
            lemma_magnitude_one();
            lemma_magnitude_increasing(bits, ONE);
            lemma_magnitude_zero((bits - u) as u64);
            vstd::arithmetic::div_mod::lemma_basic_div(magnitude(bits) as int, one() as int);
        }
        bits - u
    } else if e >= 1075 {
        proof {
            if !not_a_number(bits) {
                lemma_pow2_quotient(sig, 1074, (e - 1) as nat);
                lemma_fundamental_div_mod(magnitude(bits) as int, one() as int);
                lemma_mul_is_commutative(one() as int, (magnitude(bits) / one()) as int);
            }
        }
        bits
    } else {
        let drop: u32 = (1075 - e) as u32;
        let step: u64 = power_of_two(drop);
        proof {
            lemma_pow2_pos(drop as nat);
        }
        let low: u64 = u % step;
        proof {
            vstd::arithmetic::div_mod::lemma_mod_decreases(f, step as nat);
            let lift = pow2((e - 1) as nat);
            let rest = pow2((52 - drop) as nat);
            lemma2_to64_rest();
            lemma_pow2_pos(drop as nat);
            lemma_pow2_pos((e - 1) as nat);
            lemma_pow2_adds(drop as nat, (e - 1) as nat);
            lemma_pow2_adds((52 - drop) as nat, drop as nat);
            assert(HIDDEN == rest * step);
            assert(u == e * HIDDEN + f);
            assert(u as int == (step as int) * ((e * rest) as int) + f as int)
                by (nonlinear_arith)
                requires
                    HIDDEN == rest * step,
                    u == e * HIDDEN + f,
            ;
            assert(sig as int == (step as int) * (rest as int) + f as int) by (nonlinear_arith)
                requires
                    HIDDEN == rest * step,
                    sig == HIDDEN + f,
            ;
            lemma_mod_multiples_vanish((e * rest) as int, f as int, step as int);
            lemma_mod_multiples_vanish(rest as int, f as int, step as int);
            assert(low as int == (f as int) % (step as int));
            assert(low as int == (sig as int) % (step as int));
            lemma_fundamental_div_mod(sig as int, step as int);
            lemma_div_multiples_vanish_quotient(lift as int, sig as int, step as int);
            lemma_mul_is_commutative(lift as int, sig as int);
            lemma_mul_is_commutative(lift as int, step as int);
            assert(magnitude(bits) / one() == sig / (step as nat));
            let kept = (sig - low) as nat;
            assert(kept == (sig / (step as nat)) * step) by (nonlinear_arith)
                requires
                    sig == step * (sig / (step as nat)) + low,
                    kept == sig - low,
            ;
            assert(whole_magnitude(bits) == kept * lift) by (nonlinear_arith)
                requires
                    whole_magnitude(bits) == (sig / (step as nat)) * one(),
                    one() == step * lift,
                    kept == (sig / (step as nat)) * step,
            ;
            let r = (bits - low) as u64;
            assert(unsigned(r) == e * HIDDEN + (f - low));
            assert(exponent(r) == e);
            assert(fraction(r) == f - low);
        }
        bits - low
    }
}

/// The relative tolerance of [`is_basically_an_integer`] is `TOLERANCE / 2^92`,
/// the number of the format nearest to `10^-12`.
pub const TOLERANCE: u64 = 4951760157141521;

/// The divisor of [`TOLERANCE`], as a power of two.
pub const TOLERANCE_SCALE: u32 = 92;

/// [`TOLERANCE`] over `2^92` is `10^-12` rounded to the 53 digits of the
/// format: the integer nearest to `2^92 / 10^12`, which has 53 digits.
pub proof fn lemma_tolerance_is_nearest()
    ensures
        round_to_precision(pow2(92), 1000000000000, 53) == TOLERANCE,
        bit_length(TOLERANCE as nat) == 53,
{
    lemma2_to64();
    lemma2_to64_rest();
    lemma_pow2_adds(64, 28);
    assert(pow2(92) == 0x100000000000000000000000);
    lemma_bit_length_unique(TOLERANCE as nat, 53);
    let n = pow2(92);
    let d: nat = 1000000000000;
    assert(n / d == TOLERANCE as nat);
    assert(n % d == 99596496896);
    assert(excess_digits(n / d, 53) == 0);
    assert(d * pow2(0) == d);
    assert(round_half_even(n, d) == TOLERANCE as nat);
}

/// Whether a number is, within the relative tolerance, a whole number. In the
/// arithmetic of the format this is the test `|v - trunc(v)| < |v| * t` for
/// the tolerance `t`, in which the difference on the left is exact and the
/// product on the right is rounded. So the number is finite, and the part of
/// its magnitude below one is smaller than its magnitude times
/// `TOLERANCE / 2^92`, rounded to 53 digits. Zero is none, since nothing is
/// smaller than a zero tolerance; neither is a number just below a whole
/// one, whose fractional part is nearly one.
pub open spec fn basically_integer(bits: u64) -> bool {
    finite(bits) && fraction_below_share(magnitude(bits), one(), TOLERANCE as nat, 92, 53)
}

/// Decides [`basically_integer`].
pub fn is_basically_an_integer(bits: u64) -> (r: bool)
    ensures
        r == basically_integer(bits),
{
    let u: u64 = magnitude_bits(bits);
    if u >= INFINITY {
        return false;
    }
    let e: u64 = u / HIDDEN;
    let sig: u64 = HIDDEN + u % HIDDEN;
    let ghost m = magnitude(bits);
    proof {
        lemma2_to64();
        lemma2_to64_rest();
        lemma_tolerance_is_nearest();
        lemma_pow2_pos(92);
        lemma_pow2_pos(1074);
    }
    if e < 1023 {
        proof {
            lemma_magnitude_one();
            lemma_magnitude_increasing(bits, ONE);
            lemma_pow2_strictly_increases(53, 92);
            lemma_fraction_below_share_small(m, one(), TOLERANCE as nat, 92, 53);
        }
        false
    } else if e >= 1075 {
        proof {
            lemma_pow2_quotient(sig as nat, 1074, (e - 1) as nat);
            lemma_pow2_pos((e - 1) as nat);
            lemma_pow2_strictly_increases(92, (e - 1) as nat);
            assert(m * TOLERANCE as nat >= pow2(92)) by (nonlinear_arith)
                requires
                    m == sig as nat * pow2((e - 1) as nat),
                    sig >= 1,
                    TOLERANCE >= 1,
                    pow2((e - 1) as nat) > pow2(92),
            ;
            lemma_fraction_below_share_whole(m, one(), TOLERANCE as nat, 92, 53);
        }
        true
    } else {
        let drop: u32 = (1075 - e) as u32;
        proof {
            lemma_bit_length_bounds(TOLERANCE as nat);
            lemma_product_digits(sig as nat, TOLERANCE as nat, 53);
            lemma_fraction_below_share(
                sig as nat,
                (e - 1) as nat,
                drop as nat,
                TOLERANCE as nat,
                92,
                53,
            );
        }
        low_digits_below_share(sig, drop, TOLERANCE, TOLERANCE_SCALE, 53)
    }
}

/// The number made from an integer below `2^53` in magnitude is that integer: it
/// has no fractional part, and it is a whole number within the tolerance
/// unless it is zero.
pub proof fn lemma_whole_number(v: int)
    requires
        absolute(v) < 2 * HIDDEN,
    ensures
        !not_a_number(nearest_to_integer(v)),
        value(nearest_to_integer(v)) == v * one(),
        whole_magnitude(nearest_to_integer(v)) == magnitude(nearest_to_integer(v)),
        basically_integer(nearest_to_integer(v)) == (v != 0),
{
    let bits = nearest_to_integer(v);
    let m = absolute(v);
    lemma2_to64_rest();
    lemma_bit_length_at_most(m, 53);
    lemma_nearest_to_integer(v);
    lemma_round_to_precision_exact(m, 53);
    lemma_pow2_pos(1074);
    assert(magnitude(bits) == m * one());
    vstd::arithmetic::div_mod::lemma_div_by_multiple(m as int, one() as int);
    vstd::arithmetic::div_mod::lemma_mod_multiples_basic(m as int, one() as int);
    if m == 0 {
        assert(m * one() == 0) by (nonlinear_arith)
            requires
                m == 0,
        ;
        lemma_pow2_strictly_increases(53, 92);
        lemma_fraction_below_share_small(0, one(), TOLERANCE as nat, 92, 53);
    } else {
        lemma_pow2_strictly_increases(92, 1074);
        assert(magnitude(bits) * TOLERANCE as nat >= pow2(92)) by (nonlinear_arith)
            requires
                magnitude(bits) == m * one(),
                m >= 1,
                one() > pow2(92),
                TOLERANCE >= 1,
        ;
        lemma_fraction_below_share_whole(magnitude(bits), one(), TOLERANCE as nat, 92, 53);
    }
}

} // verus!
