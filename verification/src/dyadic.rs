//! Arithmetic on natural numbers scaled by powers of two: digit counts and
//! rounding to a fixed number of significant binary digits.
//!
//! Every finite value of a binary floating-point format is a whole multiple of
//! the format's smallest step, so the theory of such a format can be written
//! over the naturals. Counted in that step, a format of `p` significant
//! digits holds every natural below `2^p`, and above that every natural with
//! at most `p` digits followed by zeros. [`round_to_precision`] rounds a
//! fraction onto that set, to the nearest member and of two equally near ones
//! to the one with the even last digit, as the formats themselves round.
//!
//! This module holds the part of the theory that does not depend on a
//! particular format.
use vstd::arithmetic::div_mod::{
    lemma_div_multiples_vanish_quotient, lemma_fundamental_div_mod,
    lemma_fundamental_div_mod_converse, lemma_truncate_middle,
};
use vstd::arithmetic::mul::{lemma_mul_is_associative, lemma_mul_is_commutative};
use vstd::arithmetic::power2::{
    lemma2_to64, lemma2_to64_rest, lemma_pow2_adds, lemma_pow2_pos,
    lemma_pow2_strictly_increases, lemma_pow2_unfold, pow2,
};
use vstd::prelude::*;

verus! {

/// The number of binary digits of `x`: zero for zero, and otherwise the `n`
/// with `2^(n-1) <= x < 2^n`.
pub open spec fn bit_length(x: nat) -> nat
    decreases x,
{
    if x == 0 {
        0
    } else {
        1 + bit_length(x / 2)
    }
}

/// How many low digits `x` has beyond the first `p`: the exponent of the step
/// between neighbouring numbers of `p` significant digits around `x`.
pub open spec fn excess_digits(x: nat, p: nat) -> nat {
    if bit_length(x) <= p {
        0
    } else {
        (bit_length(x) - p) as nat
    }
}

/// The integer nearest to the fraction `n / d`; of two equally near integers,
/// the even one.
pub open spec fn round_half_even(n: nat, d: nat) -> nat
    recommends
        d > 0,
{
    let q = n / d;
    let r = n % d;
    if 2 * r < d {
        q
    } else if 2 * r > d {
        q + 1
    } else if q % 2 == 0 {
        q
    } else {
        q + 1
    }
}

/// The fraction `n / d` rounded to `p` significant binary digits, ties to
/// even. Below `2^p` this is rounding to an integer; above, to a multiple of
/// the power of two that leaves `p` digits.
pub open spec fn round_to_precision(n: nat, d: nat, p: nat) -> nat
    recommends
        d > 0,
{
    let k = excess_digits(n / d, p);
    round_half_even(n, d * pow2(k)) * pow2(k)
}

/// Whether the part of `m` below `unit` is smaller than the share
/// `m * c / 2^t` of `m`, that share rounded to `p` significant digits.
pub open spec fn fraction_below_share(m: nat, unit: nat, c: nat, t: nat, p: nat) -> bool {
    m % unit < round_to_precision(m * c, pow2(t), p)
}

/// A number of `n` digits lies in `[2^(n-1), 2^n)`.
pub proof fn lemma_bit_length_bounds(x: nat)
    ensures
        x < pow2(bit_length(x)),
        x > 0 ==> pow2((bit_length(x) - 1) as nat) <= x,
    decreases x,
{
    if x == 0 {
        lemma_pow2_pos(0);
    } else {
        lemma_bit_length_bounds(x / 2);
        lemma_pow2_unfold(bit_length(x));
        if x / 2 > 0 {
            lemma_pow2_unfold((bit_length(x) - 1) as nat);
        } else {
            lemma2_to64();
        }
    }
}

/// The interval `[2^(n-1), 2^n)` holds only numbers of `n` digits.
pub proof fn lemma_bit_length_unique(x: nat, n: nat)
    requires
        n > 0,
        pow2((n - 1) as nat) <= x < pow2(n),
    ensures
        bit_length(x) == n,
{
    lemma_bit_length_bounds(x);
    lemma_pow2_pos((n - 1) as nat);
    let m = bit_length(x);
    if m < n {
        if m < n - 1 {
            lemma_pow2_strictly_increases(m, (n - 1) as nat);
        }
    } else if m > n {
        if n < m - 1 {
            lemma_pow2_strictly_increases(n, (m - 1) as nat);
        }
    }
}

/// A number below `2^n` has at most `n` digits.
pub proof fn lemma_bit_length_at_most(x: nat, n: nat)
    requires
        x < pow2(n),
    ensures
        bit_length(x) <= n,
{
    lemma_bit_length_bounds(x);
    if bit_length(x) > n + 1 {
        lemma_pow2_strictly_increases(n, (bit_length(x) - 1) as nat);
    }
}

/// Multiplying by `2^s` appends `s` digits.
pub proof fn lemma_bit_length_shift(x: nat, s: nat)
    requires
        x > 0,
    ensures
        bit_length(x * pow2(s)) == bit_length(x) + s,
{
    lemma_bit_length_bounds(x);
    let n = bit_length(x);
    lemma_pow2_adds((n - 1) as nat, s);
    lemma_pow2_adds(n, s);
    lemma_pow2_pos(s);
    assert(pow2((n - 1) as nat) * pow2(s) <= x * pow2(s) < pow2(n) * pow2(s))
        by (nonlinear_arith)
        requires
            pow2((n - 1) as nat) <= x < pow2(n),
            pow2(s) > 0,
    ;
    lemma_bit_length_unique(x * pow2(s), n + s);
}

/// `2^a` divides `x * 2^b` exactly when `a <= b`, leaving `x * 2^(b-a)`.
pub proof fn lemma_pow2_quotient(x: nat, a: nat, b: nat)
    requires
        a <= b,
    ensures
        (x * pow2(b)) / pow2(a) == x * pow2((b - a) as nat),
        (x * pow2(b)) % pow2(a) == 0,
{
    lemma_pow2_adds((b - a) as nat, a);
    lemma_pow2_pos(a);
    let y = x * pow2((b - a) as nat);
    assert(x * pow2(b) == y * pow2(a)) by {
        lemma_mul_is_associative(x as int, pow2((b - a) as nat) as int, pow2(a) as int);
    }
    lemma_fundamental_div_mod_converse((x * pow2(b)) as int, pow2(a) as int, y as int, 0);
}

/// A common factor of numerator and denominator does not change the rounding.
pub proof fn lemma_round_half_even_scale(n: nat, d: nat, c: nat)
    requires
        d > 0,
        c > 0,
    ensures
        round_half_even(n * c, d * c) == round_half_even(n, d),
{
    lemma_div_multiples_vanish_quotient(c as int, n as int, d as int);
    lemma_truncate_middle(n as int, c as int, d as int);
    lemma_mul_is_commutative(n as int, c as int);
    lemma_mul_is_commutative(d as int, c as int);
    assert((n * c) / (d * c) == n / d);
    assert((n * c) % (d * c) == c * (n % d));
    let r = n % d;
    assert(2 * (c * r) < d * c <==> 2 * r < d) by (nonlinear_arith)
        requires
            c > 0,
    ;
    assert(2 * (c * r) > d * c <==> 2 * r > d) by (nonlinear_arith)
        requires
            c > 0,
    ;
}

/// Rounding moves a fraction by at most half a unit,
/// `|round_half_even(n, d) - n/d| <= 1/2`, and where it moves it by exactly
/// half a unit, the result is even.
pub proof fn lemma_round_half_even_near(n: nat, d: nat)
    requires
        d > 0,
    ensures
        2 * n - d <= 2 * (round_half_even(n, d) * d) <= 2 * n + d,
        2 * (round_half_even(n, d) * d) == 2 * n - d || 2 * (round_half_even(n, d) * d) == 2 * n
            + d ==> round_half_even(n, d) % 2 == 0,
        round_half_even(n, d) >= n / d,
        round_half_even(n, d) <= n / d + 1,
{
    lemma_fundamental_div_mod(n as int, d as int);
    let q = n / d;
    let r = n % d;
    assert(n == d * q + r);
    assert((q + 1) * d == d * q + d) by (nonlinear_arith);
    assert(q * d == d * q) by (nonlinear_arith);
}

/// A number that already has at most `p` digits is its own rounding.
pub proof fn lemma_round_to_precision_exact(n: nat, p: nat)
    requires
        bit_length(n) <= p,
    ensures
        round_to_precision(n, 1, p) == n,
{
    lemma2_to64();
    assert(n / 1 == n);
    assert(excess_digits(n, p) == 0);
    assert(1 * pow2(0) == 1);
    assert(n % 1 == 0);
    assert(round_half_even(n, 1) == n);
}

/// A number of at most `p` digits, moved up until it has exactly `p`, lies in
/// `[2^(p-1), 2^p)`.
pub proof fn lemma_shifted_significand(m: nat, p: nat)
    requires
        0 < m,
        bit_length(m) <= p,
    ensures
        pow2((p - 1) as nat) <= m * pow2((p - bit_length(m)) as nat) < pow2(p),
{
    let up = (p - bit_length(m)) as nat;
    lemma_bit_length_shift(m, up);
    lemma_bit_length_bounds(m * pow2(up));
}

/// A number of more than `p` digits, rounded down to `p` of them, lies in
/// `[2^(p-1), 2^p]`: rounding up may reach the next power of two.
pub proof fn lemma_rounded_significand(m: nat, p: nat)
    requires
        p > 0,
        bit_length(m) > p,
    ensures
        pow2((p - 1) as nat) <= round_half_even(m, pow2((bit_length(m) - p) as nat)) <= pow2(p),
{
    let n = bit_length(m);
    let down = (n - p) as nat;
    let d = pow2(down);
    lemma_bit_length_bounds(m);
    lemma_pow2_pos(down);
    lemma_pow2_adds((p - 1) as nat, down);
    lemma_pow2_adds(p, down);
    lemma_pow2_pos(p);
    lemma_round_half_even_near(m, d);
    lemma_fundamental_div_mod(m as int, d as int);
    let q = m / d;
    assert(q >= pow2((p - 1) as nat)) by (nonlinear_arith)
        requires
            m == d * q + m % d,
            0 <= m % d < d,
            pow2((p - 1) as nat) * d <= m,
    ;
    assert(q < pow2(p)) by (nonlinear_arith)
        requires
            m == d * q + m % d,
            0 <= m % d < d,
            m < pow2(p) * d,
    ;
}

/// Where rounding to `p` digits drops digits at all, the step it rounds to
/// does not exceed the fraction: `d * 2^k <= n`.
pub proof fn lemma_step_below_fraction(n: nat, d: nat, p: nat)
    requires
        d > 0,
        p > 0,
        excess_digits(n / d, p) > 0,
    ensures
        d * pow2(excess_digits(n / d, p)) <= n,
{
    let x = n / d;
    let k = excess_digits(x, p);
    lemma_bit_length_bounds(x);
    if k < bit_length(x) - 1 {
        lemma_pow2_strictly_increases(k, (bit_length(x) - 1) as nat);
    }
    lemma_fundamental_div_mod(n as int, d as int);
    assert(d * pow2(k) <= n) by (nonlinear_arith)
        requires
            pow2(k) <= x,
            n == d * x + n % d,
            n % d >= 0,
            d > 0,
    ;
}

/// Rounding to `p` digits adds at most half of the fraction and half a unit:
/// `round_to_precision(n, d, p) <= (3/2) * (n/d) + 1/2`.
pub proof fn lemma_round_to_precision_upper(n: nat, d: nat, p: nat)
    requires
        d > 0,
        p > 0,
    ensures
        2 * (round_to_precision(n, d, p) * d) <= 3 * n + d,
{
    let k = excess_digits(n / d, p);
    let step = d * pow2(k);
    let r = round_half_even(n, step);
    lemma_pow2_pos(k);
    assert(step > 0) by (nonlinear_arith)
        requires
            step == d * pow2(k),
            d > 0,
            pow2(k) > 0,
    ;
    lemma_round_half_even_near(n, step);
    assert((r * pow2(k)) * d == r * step) by (nonlinear_arith)
        requires
            step == d * pow2(k),
    ;
    if k == 0 {
        lemma2_to64();
        assert(step == d) by (nonlinear_arith)
            requires
                step == d * pow2(k),
                pow2(k) == 1,
        ;
    } else {
        lemma_step_below_fraction(n, d, p);
    }
}

/// A fraction of at least one does not round to zero.
pub proof fn lemma_round_to_precision_positive(n: nat, d: nat, p: nat)
    requires
        d > 0,
        p > 0,
        n >= d,
    ensures
        round_to_precision(n, d, p) >= 1,
{
    let k = excess_digits(n / d, p);
    let step = d * pow2(k);
    let r = round_half_even(n, step);
    lemma_pow2_pos(k);
    assert(step > 0) by (nonlinear_arith)
        requires
            step == d * pow2(k),
            d > 0,
            pow2(k) > 0,
    ;
    if k == 0 {
        lemma2_to64();
        assert(step == d) by (nonlinear_arith)
            requires
                step == d * pow2(k),
                pow2(k) == 1,
        ;
    } else {
        lemma_step_below_fraction(n, d, p);
    }
    lemma_round_half_even_near(n, step);
    vstd::arithmetic::div_mod::lemma_div_non_zero(n as int, step as int);
    assert(r * pow2(k) >= 1) by (nonlinear_arith)
        requires
            r >= 1,
            pow2(k) >= 1,
    ;
}

/// Rounding a product that carries a large power of two: the power passes
/// through, and only the other factor is rounded.
pub proof fn lemma_round_scaled_product(pr: nat, s: nat, t: nat, p: nat)
    requires
        bit_length(pr) >= p,
        pr > 0,
        s >= t,
    ensures
        round_to_precision(pr * pow2(s), pow2(t), p) == round_half_even(
            pr,
            pow2((bit_length(pr) - p) as nat),
        ) * pow2((bit_length(pr) - p + s - t) as nat),
{
    let j = (bit_length(pr) - p) as nat;
    let n = pr * pow2(s);
    let d = pow2(t);
    lemma_pow2_pos(s);
    lemma_pow2_pos(t);
    lemma_pow2_pos(j);
    lemma_pow2_quotient(pr, t, s);
    lemma_bit_length_shift(pr, (s - t) as nat);
    let k = excess_digits(n / d, p);
    assert(k == j + s - t);
    lemma_pow2_adds(t, k);
    lemma_pow2_adds(j, s);
    assert(d * pow2(k) == pow2(j) * pow2(s));
    lemma_round_half_even_scale(pr, pow2(j), pow2(s));
}

/// The part of `sig * 2^s` below `2^(s + drop)` is the part of `sig` below
/// `2^drop`, moved up by `s` digits.
pub proof fn lemma_fraction_of_scaled(sig: nat, s: nat, drop: nat)
    ensures
        (sig * pow2(s)) % pow2(s + drop) == (sig % pow2(drop)) * pow2(s),
{
    lemma_pow2_pos(s);
    lemma_pow2_pos(drop);
    lemma_pow2_adds(s, drop);
    lemma_truncate_middle(sig as int, pow2(s) as int, pow2(drop) as int);
    lemma_mul_is_commutative(sig as int, pow2(s) as int);
    lemma_mul_is_commutative((sig % pow2(drop)) as int, pow2(s) as int);
}

/// A magnitude below the unit is all fraction, and a share of at most two
/// thirds of it, however rounded, is not above it.
pub proof fn lemma_fraction_below_share_small(m: nat, unit: nat, c: nat, t: nat, p: nat)
    requires
        m < unit,
        3 * c <= 2 * pow2(t),
        p > 0,
    ensures
        !fraction_below_share(m, unit, c, t, p),
{
    let share = round_to_precision(m * c, pow2(t), p);
    lemma_pow2_pos(t);
    vstd::arithmetic::div_mod::lemma_small_mod(m, unit);
    lemma_round_to_precision_upper(m * c, pow2(t), p);
    assert(share <= m) by (nonlinear_arith)
        requires
            2 * (share * pow2(t)) <= 3 * (m * c) + pow2(t),
            3 * c <= 2 * pow2(t),
            pow2(t) > 0,
    ;
}

/// A magnitude that is a multiple of the unit has no fraction, which is
/// below any share that does not round to zero.
pub proof fn lemma_fraction_below_share_whole(m: nat, unit: nat, c: nat, t: nat, p: nat)
    requires
        unit > 0,
        m % unit == 0,
        m * c >= pow2(t),
        p > 0,
    ensures
        fraction_below_share(m, unit, c, t, p),
{
    lemma_pow2_pos(t);
    lemma_round_to_precision_positive(m * c, pow2(t), p);
}

/// For a magnitude `sig * 2^s` with `drop` digits of `sig` below the unit, the
/// comparison of fraction and share comes down to the low digits of `sig`
/// against the rounded product `sig * c`.
pub proof fn lemma_fraction_below_share(sig: nat, s: nat, drop: nat, c: nat, t: nat, p: nat)
    requires
        sig > 0,
        c > 0,
        s >= t,
        p <= bit_length(sig * c) <= p + t,
    ensures
        fraction_below_share(sig * pow2(s), pow2(s + drop), c, t, p) == ((sig % pow2(drop)) * pow2(
            (t + p - bit_length(sig * c)) as nat,
        ) < round_half_even(sig * c, pow2((bit_length(sig * c) - p) as nat))),
{
    let pr = sig * c;
    let j = (bit_length(pr) - p) as nat;
    let low = sig % pow2(drop);
    let q = round_half_even(pr, pow2(j));
    let w = pow2((j + s - t) as nat);
    assert(pr > 0) by (nonlinear_arith)
        requires
            pr == sig * c,
            sig > 0,
            c > 0,
    ;
    assert((sig * pow2(s)) * c == pr * pow2(s)) by (nonlinear_arith)
        requires
            pr == sig * c,
    ;
    lemma_round_scaled_product(pr, s, t, p);
    lemma_fraction_of_scaled(sig, s, drop);
    lemma_pow2_adds((t - j) as nat, (j + s - t) as nat);
    lemma_pow2_pos((j + s - t) as nat);
    assert(low * pow2(s) == (low * pow2((t - j) as nat)) * w) by (nonlinear_arith)
        requires
            pow2(s) == pow2((t - j) as nat) * w,
    ;
    let a = low * pow2((t - j) as nat);
    assert((a * w < q * w) == (a < q)) by (nonlinear_arith)
        requires
            w > 0,
    ;
}

/// The product of two numbers of `p` digits has `2p - 1` or `2p` digits, and
/// `2^(2p-1)` tells the two apart.
pub proof fn lemma_product_digits(sig: nat, c: nat, p: nat)
    requires
        p > 0,
        pow2((p - 1) as nat) <= sig < pow2(p),
        pow2((p - 1) as nat) <= c < pow2(p),
    ensures
        sig * c < pow2((2 * p - 1) as nat) ==> bit_length(sig * c) == 2 * p - 1,
        sig * c >= pow2((2 * p - 1) as nat) ==> bit_length(sig * c) == 2 * p,
        sig * c < pow2(2 * p),
{
    let low = pow2((p - 1) as nat);
    let high = pow2(p);
    lemma_pow2_pos((p - 1) as nat);
    lemma_pow2_adds((p - 1) as nat, (p - 1) as nat);
    lemma_pow2_adds(p, p);
    assert(low * low <= sig * c < high * high) by (nonlinear_arith)
        requires
            0 < low <= sig < high,
            low <= c < high,
    ;
    if sig * c < pow2((2 * p - 1) as nat) {
        lemma_bit_length_unique(sig * c, (2 * p - 1) as nat);
    } else {
        lemma_bit_length_unique(sig * c, 2 * p);
    }
}

/// The standard count of leading zero digits of a 64-bit word is 64 less the
/// number of digits.
pub proof fn lemma_leading_zeros(m: u64)
    ensures
        vstd::std_specs::bits::u64_leading_zeros(m) == 64 - bit_length(m as nat),
        bit_length(m as nat) <= 64,
    decreases m,
{
    reveal(vstd::std_specs::bits::u64_leading_zeros);
    if m != 0 {
        lemma_leading_zeros(m / 2);
        vstd::std_specs::bits::axiom_u64_leading_zeros(m);
    }
}

/// The number of binary digits of `m`.
pub fn digits(m: u64) -> (n: u32)
    ensures
        n == bit_length(m as nat),
        n <= 64,
{
    proof {
        lemma_leading_zeros(m);
    }
    64 - m.leading_zeros()
}

/// `2^j` as a machine word.
pub fn power_of_two(j: u32) -> (r: u64)
    requires
        j < 64,
    ensures
        r == pow2(j as nat),
{
    proof {
        vstd::bits::lemma_u64_pow2_no_overflow(j as nat);
        vstd::bits::lemma_u64_shl_is_mul(1, j as u64);
    }
    1u64 << j
}

/// `n / 2^j` rounded to the nearest integer, ties to even.
pub fn round_half_even_shift(n: u128, j: u32) -> (q: u128)
    requires
        j < 64,
    ensures
        q == round_half_even(n as nat, pow2(j as nat)),
{
    let d: u128 = power_of_two(j) as u128;
    proof {
        lemma_pow2_pos(j as nat);
    }
    let floor: u128 = n / d;
    let rest: u128 = n % d;
    if 2 * rest < d {
        floor
    } else if 2 * rest > d {
        proof {
            lemma_fundamental_div_mod(n as int, d as int);
            assert(d * floor >= floor) by (nonlinear_arith)
                requires
                    d >= 1,
                    floor >= 0,
            ;
        }
        floor + 1
    } else if floor % 2 == 0 {
        floor
    } else {
        proof {
            lemma_fundamental_div_mod(n as int, d as int);
            assert(d * floor >= floor) by (nonlinear_arith)
                requires
                    d >= 1,
                    floor >= 0,
            ;
        }
        floor + 1
    }
}

/// Compares the lowest `drop` digits of `sig`, moved up to the scale of the
/// divisor `2^t`, with the product `sig * c` rounded to `p` digits: the test
/// that [`lemma_fraction_below_share`] reduces a fraction and its share to.
pub(crate) fn low_digits_below_share(sig: u64, drop: u32, c: u64, t: u32, p: u32) -> (r: bool)
    requires
        0 < p <= 53,
        p <= t < p + 63,
        drop < 64,
        pow2((p - 1) as nat) <= sig < pow2(p as nat),
        pow2((p - 1) as nat) <= c < pow2(p as nat),
    ensures
        r == ((sig as nat % pow2(drop as nat)) * pow2(
            (t + p - bit_length(sig as nat * c as nat)) as nat,
        ) < round_half_even(
            sig as nat * c as nat,
            pow2((bit_length(sig as nat * c as nat) - p) as nat),
        )),
{
    proof {
        lemma_product_digits(sig as nat, c as nat, p as nat);
        lemma_pow2_adds((p - 1) as nat, p as nat);
        lemma_pow2_pos(drop as nat);
        lemma2_to64_rest();
        if p < 53 {
            lemma_pow2_strictly_increases(p as nat, 53);
        }
        let high = pow2(p as nat);
        assert(sig * c < 0x20000000000000 * 0x20000000000000 && pow2((p - 1) as nat) * high
            < 0x20000000000000 * 0x20000000000000) by (nonlinear_arith)
            requires
                sig < high,
                c < high,
                pow2((p - 1) as nat) < high,
                high <= 0x20000000000000,
        ;
    }
    let product: u128 = sig as u128 * c as u128;
    let bound: u128 = power_of_two(p - 1) as u128 * power_of_two(p) as u128;
    let j: u32 = if product < bound {
        p - 1
    } else {
        p
    };
    let q: u128 = round_half_even_shift(product, j);
    let low: u64 = sig % power_of_two(drop);
    let weight: u64 = power_of_two(t - j);
    proof {
        assert(low as u128 * weight as u128 <= u128::MAX) by (nonlinear_arith)
            requires
                low <= u64::MAX,
                weight <= u64::MAX,
        ;
    }
    (low as u128) * (weight as u128) < q
}

} // verus!
