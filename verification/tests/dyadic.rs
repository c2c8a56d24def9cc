//! Digit counts, powers of two and rounding on machine words.
use rustiest_linear_algebra::dyadic;

#[test]
fn digits_counts_binary_digits() {
    assert_eq!(dyadic::digits(0), 0);
    assert_eq!(dyadic::digits(1), 1);
    assert_eq!(dyadic::digits(2), 2);
    assert_eq!(dyadic::digits(3), 2);
    assert_eq!(dyadic::digits(4), 3);
    assert_eq!(dyadic::digits(255), 8);
    assert_eq!(dyadic::digits(256), 9);
    assert_eq!(dyadic::digits((1 << 53) - 1), 53);
    assert_eq!(dyadic::digits(1 << 53), 54);
    assert_eq!(dyadic::digits(u64::MAX), 64);
}

#[test]
fn power_of_two_is_a_single_digit() {
    for j in 0..64u32 {
        assert_eq!(dyadic::power_of_two(j), 1u64 << j);
    }
    assert_eq!(dyadic::power_of_two(0), 1);
    assert_eq!(dyadic::power_of_two(10), 1024);
}

#[test]
fn round_half_even_shift_rounds_to_nearest() {
    // 13 / 4 = 3.25, 14 / 4 = 3.5, 15 / 4 = 3.75
    assert_eq!(dyadic::round_half_even_shift(12, 2), 3);
    assert_eq!(dyadic::round_half_even_shift(13, 2), 3);
    assert_eq!(dyadic::round_half_even_shift(15, 2), 4);
    assert_eq!(dyadic::round_half_even_shift(7, 0), 7);
    assert_eq!(dyadic::round_half_even_shift(0, 5), 0);
}

#[test]
fn round_half_even_shift_breaks_ties_to_even() {
    // 2.5 -> 2, 3.5 -> 4, 0.5 -> 0, 1.5 -> 2
    assert_eq!(dyadic::round_half_even_shift(10, 2), 2);
    assert_eq!(dyadic::round_half_even_shift(14, 2), 4);
    assert_eq!(dyadic::round_half_even_shift(1, 1), 0);
    assert_eq!(dyadic::round_half_even_shift(3, 1), 2);
    assert_eq!(dyadic::round_half_even_shift(1 << 62, 63), 0);
    assert_eq!(dyadic::round_half_even_shift(3 << 62, 63), 2);
}

#[test]
fn round_half_even_shift_on_wide_numbers() {
    let n: u128 = (1u128 << 105) + (1u128 << 52) + 1;
    assert_eq!(dyadic::round_half_even_shift(n, 53), (1u128 << 52) + 1);
    assert_eq!(dyadic::round_half_even_shift(u128::MAX, 1), 1u128 << 127);
}
