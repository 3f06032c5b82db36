use ko::fixed::{FIXED_MAX, FIXED_MIN, ONE};
use ko::wide::{
    wide_div, wide_mean, wide_mul, wide_powi, wide_powi_signed, wide_reciprocal, wide_root,
    wide_root_of_total, wide_total, WIDE_MAX,
};

const WIDE_ONE: i128 = ONE as i128;

#[test]
fn wide_products_round_to_nearest_and_stop_at_the_end() {
    assert_eq!(wide_mul(3 * WIDE_ONE, 4 * WIDE_ONE), 12 * WIDE_ONE);
    assert_eq!(wide_mul(-3 * WIDE_ONE, 4 * WIDE_ONE), -12 * WIDE_ONE);
    assert_eq!(wide_mul(-3 * WIDE_ONE, -4 * WIDE_ONE), 12 * WIDE_ONE);
    assert_eq!(wide_mul(100_000 * WIDE_ONE, 100_000 * WIDE_ONE), 10_000_000_000 * WIDE_ONE);
    // half a unit rounds away from zero
    assert_eq!(wide_mul(1, WIDE_ONE / 2), 1);
    assert_eq!(wide_mul(-1, WIDE_ONE / 2), -1);
    assert_eq!(wide_mul(1, WIDE_ONE / 2 - 1), 0);
    assert_eq!(wide_mul(0, WIDE_MAX), 0);
    assert_eq!(wide_mul(WIDE_MAX, WIDE_ONE), WIDE_MAX);
    assert_eq!(wide_mul(WIDE_MAX, 2 * WIDE_ONE), WIDE_MAX);
    assert_eq!(wide_mul(WIDE_MAX, -WIDE_MAX), -WIDE_MAX);
    assert_eq!(wide_mul(WIDE_MAX / 2, 2 * WIDE_ONE), WIDE_MAX);
    // 123456.789012345678901 * 0.000001 rounds to 0.123456789012346
    assert_eq!(
        wide_mul(123_456_789_012_345_678_901, WIDE_ONE / 1_000_000),
        123_456_789_012_346
    );
}

#[test]
fn wide_powers_multiply_repeatedly() {
    assert_eq!(wide_powi(7 * WIDE_ONE, 0), WIDE_ONE);
    assert_eq!(wide_powi(10 * WIDE_ONE, 4), 10_000 * WIDE_ONE);
    assert_eq!(wide_powi(-10 * WIDE_ONE, 5), -100_000 * WIDE_ONE);
    assert_eq!(wide_powi(WIDE_ONE / 2, 10), WIDE_ONE / 1024);
    assert_eq!(wide_powi(10 * WIDE_ONE, 18), WIDE_MAX);
    assert_eq!(wide_powi(10 * WIDE_ONE, 19), WIDE_MAX);
    assert_eq!(wide_powi_signed(2 * WIDE_ONE, -3), WIDE_ONE / 8);
    assert_eq!(wide_powi_signed(-2 * WIDE_ONE, -3), -WIDE_ONE / 8);
    assert_eq!(wide_powi_signed(0, -1), WIDE_MAX);
    assert_eq!(wide_reciprocal(3 * WIDE_ONE), 333_333_333_333_333);
    assert_eq!(wide_reciprocal(1), WIDE_ONE * WIDE_ONE);
}

#[test]
fn wide_quotients_are_fixed_point_numbers() {
    assert_eq!(wide_div(WIDE_ONE, 3 * WIDE_ONE), 333_333_333_333_333);
    assert_eq!(wide_div(2 * WIDE_ONE, 3 * WIDE_ONE), 666_666_666_666_667);
    assert_eq!(wide_div(-2 * WIDE_ONE, 3 * WIDE_ONE), -666_666_666_666_667);
    assert_eq!(wide_div(2 * WIDE_ONE, -3 * WIDE_ONE), -666_666_666_666_667);
    assert_eq!(wide_div(-WIDE_ONE, -4 * WIDE_ONE), ONE / 4);
    // both far beyond the fixed-point range
    assert_eq!(wide_div(WIDE_MAX, WIDE_MAX), ONE);
    assert_eq!(wide_div(WIDE_MAX / 8, WIDE_MAX), ONE / 8);
    assert_eq!(wide_div(100_000_000 * WIDE_ONE, 100_000_000 * WIDE_ONE / 3), 3 * ONE);
    assert_eq!(wide_div(WIDE_MAX, WIDE_ONE), FIXED_MAX);
    assert_eq!(wide_div(-WIDE_MAX, WIDE_ONE), FIXED_MIN);
    assert_eq!(wide_div(9223 * WIDE_ONE, WIDE_ONE), 9223 * ONE);
    assert_eq!(wide_div(9224 * WIDE_ONE, WIDE_ONE), FIXED_MAX);
    assert_eq!(wide_div(1, WIDE_MAX), 0);
    assert_eq!(wide_div(5, 0), FIXED_MAX);
    assert_eq!(wide_div(-5, 0), FIXED_MIN);
    assert_eq!(wide_div(0, 0), 0);
}

#[test]
fn wide_sums_are_exact() {
    // the partial sums leave the fixed-point range and come back
    let terms: Vec<i128> = vec![WIDE_MAX, WIDE_MAX, 5, -WIDE_MAX, -WIDE_MAX];
    assert_eq!(wide_total(&terms), 5);
    assert_eq!(wide_mean(&terms), 1);
    assert_eq!(wide_total(&vec![WIDE_MAX, 1]), FIXED_MAX);
    assert_eq!(wide_total(&vec![-WIDE_MAX, 1]), FIXED_MIN);
    assert_eq!(wide_total(&vec![FIXED_MAX as i128, 1]), FIXED_MAX);
    assert_eq!(wide_total(&vec![FIXED_MAX as i128, -1]), FIXED_MAX - 1);
    assert_eq!(wide_total(&vec![FIXED_MIN as i128, -1]), FIXED_MIN);
    assert_eq!(wide_total(&vec![FIXED_MIN as i128, 1]), FIXED_MIN + 1);
    assert_eq!(wide_total(&vec![-3, 1]), -2);
    assert_eq!(wide_total(&Vec::new()), 0);
    assert_eq!(wide_mean(&Vec::new()), 0);
    // ties round away from zero
    assert_eq!(wide_mean(&vec![1, 2]), 2);
    assert_eq!(wide_mean(&vec![-1, -2]), -2);
    assert_eq!(wide_mean(&vec![-1, 0, 0]), 0);
    assert_eq!(wide_mean(&vec![-2, 0, 0]), -1);
    assert_eq!(wide_mean(&vec![2, 0, 0]), 1);
    assert_eq!(wide_mean(&vec![-7, 2]), -3);
    assert_eq!(wide_mean(&vec![WIDE_MAX, WIDE_MAX, WIDE_MAX]), WIDE_MAX);
    assert_eq!(wide_mean(&vec![-WIDE_MAX, -WIDE_MAX, -WIDE_MAX]), -WIDE_MAX);
}

#[test]
fn wide_roots_saturate() {
    assert_eq!(wide_root(4 * ONE as u128), 2 * ONE);
    assert_eq!(wide_root(0), 0);
    // the root of 10^6 is 1000
    assert_eq!(wide_root(1_000_000 * ONE as u128), 1000 * ONE);
    // the root of 10^8 is 10^4, beyond the range
    assert_eq!(wide_root(100_000_000 * ONE as u128), FIXED_MAX);
    assert_eq!(wide_root(u128::MAX), FIXED_MAX);
    assert_eq!(wide_root_of_total(&vec![9 * WIDE_ONE, 16 * WIDE_ONE]), 5 * ONE);
    assert_eq!(wide_root_of_total(&vec![WIDE_MAX, WIDE_MAX]), FIXED_MAX);
    assert_eq!(wide_root_of_total(&vec![-WIDE_MAX, WIDE_ONE]), 0);
    assert_eq!(wide_root_of_total(&vec![WIDE_MAX, -WIDE_MAX, 4 * WIDE_ONE]), 2 * ONE);
    assert_eq!(wide_root_of_total(&Vec::new()), 0);
}
