use ko::fixed::{fx_add, fx_div, fx_from_int, fx_mul, fx_neg, fx_ratio, fx_sub, FIXED_MAX, FIXED_MIN, ONE};
use ko::fixed_exp::{fx_exp, fx_exp_wide, fx_pow, wide_pow};
use ko::fixed_log::{fx_ln, fx_log2, LN_2, LOG2_E};
use ko::fixed_sqrt::fx_sqrt;

fn fx(x: f64) -> i64 {
    (x * ONE as f64).round() as i64
}

fn fl(x: i64) -> f64 {
    x as f64 / ONE as f64
}

#[test]
fn multiplication_rounds_to_nearest_and_saturates() {
    assert_eq!(fx_mul(ONE / 2, ONE / 2), ONE / 4);
    assert_eq!(fx_mul(3, ONE / 2), 2);
    assert_eq!(fx_mul(-3, ONE / 2), -2);
    assert_eq!(fx_mul(1, ONE / 4), 0);
    assert_eq!(fx_mul(FIXED_MAX, 2 * ONE), FIXED_MAX);
    assert_eq!(fx_mul(FIXED_MAX, -2 * ONE), FIXED_MIN);
    assert_eq!(fx_mul(FIXED_MIN, FIXED_MIN), FIXED_MAX);
}

#[test]
fn division_rounds_to_nearest_and_handles_zero() {
    assert_eq!(fx_div(ONE, 3 * ONE), 333_333_333_333_333);
    assert_eq!(fx_div(2 * ONE, 3 * ONE), 666_666_666_666_667);
    assert_eq!(fx_div(-2 * ONE, 3 * ONE), -666_666_666_666_667);
    assert_eq!(fx_div(2 * ONE, -3 * ONE), -666_666_666_666_667);
    assert_eq!(fx_div(ONE, 0), FIXED_MAX);
    assert_eq!(fx_div(-ONE, 0), FIXED_MIN);
    assert_eq!(fx_div(0, 0), 0);
    assert_eq!(fx_ratio(979, 5), 195_800_000_000_000_000);
}

#[test]
fn sums_saturate() {
    assert_eq!(fx_add(FIXED_MAX, 1), FIXED_MAX);
    assert_eq!(fx_sub(FIXED_MIN, 1), FIXED_MIN);
    assert_eq!(fx_neg(FIXED_MIN), FIXED_MAX);
    assert_eq!(fx_from_int(10_000), FIXED_MAX);
    assert_eq!(fx_from_int(-3), -3 * ONE);
}

#[test]
fn square_root_rounds_down() {
    assert_eq!(fx_sqrt(4 * ONE), 2 * ONE);
    assert_eq!(fx_sqrt(ONE), ONE);
    assert_eq!(fx_sqrt(0), 0);
    assert_eq!(fx_sqrt(-ONE), 0);
    assert_eq!(fx_sqrt(2 * ONE), 1_414_213_562_373_095);
    assert!((fl(fx_sqrt(FIXED_MAX)) - 9223.372036854775807f64.sqrt()).abs() < 1e-12);
}

#[test]
fn binary_logarithm_is_exact_on_powers_of_two() {
    assert_eq!(fx_log2(ONE), 0);
    assert_eq!(fx_log2(2 * ONE), ONE);
    assert_eq!(fx_log2(1024 * ONE), 10 * ONE);
    assert_eq!(fx_log2(ONE / 2), -ONE);
    assert_eq!(fx_log2(ONE / 32768), -15 * ONE);
    assert_eq!(fx_log2(0), FIXED_MIN);
    assert_eq!(fx_log2(-ONE), FIXED_MIN);
}

#[test]
fn logarithms_agree_with_the_reals() {
    for &x in &[0.001, 0.1, 0.3, 0.75, 1.5, 2.718281828459045, 3.0, 10.0, 1234.5, 9000.0] {
        assert!((fl(fx_log2(fx(x))) - f64::log2(x)).abs() < 1e-13, "log2({})", x);
        assert!((fl(fx_ln(fx(x))) - f64::ln(x)).abs() < 1e-13, "ln({})", x);
    }
    assert!((fl(fx_log2(1)) - (1e-15f64).log2()).abs() < 1e-13);
    assert!((fl(LN_2) - std::f64::consts::LN_2).abs() < 1e-15);
    assert!((fl(LOG2_E) - std::f64::consts::LOG2_E).abs() < 1e-15);
}

#[test]
fn exponential_agrees_with_the_reals() {
    assert_eq!(fx_exp(0), ONE);
    assert_eq!(fx_exp(FIXED_MIN), 0);
    assert_eq!(fx_exp(-40 * ONE), 0);
    assert_eq!(fx_exp(10 * ONE), FIXED_MAX);
    for &x in &[-30.0, -10.0, -2.0, -1.0, -0.5, -0.1, 0.1, 0.3, 0.5, 1.0, 2.0, 5.0, 9.0] {
        let want = f64::exp(x);
        let got = fl(fx_exp(fx(x)));
        assert!((got - want).abs() <= want * 1e-13 + 1.1e-15, "exp({}) = {} vs {}", x, got, want);
    }
}

#[test]
fn power_agrees_with_the_reals() {
    assert!((fl(fx_pow(fx(10.0), fx(-2.0))) - 0.01).abs() < 1e-13);
    assert!((fl(fx_pow(fx(2.0), fx(0.5))) - 2f64.sqrt()).abs() < 1e-13);
    assert!((fl(fx_pow(fx(0.25), fx(-1.0 / 3.0))) - 0.25f64.powf(-1.0 / 3.0)).abs() < 1e-12);
    assert_eq!(fx_pow(0, ONE), 0);
    assert_eq!(fx_pow(-ONE, ONE), 0);
}

#[test]
fn exponential_and_logarithm_undo_each_other() {
    let mut worst: f64 = 0.0;
    let mut a: i64 = 1_000;
    while a < FIXED_MAX / 3 {
        let back = fx_exp(fx_ln(a));
        let gap = (back - a).abs() as f64;
        // the logarithm is known to about two units, which the exponential scales by `a`
        let allowed = 3.0 + 4e-15 * a as f64 * (1.0 + (a as f64 / ONE as f64).ln().abs());
        assert!(gap <= allowed, "a = {}: {} vs {}", a, back, a);
        worst = worst.max(gap / allowed);
        a = a / 2 * 3 + 7;
    }
    assert!(worst > 0.0);
}

#[test]
fn exponential_and_logarithm_keep_the_order() {
    let mut last_exp = 0;
    let mut last_log = FIXED_MIN;
    for i in -3600..920 {
        let x = i * (ONE / 100) + 3;
        let e = fx_exp(x);
        assert!(e >= last_exp);
        last_exp = e;
    }
    let mut a: i64 = 1;
    while a < FIXED_MAX / 2 {
        let l = fx_log2(a);
        assert!(l >= last_log);
        last_log = l;
        a = a + a / 3 + 1;
    }
}

#[test]
fn the_wide_exponential_goes_on_beyond_the_number_range() {
    assert_eq!(fx_exp_wide(0), ONE as i128);
    assert_eq!(fx_exp_wide(ONE), fx_exp(ONE) as i128);
    assert_eq!(fx_exp_wide(-ONE), fx_exp(-ONE) as i128);
    assert_eq!(fx_exp_wide(-40 * ONE), 0);
    let at_twenty = fx_exp_wide(20 * ONE) as f64 / ONE as f64;
    assert!((at_twenty / 20f64.exp() - 1.0).abs() < 1e-14, "{}", at_twenty);
    let at_forty = fx_exp_wide(40 * ONE) as f64 / ONE as f64;
    assert!((at_forty / 40f64.exp() - 1.0).abs() < 1e-14, "{}", at_forty);
    assert_eq!(fx_exp_wide(41 * ONE), ko::wide::WIDE_MAX);
    assert_eq!(fx_exp_wide(FIXED_MAX), ko::wide::WIDE_MAX);
    // 100^2 and 0.001^-2
    let square = wide_pow(100 * ONE as i128, 2 * ONE) as f64 / ONE as f64;
    assert!((square / 1e4 - 1.0).abs() < 1e-13, "{}", square);
    let inverse = wide_pow(ONE as i128 / 1000, -2 * ONE) as f64 / ONE as f64;
    assert!((inverse / 1e6 - 1.0).abs() < 1e-13, "{}", inverse);
    assert_eq!(wide_pow(0, ONE), 0);
    assert_eq!(wide_pow(-5, ONE), 0);
}
