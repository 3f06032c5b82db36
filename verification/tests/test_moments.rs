use ko::continuous_distribution::{mean_of, variance_of};
use ko::correlation::{calc_pearson_coefficient, empirical_covariance};
use ko::discrete_distribution::DiscreteProbabilityDistribution;
use ko::discrete_moment::{discrete_central_moment, discrete_moment};
use ko::empirical_moment::{
    empirical_central_moment, empirical_moment, empirical_standardized_moment,
};
use ko::fixed::{fx_powi, FIXED_MAX, ONE};

fn fx(x: f64) -> i64 {
    let scaled = x * ONE as f64;
    assert!(scaled.abs() < FIXED_MAX as f64, "{} is out of range", x);
    scaled.round() as i64
}

fn fl(x: i64) -> f64 {
    x as f64 / ONE as f64
}

fn whole(xs: &[i32]) -> Vec<i64> {
    xs.iter().map(|&x| x as i64 * ONE).collect()
}

fn fxs(xs: &[f64]) -> Vec<i64> {
    xs.iter().map(|&x| fx(x)).collect()
}

#[test]
fn test_moments() {
    let tolerance: f64 = 1e-10;
    let p: f64 = 0.5;
    let binomial_distribution: DiscreteProbabilityDistribution<i32> =
        DiscreteProbabilityDistribution::binomial(fx(p)).unwrap();
    assert!((fl(discrete_moment(1, &binomial_distribution)) - p).abs() < tolerance);
    assert!((fl(discrete_central_moment(1, &binomial_distribution)) - 0.).abs() < tolerance);
    assert!(
        (fl(discrete_central_moment(2, &binomial_distribution)) - p * (1. - p)).abs() < tolerance
    );
}

#[test]
fn test_empirical_moment_test_empirical_moment() {
    let samples: Vec<i64> = whole(&[1, 2, 3, 4, 5]);
    assert_eq!(fl(empirical_moment(1, &samples)), 3.);
    assert_eq!(fl(empirical_moment(2, &samples)), 11.);
    assert_eq!(fl(empirical_moment(3, &samples)), 45.);
    assert_eq!(fl(empirical_moment(4, &samples)), 195.8);

    let samples: Vec<i64> = fxs(&[1., 2., 3., 4., 5.]);
    assert_eq!(fl(empirical_moment(1, &samples)), 3.);
    assert_eq!(fl(empirical_moment(2, &samples)), 11.);
    assert_eq!(fl(empirical_moment(3, &samples)), 45.);
    assert_eq!(fl(empirical_moment(4, &samples)), 195.8);
}

#[test]
fn test_empirical_moment_test_empirical_central_moment() {
    let samples: Vec<i64> = whole(&[1, 2, 3, 4, 5]);
    assert_eq!(fl(empirical_central_moment(1, &samples)), 0.);
    assert_eq!(fl(empirical_central_moment(2, &samples)), 2.);
    assert_eq!(fl(empirical_central_moment(3, &samples)), 0.);
    assert_eq!(fl(empirical_central_moment(4, &samples)), 6.8);

    let samples: Vec<i64> = fxs(&[1., 2., 3., 4., 5.]);
    assert_eq!(fl(empirical_central_moment(1, &samples)), 0.);
    assert_eq!(fl(empirical_central_moment(2, &samples)), 2.);
    assert_eq!(fl(empirical_central_moment(3, &samples)), 0.);
    assert_eq!(fl(empirical_central_moment(4, &samples)), 6.8);
}

#[test]
fn test_moment_test_empirical_moment() {
    let samples: Vec<i64> = whole(&[1, 2, 3, 4, 5]);
    let eps: f64 = 1e-6;
    assert!(fl(empirical_moment(1, &samples)) - 3. < eps);
    assert!(fl(empirical_moment(2, &samples)) - 11. < eps);
    assert!(fl(empirical_moment(3, &samples)) - 45. < eps);
    assert!(fl(empirical_moment(4, &samples)) - 195.8 < eps);

    let samples: Vec<i64> = fxs(&[1., 2., 3., 4., 5.]);
    assert!(fl(empirical_moment(1, &samples)) - 3. < eps);
    assert!(fl(empirical_moment(2, &samples)) - 11. < eps);
    assert!(fl(empirical_moment(3, &samples)) - 45. < eps);
    assert!(fl(empirical_moment(4, &samples)) - 195.8 < eps);
}

#[test]
fn test_moment_test_empirical_central_moment() {
    let samples: Vec<i64> = whole(&[1, 2, 3, 4, 5]);
    let eps: f64 = 1e-6;
    assert!(fl(empirical_central_moment(1, &samples)) - 0. < eps);
    assert!(fl(empirical_central_moment(2, &samples)) - 2. < eps);
    assert!(fl(empirical_central_moment(3, &samples)) - 0. < eps);
    assert!(fl(empirical_central_moment(4, &samples)) - 6.8 < eps);

    let samples: Vec<i64> = fxs(&[1., 2., 3., 4., 5.]);
    assert!(fl(empirical_central_moment(1, &samples)) - 0. < eps);
    assert!(fl(empirical_central_moment(2, &samples)) - 2. < eps);
    assert!(fl(empirical_central_moment(3, &samples)) - 0. < eps);
    assert!(fl(empirical_central_moment(4, &samples)) - 6.8 < eps);
}

#[test]
fn test_standardized_moment() {
    let samples: Vec<i64> = whole(&[1, 2, 3, 4, 5]);
    let eps: f64 = 1e-6;
    assert!(fl(empirical_standardized_moment(1, &samples)) - 0. < eps);
    assert!(fl(empirical_standardized_moment(2, &samples)) - 1. < eps);
    assert!(fl(empirical_standardized_moment(3, &samples)) - 0. < eps);
    assert!(fl(empirical_standardized_moment(4, &samples)) - 1.6999999999 < eps);

    let samples: Vec<i64> = fxs(&[1., 2., 3., 4., 5.]);
    assert!(fl(empirical_standardized_moment(1, &samples)) - 0. < eps);
    assert!(fl(empirical_standardized_moment(2, &samples)) - 1. < eps);
    assert!(fl(empirical_standardized_moment(3, &samples)) - 0. < eps);
    assert!(fl(empirical_standardized_moment(4, &samples)) - 1.6999999999 < eps);
}

#[test]
fn standardized_moments_have_their_exact_values() {
    let samples: Vec<i64> = whole(&[1, 2, 3, 4, 5]);
    assert_eq!(empirical_standardized_moment(1, &samples), 0);
    assert!((fl(empirical_standardized_moment(2, &samples)) - 1.0).abs() < 1e-14);
    assert!((fl(empirical_standardized_moment(4, &samples)) - 1.7).abs() < 1e-13);
}

#[test]
fn moments_of_no_samples_are_zero() {
    let none: Vec<i64> = Vec::new();
    assert_eq!(empirical_moment(3, &none), 0);
    assert_eq!(empirical_central_moment(2, &none), 0);
}

#[test]
fn whole_powers_multiply_repeatedly() {
    assert_eq!(fx_powi(3 * ONE, 0), ONE);
    assert_eq!(fx_powi(3 * ONE, 4), 81 * ONE);
    assert_eq!(fx_powi(-2 * ONE, 3), -8 * ONE);
    assert_eq!(fx_powi(ONE / 2, 10), ONE / 1024);
    assert_eq!(fx_powi(100 * ONE, 3), FIXED_MAX);
}

#[test]
fn discrete_moments_of_a_die() {
    let die = DiscreteProbabilityDistribution::new(
        vec![1, 2, 3, 4],
        fxs(&[0.25, 0.25, 0.25, 0.25]),
    )
    .unwrap();
    assert_eq!(discrete_moment(0, &die), ONE);
    assert_eq!(discrete_moment(1, &die), fx(2.5));
    assert_eq!(discrete_moment(2, &die), fx(7.5));
    assert_eq!(discrete_central_moment(2, &die), fx(1.25));
    assert_eq!(discrete_central_moment(3, &die), 0);
}

#[test]
fn covariance_of_paired_samples() {
    let pairs: Vec<(i64, i64)> = vec![
        (fx(1.), fx(2.)),
        (fx(2.), fx(4.)),
        (fx(3.), fx(6.)),
    ];
    // means 2 and 4; products 2, 0, 2; mean 4/3
    assert_eq!(empirical_covariance(&pairs), 1_333_333_333_333_333);
    assert_eq!(empirical_covariance(&Vec::new()), 0);
    // both second standardized moments are one
    let coefficient = calc_pearson_coefficient(&pairs);
    assert!((fl(coefficient) - 4.0 / 3.0).abs() < 1e-12);
}

#[test]
fn negative_orders_take_reciprocals() {
    let dist =
        DiscreteProbabilityDistribution::new(vec![1, 2, 4], fxs(&[0.25, 0.25, 0.5])).unwrap();
    // 0.25 / 1 + 0.25 / 2 + 0.5 / 4
    assert_eq!(discrete_moment(-1, &dist), fx(0.5));
    // 0.25 / 1 + 0.25 / 4 + 0.5 / 16
    assert_eq!(discrete_moment(-2, &dist), fx(0.34375));
    assert_eq!(ko::fixed::fx_powi_signed(2 * ONE, -3), ONE / 8);
    assert_eq!(ko::fixed::fx_powi_signed(0, -1), FIXED_MAX);
}

#[test]
fn a_power_beyond_the_range_does_not_spoil_the_moment() {
    // one sample of ten among four: its fourth power, 10000, lies beyond
    // the number range, the mean of the fourth powers does not
    let samples: Vec<i64> = whole(&[10, 0, 0, 0]);
    assert_eq!(empirical_moment(4, &samples), 2500 * ONE);
    assert_eq!(empirical_moment(2, &samples), 25 * ONE);
    // mean 2.5: (7.5^4 + 3 * 2.5^4) / 4
    assert_eq!(empirical_central_moment(4, &samples), fx(820.3125));
    // a moment that does lie beyond the range is its bound
    assert_eq!(empirical_moment(4, &whole(&[10, 10])), FIXED_MAX);
    assert_eq!(empirical_moment(3, &whole(&[-100, -100])), -FIXED_MAX - 1);
}

#[test]
fn standardized_moments_of_widely_spread_samples() {
    // the fourth central moment is 10^8 and so is the fourth power of the
    // standard deviation: neither fits the number range, their quotient does
    let samples: Vec<i64> = whole(&[-100, 100]);
    assert_eq!(empirical_central_moment(4, &samples), FIXED_MAX);
    assert_eq!(empirical_standardized_moment(4, &samples), ONE);
    assert_eq!(empirical_standardized_moment(2, &samples), ONE);
    assert_eq!(empirical_standardized_moment(3, &samples), 0);
    // samples that do not differ have no spread to divide by
    assert_eq!(empirical_standardized_moment(2, &whole(&[3, 3])), 0);
    assert_eq!(empirical_standardized_moment(0, &whole(&[3, 3])), ONE);
}

#[test]
fn the_variance_of_widely_spread_samples() {
    // mean 50; squared distances 2500, 2500, 2500 and 22500
    let samples: Vec<i64> = whole(&[0, 0, 0, 200]);
    assert_eq!(mean_of(&samples), 50 * ONE);
    assert_eq!(variance_of(&samples), 7500 * ONE);
    assert_eq!(variance_of(&whole(&[-200, 200])), FIXED_MAX);
    assert_eq!(variance_of(&whole(&[1, 3])), ONE);
    assert_eq!(variance_of(&Vec::new()), 0);
    // the two ends of the number range lie farther apart than it reaches
    assert_eq!(variance_of(&vec![FIXED_MAX, -FIXED_MAX]), FIXED_MAX);
}

#[test]
fn the_covariance_of_widely_spread_pairs() {
    let pairs: Vec<(i64, i64)> = vec![
        (0, 0),
        (0, 0),
        (0, 0),
        (200 * ONE, 200 * ONE),
    ];
    // means 50 and 50; products 2500, 2500, 2500 and 22500
    assert_eq!(empirical_covariance(&pairs), 7500 * ONE);
    assert_eq!(calc_pearson_coefficient(&pairs), 7500 * ONE);
    let opposed: Vec<(i64, i64)> = vec![(-200 * ONE, 200 * ONE), (200 * ONE, -200 * ONE)];
    assert_eq!(empirical_covariance(&opposed), -FIXED_MAX - 1);
}

#[test]
fn discrete_moments_of_distant_outcomes() {
    // the square of the outcome 100 lies beyond the number range, half of
    // it does not
    let dist = DiscreteProbabilityDistribution::new(vec![0, 100], fxs(&[0.5, 0.5])).unwrap();
    assert_eq!(discrete_moment(1, &dist), 50 * ONE);
    assert_eq!(discrete_moment(2, &dist), 5000 * ONE);
    assert_eq!(discrete_central_moment(2, &dist), 2500 * ONE);
    assert_eq!(discrete_central_moment(3, &dist), 0);
    assert_eq!(discrete_moment(3, &dist), FIXED_MAX);
    // an outcome beyond the number range itself
    let far = DiscreteProbabilityDistribution::new(vec![0, 1_000_000], vec![ONE - 1000, 1000])
        .unwrap();
    assert_eq!(discrete_moment(1, &far), 1_000_000_000);
    assert_eq!(discrete_moment(2, &far), ONE);
    assert_eq!(discrete_moment(3, &far), FIXED_MAX);
    // the reciprocal of a zero outcome is beyond every bound
    assert_eq!(discrete_moment(-1, &dist), FIXED_MAX);
}
