use ko::discrete_distribution::{DiscreteProbabilityDistribution, DistributionError};
use ko::empirical_distribution::{binomial_coefficients, count_equal};
use ko::fixed::ONE;

fn fx(x: f64) -> i64 {
    (x * ONE as f64).round() as i64
}

fn fl(x: i64) -> f64 {
    x as f64 / ONE as f64
}

fn fxs(xs: &[f64]) -> Vec<i64> {
    xs.iter().map(|&x| fx(x)).collect()
}

#[test]
fn the_empirical_distribution_lists_sorted_values_with_their_frequencies() {
    let dist = DiscreteProbabilityDistribution::from_samples(&vec![3, -1, 3, 3, 0, -1, 3, 7])
        .unwrap();
    assert_eq!(dist.outcomes(), vec![-1, 0, 3, 7]);
    assert_eq!(dist.probabilities(), fxs(&[0.25, 0.125, 0.5, 0.125]));
    assert_eq!(count_equal(&vec![3, -1, 3], 3), 2);
}

#[test]
fn the_empirical_distribution_of_thirds_is_valid_within_the_tolerance() {
    let dist = DiscreteProbabilityDistribution::from_samples(&vec![1, 2, 3]).unwrap();
    assert_eq!(dist.probabilities(), vec![333_333_333_333_333; 3]);
}

#[test]
fn no_samples_give_no_distribution() {
    assert_eq!(
        DiscreteProbabilityDistribution::from_samples(&Vec::new()).err(),
        Some(DistributionError::InvalidProbability)
    );
}

#[test]
fn binomial_coefficients_form_the_triangle() {
    assert_eq!(binomial_coefficients(0), vec![1]);
    assert_eq!(binomial_coefficients(4), vec![1, 4, 6, 4, 1]);
    assert_eq!(
        binomial_coefficients(12),
        vec![1, 12, 66, 220, 495, 792, 924, 792, 495, 220, 66, 12, 1]
    );
}

#[test]
fn the_binomial_distribution_of_trials() {
    let dist = DiscreteProbabilityDistribution::binomial_trials(3, fx(0.5)).unwrap();
    assert_eq!(dist.outcomes(), vec![0, 1, 2, 3]);
    assert_eq!(dist.probabilities(), fxs(&[0.125, 0.375, 0.375, 0.125]));
    let dist = DiscreteProbabilityDistribution::binomial_trials(12, fx(0.3)).unwrap();
    assert_eq!(dist.len(), 13);
    let want = 220.0 * 0.3f64.powi(3) * 0.7f64.powi(9);
    assert!((fl(dist.pmf(&3)) - want).abs() < 1e-12);
    let none = DiscreteProbabilityDistribution::binomial_trials(0, fx(0.3)).unwrap();
    assert_eq!(none.probabilities(), vec![ONE]);
    let sure = DiscreteProbabilityDistribution::binomial_trials(5, ONE).unwrap();
    assert_eq!(sure.pmf(&5), ONE);
    assert_eq!(sure.pmf(&4), 0);
}

#[test]
fn the_binomial_distribution_agrees_with_the_convolution() {
    let direct = DiscreteProbabilityDistribution::binomial_trials(6, fx(0.25)).unwrap();
    let convolved = DiscreteProbabilityDistribution::convoluted_binomial(6, fx(0.25)).unwrap();
    assert_eq!(direct.outcomes(), convolved.outcomes());
    for (a, b) in direct.probabilities().iter().zip(convolved.probabilities().iter()) {
        assert!((a - b).abs() <= 10);
    }
}

#[test]
fn degenerate_binomial_parameters_are_rejected() {
    assert_eq!(
        DiscreteProbabilityDistribution::binomial_trials(13, fx(0.5)).err(),
        Some(DistributionError::DegenerateParameter)
    );
    assert_eq!(
        DiscreteProbabilityDistribution::binomial_trials(3, -1).err(),
        Some(DistributionError::DegenerateParameter)
    );
    assert_eq!(
        DiscreteProbabilityDistribution::binomial_trials(3, ONE + 1).err(),
        Some(DistributionError::DegenerateParameter)
    );
}
