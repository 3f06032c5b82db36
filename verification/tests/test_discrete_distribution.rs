use ko::discrete_convolution::discrete_convolution;
use ko::discrete_distribution::{
    discrete_average_distributions, DiscreteProbabilityDistribution, DistributionError, TOLERANCE,
};
use ko::fixed::ONE;

fn fx(x: f64) -> i64 {
    (x * ONE as f64).round() as i64
}

fn fl(x: i64) -> f64 {
    x as f64 / ONE as f64
}

fn fxs(xs: &[f64]) -> Vec<i64> {
    xs.iter().map(|&x| fx(x)).collect()
}

#[test]
fn test_discrete_distribution_test_pmf() {
    let tolerance: f64 = 1e-10;
    let outcomes: Vec<i32> = vec![1, 2, 3];
    let probabilities: Vec<i64> = fxs(&[0.5, 0.25, 0.25]);
    let dist: DiscreteProbabilityDistribution<i32> =
        DiscreteProbabilityDistribution::new(outcomes, probabilities).unwrap();
    assert!((fl(dist.pmf(&1)) - 0.5).abs() < tolerance);
    assert!((fl(dist.pmf(&2)) - 0.25).abs() < tolerance);
    assert!((fl(dist.pmf(&3)) - 0.25).abs() < tolerance);
    assert!((fl(dist.pmf(&4)) - 0.).abs() < tolerance);
}

#[test]
fn test_distribution_test_pmf() {
    let outcomes: Vec<i32> = vec![1, 2, 3];
    let probabilities: Vec<i64> = fxs(&[0.5, 0.25, 0.25]);
    let dist: DiscreteProbabilityDistribution<i32> =
        DiscreteProbabilityDistribution::new(outcomes, probabilities).unwrap();
    assert_eq!(fl(dist.pmf(&1)), 0.5);
    assert_eq!(fl(dist.pmf(&2)), 0.25);
    assert_eq!(fl(dist.pmf(&3)), 0.25);
    assert_eq!(fl(dist.pmf(&4)), 0.);
}

#[test]
fn test_discrete_measure() {
    let tolerance: f64 = 1e-10;
    let binomial_distribution: DiscreteProbabilityDistribution<i32> =
        DiscreteProbabilityDistribution::multinomial(fxs(&[0.5, 0.25, 0.125, 0.125])).unwrap();
    assert!(
        (fl(binomial_distribution
            .measure(&binomial_distribution.outcomes())
            .unwrap())
            - 1.)
            .abs()
            < tolerance
    );
    assert!((fl(binomial_distribution.measure(&vec![0, 1]).unwrap()) - 0.75).abs() < tolerance);
    assert!(
        (fl(binomial_distribution.measure(&vec![0, 1, 2]).unwrap()) - 0.875).abs() < tolerance
    );
}

#[test]
fn test_discrete_convolution_test_discrete_convolution() {
    // create multinomial distribution
    let probabilities: Vec<i64> = fxs(&[0.5, 0.5]);
    let dist: DiscreteProbabilityDistribution<i32> =
        DiscreteProbabilityDistribution::multinomial(probabilities).unwrap();
    // compute convolution
    let conv_dist: DiscreteProbabilityDistribution<i32> =
        discrete_convolution(&dist, &dist).unwrap();
    // check result
    assert_eq!(conv_dist.outcomes(), vec![0, 1, 2]);
    assert_eq!(conv_dist.probabilities(), fxs(&[0.25, 0.5, 0.25]));
    let as_floats: Vec<f64> = conv_dist.probabilities().iter().map(|&p| fl(p)).collect();
    assert_eq!(as_floats, vec![0.25, 0.5, 0.25]);
}

#[test]
fn test_discrete_distribution_test_discrete_convolution() {
    let tolerance: f64 = 1e-10;
    let probabilities: Vec<i64> = fxs(&[0.5, 0.5]);
    let dist: DiscreteProbabilityDistribution<i32> =
        DiscreteProbabilityDistribution::multinomial(probabilities).unwrap();
    let conv_dist: DiscreteProbabilityDistribution<i32> =
        discrete_convolution(&dist, &dist).unwrap();
    assert_eq!(conv_dist.outcomes(), vec![0, 1, 2]);
    for (x, y) in conv_dist
        .probabilities()
        .iter()
        .zip(vec![0.25, 0.5, 0.25].iter())
    {
        assert!((fl(*x) - y).abs() < tolerance);
    }
}

#[test]
fn test_distributions() {
    let tolerance: f64 = 1e-10;
    // test convoluted binomial
    let p: f64 = 0.5;
    let binom: DiscreteProbabilityDistribution<i32> =
        DiscreteProbabilityDistribution::convoluted_binomial(3, fx(p)).unwrap();
    let probabilities: Vec<f64> = vec![0.125, 0.375, 0.375, 0.125];
    for idx in 0..4 {
        assert!((fl(binom.probabilities()[idx]) - probabilities[idx]).abs() < tolerance);
    }
    // test convoluted multinomial
    let probabilities: Vec<i64> = fxs(&[0.5, 0.5]);
    let multinom: DiscreteProbabilityDistribution<i32> =
        DiscreteProbabilityDistribution::convoluted_multinomial(3, probabilities).unwrap();
    let probabilities: Vec<f64> = vec![0.125, 0.375, 0.375, 0.125];
    for idx in 0..4 {
        assert!((fl(multinom.probabilities()[idx]) - probabilities[idx]).abs() < tolerance);
    }
    // test convoluted distributions of arbitrary size
    let conv: DiscreteProbabilityDistribution<i32> =
        DiscreteProbabilityDistribution::convoluted_binomial(100, fx(0.5)).unwrap();
    assert!((0.5f64.powi(100) - fl(conv.probabilities()[0])).abs() < tolerance);
}

#[test]
fn mismatched_lengths_are_rejected() {
    let outcomes: Vec<i32> = vec![1, 2, 3];
    let probabilities: Vec<i64> = fxs(&[0.5, 0.25, 0.125, 0.125]);
    assert_eq!(
        DiscreteProbabilityDistribution::new(outcomes, probabilities).err(),
        Some(DistributionError::DimensionMismatch)
    );
}

#[test]
fn probabilities_that_do_not_sum_to_one_are_rejected() {
    let outcomes: Vec<i32> = vec![1, 2, 3];
    let probabilities: Vec<i64> = fxs(&[0.5, 0.25, 0.125]);
    assert_eq!(
        DiscreteProbabilityDistribution::new(outcomes, probabilities).err(),
        Some(DistributionError::InvalidProbability)
    );
    let empty: Vec<i32> = Vec::new();
    assert_eq!(
        DiscreteProbabilityDistribution::new(empty, Vec::new()).err(),
        Some(DistributionError::InvalidProbability)
    );
}

#[test]
fn the_tolerance_is_exclusive() {
    let just_inside = vec![ONE - TOLERANCE + 1];
    assert!(DiscreteProbabilityDistribution::new(vec![0], just_inside).is_ok());
    let on_the_edge = vec![ONE - TOLERANCE];
    assert_eq!(
        DiscreteProbabilityDistribution::new(vec![0], on_the_edge).err(),
        Some(DistributionError::InvalidProbability)
    );
    let above = vec![ONE + TOLERANCE];
    assert_eq!(
        DiscreteProbabilityDistribution::new(vec![0], above).err(),
        Some(DistributionError::InvalidProbability)
    );
    assert!(DiscreteProbabilityDistribution::new(vec![0], vec![ONE + TOLERANCE - 1]).is_ok());
}

#[test]
fn slightly_negative_probabilities_are_tolerated() {
    let ok = DiscreteProbabilityDistribution::new(vec![0, 1], vec![ONE + TOLERANCE, -TOLERANCE]);
    assert!(ok.is_ok());
    let bad =
        DiscreteProbabilityDistribution::new(vec![0, 1], vec![ONE + TOLERANCE + 1, -TOLERANCE - 1]);
    assert_eq!(bad.err(), Some(DistributionError::InvalidProbability));
}

#[test]
fn long_lists_are_accepted() {
    let n: usize = 20_000_000;
    let mut probabilities: Vec<i64> = vec![0; n];
    probabilities[n - 1] = ONE;
    let dist = DiscreteProbabilityDistribution::multinomial(probabilities).unwrap();
    assert_eq!(dist.len(), n);
    assert_eq!(dist.pmf(&(n as i32 - 1)), ONE);
}

#[test]
fn convolution_keeps_every_outcome_of_positive_probability() {
    let tiny = fx(1e-8);
    let two = DiscreteProbabilityDistribution::convoluted_binomial(2, tiny).unwrap();
    assert_eq!(two.outcomes(), vec![0, 1, 2]);
    // 1e-16 is below half a unit: the least unit stands for it
    assert_eq!(two.pmf(&2), 1);
    assert_eq!(two.pmf(&1), fx(2e-8));
    let five = DiscreteProbabilityDistribution::convoluted_binomial(5, tiny).unwrap();
    assert_eq!(five.outcomes(), vec![0, 1, 2, 3, 4, 5]);
    let same = DiscreteProbabilityDistribution::convoluted_binomial(1, tiny).unwrap();
    assert_eq!(same.probabilities(), DiscreteProbabilityDistribution::binomial(tiny).unwrap().probabilities());
}

#[test]
fn the_convoluted_binomial_is_the_binomial_distribution() {
    fn choose(n: u32, k: u32) -> f64 {
        (0..k).fold(1.0, |c, i| c * (n - i) as f64 / (i + 1) as f64)
    }
    for &(n, p) in &[(1u32, 0.3), (7, 0.5), (30, 0.1), (100, 0.5), (100, 0.97), (64, 1e-8)] {
        let d = DiscreteProbabilityDistribution::convoluted_binomial(n as usize, fx(p)).unwrap();
        assert_eq!(d.outcomes(), (0..=n as i32).collect::<Vec<i32>>());
        for k in 0..=n {
            let want = choose(n, k) * p.powi(k as i32) * (1.0 - p).powi((n - k) as i32);
            assert!((fl(d.pmf(&(k as i32))) - want).abs() < 1e-10, "n {} p {} k {}", n, p, k);
        }
    }
}

#[test]
fn pmf_sees_the_first_of_equal_outcomes() {
    let dist =
        DiscreteProbabilityDistribution::new(vec![7, 7, 8], fxs(&[0.25, 0.5, 0.25])).unwrap();
    assert_eq!(dist.pmf(&7), fx(0.25));
    assert_eq!(dist.pmf(&8), fx(0.25));
    assert_eq!(dist.pmf(&9), 0);
    assert_eq!(dist.len(), 3);
}

#[test]
fn measure_rejects_repeated_outcomes() {
    let dist = DiscreteProbabilityDistribution::multinomial(fxs(&[0.5, 0.5])).unwrap();
    assert_eq!(
        dist.measure(&vec![0, 1, 0]).err(),
        Some(DistributionError::DuplicateOutcome)
    );
    assert_eq!(dist.measure(&vec![5, 6]), Ok(0));
    assert_eq!(dist.measure(&Vec::new()), Ok(0));
    assert_eq!(dist.measure(&vec![1, 9]), Ok(fx(0.5)));
}

#[test]
fn measure_works_on_outcomes_of_any_type_with_equality() {
    let dist = DiscreteProbabilityDistribution::new(
        vec!["a".to_string(), "b".to_string()],
        fxs(&[0.25, 0.75]),
    )
    .unwrap();
    assert_eq!(dist.pmf(&"b".to_string()), fx(0.75));
    assert_eq!(dist.measure(&vec!["b".to_string(), "a".to_string()]), Ok(ONE));
    assert_eq!(
        dist.measure(&vec!["b".to_string(), "b".to_string()]).err(),
        Some(DistributionError::DuplicateOutcome)
    );
}

#[test]
fn binomial_is_a_two_outcome_distribution() {
    let dist = DiscreteProbabilityDistribution::binomial(fx(0.75)).unwrap();
    assert_eq!(dist.outcomes(), vec![0, 1]);
    assert_eq!(dist.probabilities(), fxs(&[0.25, 0.75]));
    assert_eq!(
        DiscreteProbabilityDistribution::binomial(fx(1.5)).err(),
        Some(DistributionError::InvalidProbability)
    );
    assert_eq!(
        DiscreteProbabilityDistribution::binomial(fx(-0.5)).err(),
        Some(DistributionError::InvalidProbability)
    );
    assert!(DiscreteProbabilityDistribution::binomial(0).is_ok());
    assert!(DiscreteProbabilityDistribution::binomial(ONE).is_ok());
}

#[test]
fn multinomial_counts_its_outcomes_from_zero() {
    let dist = DiscreteProbabilityDistribution::multinomial(fxs(&[0.1, 0.2, 0.3, 0.4])).unwrap();
    assert_eq!(dist.outcomes(), vec![0, 1, 2, 3]);
    assert_eq!(dist.pmf(&3), fx(0.4));
}

#[test]
fn convolution_of_shifted_and_sparse_supports() {
    let x = DiscreteProbabilityDistribution::new(vec![10, -2], fxs(&[0.25, 0.75])).unwrap();
    let y = DiscreteProbabilityDistribution::new(vec![0, 5], fxs(&[0.5, 0.5])).unwrap();
    let sum = discrete_convolution(&x, &y).unwrap();
    assert_eq!(sum.outcomes(), vec![-2, 3, 10, 15]);
    assert_eq!(sum.probabilities(), fxs(&[0.375, 0.375, 0.125, 0.125]));
}

#[test]
fn convolution_drops_outcomes_of_probability_zero() {
    let x = DiscreteProbabilityDistribution::new(vec![0, 1, 2], fxs(&[0.5, 0.0, 0.5])).unwrap();
    let y = DiscreteProbabilityDistribution::new(vec![0], fxs(&[1.0])).unwrap();
    let sum = discrete_convolution(&x, &y).unwrap();
    assert_eq!(sum.outcomes(), vec![0, 2]);
    assert_eq!(sum.probabilities(), fxs(&[0.5, 0.5]));
}

#[test]
fn convolution_fails_where_the_sums_leave_the_outcome_type() {
    let x = DiscreteProbabilityDistribution::new(vec![i32::MAX], vec![ONE]).unwrap();
    let y = DiscreteProbabilityDistribution::new(vec![1], vec![ONE]).unwrap();
    assert_eq!(
        discrete_convolution(&x, &y).err(),
        Some(DistributionError::DegenerateParameter)
    );
    let z = DiscreteProbabilityDistribution::new(vec![0], vec![ONE]).unwrap();
    let same = discrete_convolution(&x, &z).unwrap();
    assert_eq!(same.outcomes(), vec![i32::MAX]);
}

#[test]
fn convoluted_constructors_with_one_or_no_convolution_give_the_base() {
    let one = DiscreteProbabilityDistribution::convoluted_binomial(1, fx(0.25)).unwrap();
    assert_eq!(one.probabilities(), fxs(&[0.75, 0.25]));
    let none = DiscreteProbabilityDistribution::convoluted_binomial(0, fx(0.25)).unwrap();
    assert_eq!(none.probabilities(), fxs(&[0.75, 0.25]));
    let two = DiscreteProbabilityDistribution::convoluted_binomial(2, fx(0.25)).unwrap();
    assert_eq!(two.probabilities(), fxs(&[0.5625, 0.375, 0.0625]));
    assert_eq!(
        DiscreteProbabilityDistribution::convoluted_binomial(2, fx(2.0)).err(),
        Some(DistributionError::InvalidProbability)
    );
    assert_eq!(
        DiscreteProbabilityDistribution::convoluted_multinomial(2, fxs(&[0.5, 0.6])).err(),
        Some(DistributionError::InvalidProbability)
    );
}

#[test]
fn average_of_two_distributions() {
    let x = DiscreteProbabilityDistribution::new(vec![1, 2], fxs(&[0.5, 0.5])).unwrap();
    let y = DiscreteProbabilityDistribution::new(vec![2, 3], fxs(&[0.25, 0.75])).unwrap();
    let m = discrete_average_distributions(&x, &y).unwrap();
    assert_eq!(m.outcomes(), vec![1, 2, 3]);
    assert_eq!(m.probabilities(), fxs(&[0.25, 0.375, 0.375]));
    let doubled = DiscreteProbabilityDistribution::new(vec![1, 1], fxs(&[0.5, 0.5])).unwrap();
    assert_eq!(
        discrete_average_distributions(&doubled, &doubled).err(),
        Some(DistributionError::InvalidProbability)
    );
}

#[test]
fn sampling_walks_the_outcomes() {
    let dist = DiscreteProbabilityDistribution::new(vec![10, 20, 30], fxs(&[0.25, 0.0, 0.75]))
        .unwrap();
    assert_eq!(dist.sample_index(0), 0);
    assert_eq!(dist.sample_at(0), 10);
    assert_eq!(dist.sample_at(fx(0.25)), 10);
    assert_eq!(dist.sample_at(fx(0.25) + 1), 30);
    assert_eq!(dist.sample_at(ONE - 1), 30);
    // a variate beyond the total mass still lands on the last outcome
    let short = DiscreteProbabilityDistribution::new(vec![1, 2], vec![ONE / 2, ONE / 2 - 50])
        .unwrap();
    assert_eq!(short.sample_index(ONE - 1), 1);
    assert_eq!(short.sample_at(ONE - 1), 2);
}

#[test]
fn errors_say_what_went_wrong() {
    assert_eq!(
        DistributionError::DimensionMismatch.message(),
        "outcomes and probabilities must have the same length"
    );
    assert_eq!(
        DistributionError::InvalidProbability.message(),
        "probabilities must be non-negative and sum to 1"
    );
    assert_eq!(
        DistributionError::DegenerateParameter.message(),
        "a parameter lies outside its domain"
    );
    assert_eq!(
        DistributionError::DuplicateOutcome.message(),
        "the outcomes must differ from one another"
    );
    assert_eq!(
        DistributionError::TooLarge.message(),
        "the result is too large for this machine"
    );
}

#[test]
#[should_panic]
fn test_discrete_distribution_test_incompat_out_prob_dist() {
    let outcomes: Vec<i32> = vec![1, 2, 3];
    let probabilities: Vec<i64> = fxs(&[0.5, 0.25, 0.125, 0.125]);
    DiscreteProbabilityDistribution::new(outcomes, probabilities).unwrap();
}

#[test]
#[should_panic]
fn test_discrete_distribution_test_ill_def_prob_dist() {
    let outcomes: Vec<i32> = vec![1, 2, 3];
    let probabilities: Vec<i64> = fxs(&[0.5, 0.25, 0.125]);
    DiscreteProbabilityDistribution::new(outcomes, probabilities).unwrap();
}

#[test]
#[should_panic]
fn test_distribution_test_incompat_out_prob_dist() {
    let outcomes: Vec<i32> = vec![1, 2, 3];
    let probabilities: Vec<i64> = fxs(&[0.5, 0.25, 0.125, 0.125]);
    DiscreteProbabilityDistribution::new(outcomes, probabilities).unwrap();
}

#[test]
#[should_panic]
fn test_distribution_test_ill_def_prob_dist() {
    let outcomes: Vec<i32> = vec![1, 2, 3];
    let probabilities: Vec<i64> = fxs(&[0.5, 0.25, 0.125]);
    DiscreteProbabilityDistribution::new(outcomes, probabilities).unwrap();
}

#[test]
fn integers_are_listed_once_in_the_order_of_first_occurrence() {
    assert_eq!(
        ko::discrete_distribution::distinct_integers(&vec![3, 1, 3, 2, 1, -7, 2]),
        vec![3, 1, 2, -7]
    );
    assert_eq!(ko::discrete_distribution::distinct_integers(&Vec::new()), Vec::<i32>::new());
}
