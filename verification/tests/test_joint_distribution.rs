use ko::discrete_distribution::{DiscreteProbabilityDistribution, DistributionError};
use ko::fixed::ONE;
use ko::joint_distribution::{joint_distribution, product};

fn fx(x: f64) -> i64 {
    (x * ONE as f64).round() as i64
}

fn fl(x: i64) -> f64 {
    x as f64 / ONE as f64
}

fn fxs(xs: &[f64]) -> Vec<i64> {
    xs.iter().map(|&x| fx(x)).collect()
}

#[test]
fn test_joint_distribution() {
    let dist: DiscreteProbabilityDistribution<i32> =
        DiscreteProbabilityDistribution::multinomial(fxs(&[0.5, 0.5])).unwrap();
    let test_joint_dist: DiscreteProbabilityDistribution<Vec<i32>> =
        joint_distribution(&vec![dist.clone(), dist.clone()]).unwrap();
    let correct_joint_dist: DiscreteProbabilityDistribution<Vec<i32>> =
        DiscreteProbabilityDistribution::new(
            vec![vec![0, 0], vec![1, 0], vec![0, 1], vec![1, 1]],
            fxs(&[0.25, 0.25, 0.25, 0.25]),
        )
        .unwrap();
    for test_elem in test_joint_dist.outcomes().iter() {
        assert!(correct_joint_dist.outcomes().contains(test_elem));
    }
    for correct_elem in correct_joint_dist.outcomes().iter() {
        assert!(test_joint_dist.outcomes().contains(correct_elem));
    }

    let x: Vec<i32> = vec![1, 2, 3];
    let y: Vec<i32> = vec![4, 5];
    let dist_x: DiscreteProbabilityDistribution<i32> =
        DiscreteProbabilityDistribution::new(x, fxs(&[0.5, 0.5, 0.0])).unwrap();
    let dist_y: DiscreteProbabilityDistribution<i32> =
        DiscreteProbabilityDistribution::new(y, fxs(&[0.5, 0.5])).unwrap();
    let test_joint_distribution: DiscreteProbabilityDistribution<Vec<i32>> =
        joint_distribution(&vec![dist_x, dist_y]).unwrap();
    let correct_joint_distribution: DiscreteProbabilityDistribution<Vec<i32>> =
        DiscreteProbabilityDistribution::new(
            vec![
                vec![1, 5],
                vec![1, 4],
                vec![2, 4],
                vec![2, 5],
                vec![3, 4],
                vec![3, 5],
            ],
            fxs(&[0.25, 0.25, 0.25, 0.25, 0.0, 0.0]),
        )
        .unwrap();
    for test_elem in test_joint_distribution.outcomes().iter() {
        assert!(correct_joint_distribution.outcomes().contains(test_elem));
    }
    for correct_elem in correct_joint_distribution.outcomes().iter() {
        assert!(test_joint_distribution.outcomes().contains(correct_elem));
    }
}

#[test]
fn joint_outcomes_and_probabilities_share_one_order() {
    let a = DiscreteProbabilityDistribution::new(vec![1, 2], fxs(&[0.25, 0.75])).unwrap();
    let b = DiscreteProbabilityDistribution::new(vec![4, 5], fxs(&[0.5, 0.5])).unwrap();
    let joint = joint_distribution(&vec![a, b]).unwrap();
    assert_eq!(
        joint.outcomes(),
        vec![vec![1, 4], vec![2, 4], vec![1, 5], vec![2, 5]]
    );
    assert_eq!(joint.probabilities(), fxs(&[0.125, 0.375, 0.125, 0.375]));
    assert_eq!(joint.pmf(&vec![2, 5]), fx(0.375));
    assert_eq!(joint.pmf(&vec![5, 2]), 0);
}

#[test]
fn the_measure_of_all_joint_outcomes_is_one() {
    let a = DiscreteProbabilityDistribution::multinomial(fxs(&[0.1, 0.2, 0.7])).unwrap();
    let b = DiscreteProbabilityDistribution::multinomial(fxs(&[0.3, 0.3, 0.15, 0.25])).unwrap();
    let c = DiscreteProbabilityDistribution::multinomial(fxs(&[0.9, 0.1])).unwrap();
    let joint = joint_distribution(&vec![a, b, c]).unwrap();
    assert_eq!(joint.len(), 24);
    let total = joint.measure(&joint.outcomes()).unwrap();
    assert!((fl(total) - 1.0).abs() < 1e-10);
}

#[test]
fn the_measure_of_a_joint_distribution_with_repeated_outcomes_fails() {
    let a = DiscreteProbabilityDistribution::new(vec![1, 1], fxs(&[0.5, 0.5])).unwrap();
    let b = DiscreteProbabilityDistribution::new(vec![4], fxs(&[1.0])).unwrap();
    let joint = joint_distribution(&vec![a, b]).unwrap();
    assert_eq!(
        joint.measure(&joint.outcomes()).err(),
        Some(DistributionError::DuplicateOutcome)
    );
}

#[test]
fn the_joint_distribution_of_one_variable_wraps_its_outcomes() {
    let a = DiscreteProbabilityDistribution::new(vec![7, 8], fxs(&[0.25, 0.75])).unwrap();
    let joint = joint_distribution(&vec![a]).unwrap();
    assert_eq!(joint.outcomes(), vec![vec![7], vec![8]]);
    assert_eq!(joint.probabilities(), fxs(&[0.25, 0.75]));
}

#[test]
fn the_joint_distribution_of_no_variables_is_certain() {
    let none: Vec<DiscreteProbabilityDistribution<i32>> = Vec::new();
    let joint = joint_distribution(&none).unwrap();
    assert_eq!(joint.outcomes(), vec![Vec::<i32>::new()]);
    assert_eq!(joint.probabilities(), vec![ONE]);
}

#[test]
fn a_joint_distribution_whose_probabilities_drift_is_rejected() {
    let high = ONE + 90_000;
    let a = DiscreteProbabilityDistribution::new(vec![0], vec![high]).unwrap();
    let b = DiscreteProbabilityDistribution::new(vec![0], vec![high]).unwrap();
    assert_eq!(
        joint_distribution(&vec![a, b]).err(),
        Some(DistributionError::InvalidProbability)
    );
}

#[test]
fn product_multiplies_from_one() {
    assert_eq!(product(&Vec::new()), ONE);
    assert_eq!(product(&fxs(&[0.5, 0.5, 0.5])), fx(0.125));
    assert_eq!(product(&fxs(&[3.0, -2.0])), fx(-6.0));
}

#[test]
fn a_joint_distribution_too_large_to_count_is_rejected() {
    // seventy fair coins have 2^70 joint outcomes
    let coins: Vec<DiscreteProbabilityDistribution<i32>> = (0..70)
        .map(|_| DiscreteProbabilityDistribution::binomial(ONE / 2).unwrap())
        .collect();
    assert_eq!(joint_distribution(&coins).err(), Some(DistributionError::TooLarge));
}
