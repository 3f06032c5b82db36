use ko::decision_entropy::compute_decision_entropy;
use ko::discrete_distribution::DistributionError;
use ko::fixed::{FIXED_MAX, FIXED_MIN, ONE};
use ko::softmax::softmax;

fn fx(x: f64) -> i64 {
    // only the infinities saturate: the bounds of the range stand for them
    if x == f64::INFINITY {
        return FIXED_MAX;
    }
    if x == f64::NEG_INFINITY {
        return FIXED_MIN;
    }
    let scaled = x * ONE as f64;
    assert!((FIXED_MIN as f64) < scaled && scaled < FIXED_MAX as f64, "{} is out of range", x);
    scaled.round() as i64
}

fn fl(x: i64) -> f64 {
    x as f64 / ONE as f64
}

fn fxs(xs: &[f64]) -> Vec<i64> {
    xs.iter().map(|&x| fx(x)).collect()
}

#[test]
fn test_softmax() {
    let tolerance: f64 = 1e-10;
    let x: Vec<i64> = fxs(&[0., 0., 0.]);
    let y: Vec<i64> = softmax(&x);
    let z: Vec<f64> = vec![1. / 3., 1. / 3., 1. / 3.];
    for (a, b) in y.iter().zip(z.iter()) {
        assert!((fl(*a) - b).abs() < tolerance);
    }

    let x: Vec<i64> = fxs(&[1., -10f64.powi(1000), -10f64.powi(1000)]);
    let y: Vec<i64> = softmax(&x);
    let z: Vec<f64> = vec![1., 0., 0.];
    for (a, b) in y.iter().zip(z.iter()) {
        assert!((fl(*a) - b).abs() < tolerance);
    }
}

#[test]
fn softmax_agrees_with_the_reals() {
    let x = [0.5, -1.0, 2.0, 0.0];
    let y = softmax(&fxs(&x));
    let sum: f64 = x.iter().map(|v| v.exp()).sum();
    for (got, v) in y.iter().zip(x.iter()) {
        assert!((fl(*got) - v.exp() / sum).abs() < 1e-14);
    }
    assert!((y.iter().sum::<i64>() - ONE).abs() <= 2);
}

#[test]
fn softmax_is_stable_for_large_entries() {
    let y = softmax(&vec![FIXED_MAX, FIXED_MAX - ONE, FIXED_MIN]);
    let e = std::f64::consts::E;
    assert!((fl(y[0]) - e / (e + 1.0)).abs() < 1e-14);
    assert!((fl(y[1]) - 1.0 / (e + 1.0)).abs() < 1e-14);
    assert_eq!(y[2], 0);
}

#[test]
fn softmax_of_nothing_is_nothing() {
    assert!(softmax(&Vec::new()).is_empty());
    assert_eq!(softmax(&vec![-5 * ONE]), vec![ONE]);
}

#[test]
fn decision_entropy_of_equal_errors_is_one_bit_per_doubling() {
    let entropy = compute_decision_entropy(&fxs(&[0.1, 0.1])).unwrap();
    assert_eq!(entropy.to_float(), ONE);
    let entropy = compute_decision_entropy(&fxs(&[0.2, 0.2, 0.2, 0.2])).unwrap();
    assert_eq!(entropy.to_float(), 2 * ONE);
}

#[test]
fn decision_entropy_agrees_with_the_reals() {
    let errors = [0.5, 0.25];
    let likelihoods: Vec<f64> = errors.iter().map(|e| 1.0 / (e + 1e-10)).collect();
    let sum: f64 = likelihoods.iter().map(|l| l.exp()).sum();
    let want: f64 = -likelihoods
        .iter()
        .map(|l| l.exp() / sum)
        .map(|p| p * p.log2())
        .sum::<f64>();
    let got = fl(compute_decision_entropy(&fxs(&errors)).unwrap().to_float());
    assert!((got - want).abs() < 1e-8, "{} vs {}", got, want);
}

#[test]
fn decision_entropy_of_a_clear_winner_is_zero() {
    let entropy = compute_decision_entropy(&fxs(&[0.01, 0.5])).unwrap();
    assert_eq!(entropy.to_float(), 0);
}

#[test]
fn small_errors_are_told_apart() {
    // the pseudo-likelihoods 99999 and 19999.96 lie far beyond the number range
    let entropy = compute_decision_entropy(&fxs(&[1e-5, 5e-5])).unwrap();
    assert_eq!(entropy.to_float(), 0);
    let entropy = compute_decision_entropy(&fxs(&[0.0, 0.0])).unwrap();
    assert_eq!(entropy.to_float(), ONE);
    // 1 / 1.0000000001 and 1 / 1.0000000002 differ by 1e-10
    let close = compute_decision_entropy(&fxs(&[1.0, 1.0000000001])).unwrap();
    assert!((fl(close.to_float()) - 1.0).abs() < 1e-12);
    assert_eq!(ko::decision_entropy::likelihood(fx(1e-5)), 99_999_000_009_999_900_001);
    assert_eq!(ko::decision_entropy::likelihood(-100_000), 2_000_000_000_000_000_000_000_000_000_000);
    assert_eq!(ko::decision_entropy::likelihood(-100_001), -1_000_000_000_000_000_000_000_000_000_000);
}

#[test]
fn the_wide_softmax_takes_differences_exactly() {
    let far: i128 = 1_000_000_000_000_000_000_000_000;
    let y = ko::softmax::softmax_wide(&vec![far, far - ONE as i128, -far]);
    let e = std::f64::consts::E;
    assert!((fl(y[0]) - e / (e + 1.0)).abs() < 1e-14);
    assert!((fl(y[1]) - 1.0 / (e + 1.0)).abs() < 1e-14);
    assert_eq!(y[2], 0);
}

#[test]
fn decision_entropy_without_models_fails() {
    assert_eq!(
        compute_decision_entropy(&Vec::new()).err(),
        Some(DistributionError::InvalidProbability)
    );
}
