use ko::binomial_testing::{
    estimate_binomial, sample_proportion, validate_binomial, wilson_interval,
};
use ko::continuous_distribution::{
    ContinuousProbabilityDistribution, NormalDistribution, PowerLawDistribution, Variates,
};
use ko::continuous_testing::{
    count_at_most, empirical_cdf, ks_distance, ks_estimate_continuous_cdf,
    ks_evaluate_estimated_cdf, ks_validate_continuous_cdf, least_above, KS_EPSILON,
};
use ko::discrete_distribution::{DiscreteProbabilityDistribution, DistributionError};
use ko::fixed::{FIXED_MAX, FIXED_MIN, ONE};
use ko::sample::{continuous_sample, discrete_sample, uniform_variate};
use rand::distributions::Distribution;
use rand::rngs::StdRng;
use rand::SeedableRng;
use statrs::distribution::Normal;

fn fx(x: f64) -> i64 {
    // only the infinities saturate: the bounds of the range stand for them
    if x == f64::INFINITY {
        return FIXED_MAX;
    }
    if x == f64::NEG_INFINITY {
        return FIXED_MIN;
    }
    let scaled = x * ONE as f64;
    assert!((FIXED_MIN as f64) < scaled && scaled < FIXED_MAX as f64, "{} is out of range", x);
    scaled.round() as i64
}

fn fl(x: i64) -> f64 {
    x as f64 / ONE as f64
}

fn fxs(xs: &[f64]) -> Vec<i64> {
    xs.iter().map(|&x| fx(x)).collect()
}

fn standard_normal_samples(n: usize, seed: u64) -> Vec<i64> {
    let mut rng = StdRng::seed_from_u64(seed);
    let normal = Normal::new(0.0, 1.0).unwrap();
    (0..n).map(|_| fx(normal.sample(&mut rng))).collect()
}

#[test]
fn binomial_distinction_rejects_a_wrong_probability() {
    let mut rng = StdRng::seed_from_u64(1);
    let sample_dist = DiscreteProbabilityDistribution::binomial(fx(0.75)).unwrap();
    let samples: Vec<i32> = discrete_sample(1000, &sample_dist, &mut rng);
    let test_dist = DiscreteProbabilityDistribution::binomial(fx(0.5)).unwrap();
    assert!(!validate_binomial(&test_dist, &samples));
}

#[test]
fn binomial_distinction_accepts_the_right_probability() {
    let mut rng = StdRng::seed_from_u64(1);
    let sample_dist = DiscreteProbabilityDistribution::binomial(fx(0.75)).unwrap();
    let samples: Vec<i32> = discrete_sample(1000, &sample_dist, &mut rng);
    assert!(validate_binomial(&sample_dist, &samples));
}

#[test]
fn ks_validation_accepts_the_distribution_that_was_sampled() {
    let samples = standard_normal_samples(100_000, 7);
    let normal = NormalDistribution::new(0, ONE).unwrap();
    let distance = ks_distance(&normal, &samples);
    assert!(fl(distance) < 0.05, "distance {}", fl(distance));
    assert!(ks_validate_continuous_cdf(&normal, &samples));
}

#[test]
fn ks_validation_rejects_a_shifted_distribution() {
    let samples = standard_normal_samples(100_000, 7);
    let shifted = NormalDistribution::new(5 * ONE, ONE).unwrap();
    let distance = ks_distance(&shifted, &samples);
    assert!(fl(distance) > 0.05, "distance {}", fl(distance));
    assert!(!ks_validate_continuous_cdf(&shifted, &samples));
}

#[test]
fn the_empirical_distribution_function_steps_at_the_samples() {
    let samples = fxs(&[3.0, 1.0, 2.0, 2.0]);
    let cdf = ks_estimate_continuous_cdf(&samples);
    assert_eq!(
        cdf,
        vec![
            (fx(1.0), fx(0.25)),
            (fx(2.0), fx(0.75)),
            (fx(3.0), fx(1.0)),
        ]
    );
    assert_eq!(ks_evaluate_estimated_cdf(&cdf, &fx(0.5)), 0);
    assert_eq!(ks_evaluate_estimated_cdf(&cdf, &fx(1.0)), fx(0.25));
    assert_eq!(ks_evaluate_estimated_cdf(&cdf, &fx(2.5)), fx(0.75));
    assert_eq!(ks_evaluate_estimated_cdf(&cdf, &fx(9.0)), fx(1.0));
    for &x in &[0.5, 1.0, 1.5, 2.0, 2.5, 3.0, 3.5] {
        assert_eq!(
            ks_evaluate_estimated_cdf(&cdf, &fx(x)),
            empirical_cdf(&samples, fx(x))
        );
    }
    assert!(ks_estimate_continuous_cdf(&Vec::new()).is_empty());
}

#[test]
fn counting_and_searching_samples() {
    let samples = fxs(&[3.0, 1.0, 2.0, 2.0]);
    assert_eq!(count_at_most(&samples, fx(2.0)), 3);
    assert_eq!(count_at_most(&samples, fx(0.0)), 0);
    assert_eq!(least_above(&samples, fx(1.0)), Some(fx(2.0)));
    assert_eq!(least_above(&samples, fx(3.0)), None);
    assert_eq!(least_above(&samples, FIXED_MIN), Some(fx(1.0)));
    assert_eq!(empirical_cdf(&Vec::new(), 0), 0);
}

#[test]
fn ks_distance_takes_the_greatest_gap_on_the_grid() {
    // one sample at 0 and one at 1: the empirical function is 1/2 on [0, 1)
    let samples = fxs(&[0.0, 1.0]);
    let power_law = PowerLawDistribution::new(fx(-1.0), fx(2.0), fx(0.0)).unwrap();
    // cdf(x) = 1 * (1 - 1 / (x + 1)); grid points i / 1000 for i in 1..1000
    let mut want: f64 = 0.0;
    for i in 1..1000 {
        let x = i as f64 / 1000.0;
        let gap = ((1.0 - 1.0 / (x + 1.0)) - 0.5f64).abs();
        if gap > want {
            want = gap;
        }
    }
    let got = fl(ks_distance(&power_law, &samples));
    assert!((got - want).abs() < 1e-12, "{} vs {}", got, want);
    assert!(got > fl(KS_EPSILON));
}

#[test]
fn the_wilson_interval_has_its_textbook_values() {
    // h = 0.75, n = 1000, z = 1.96
    let (low, high) = wilson_interval(fx(0.75), 1000);
    let z2: f64 = 1.96 * 1.96;
    let n: f64 = 1000.0;
    let h: f64 = 0.75;
    let root = (z2 * z2 + 4.0 * h * n * z2 - 4.0 * h * h * n * z2).sqrt();
    let want_low = (2.0 * h * n + z2 - root) / (2.0 * (n + z2));
    let want_high = (2.0 * h * n + z2 + root) / (2.0 * (n + z2));
    assert!((fl(low) - want_low).abs() < 1e-12, "{} vs {}", fl(low), want_low);
    assert!((fl(high) - want_high).abs() < 1e-12);
    assert!(fl(low) > 0.72 && fl(high) < 0.78);
}

#[test]
fn the_binomial_test_decides_by_the_interval() {
    let samples: Vec<i32> = (0..100).map(|i| if i < 30 { 1 } else { 0 }).collect();
    assert_eq!(sample_proportion(&samples), fx(0.3));
    let (low, high) = wilson_interval(fx(0.3), 100);
    let inside = DiscreteProbabilityDistribution::binomial(low).unwrap();
    assert!(validate_binomial(&inside, &samples));
    let below = DiscreteProbabilityDistribution::binomial(low - 1).unwrap();
    assert!(!validate_binomial(&below, &samples));
    let top = DiscreteProbabilityDistribution::binomial(high).unwrap();
    assert!(validate_binomial(&top, &samples));
    let above = DiscreteProbabilityDistribution::binomial(high + 1).unwrap();
    assert!(!validate_binomial(&above, &samples));
    assert!(!validate_binomial(&inside, &Vec::new()));
}

#[test]
fn estimating_a_binomial_distribution() {
    let dist = estimate_binomial(&vec![1, 0, 1, 1]).unwrap();
    assert_eq!(dist.probabilities(), fxs(&[0.25, 0.75]));
    assert_eq!(
        estimate_binomial(&Vec::new()).err(),
        Some(DistributionError::DegenerateParameter)
    );
    assert_eq!(
        estimate_binomial(&vec![2, 3]).err(),
        Some(DistributionError::InvalidProbability)
    );
    assert_eq!(sample_proportion(&vec![i32::MAX; 10]), FIXED_MAX);
    assert_eq!(sample_proportion(&vec![-7, -8]), fx(-7.5));
}

#[test]
fn uniform_variates_lie_in_the_unit_interval() {
    let mut rng = StdRng::seed_from_u64(3);
    let mut distinct = std::collections::HashSet::new();
    for _ in 0..1000 {
        let u = uniform_variate(&mut rng);
        assert!(0 <= u && u < ONE);
        distinct.insert(u);
    }
    assert!(distinct.len() > 990);
}

#[test]
fn discrete_samples_follow_the_distribution() {
    let mut rng = StdRng::seed_from_u64(11);
    let dist =
        DiscreteProbabilityDistribution::new(vec![5, 6, 7], fxs(&[0.2, 0.0, 0.8])).unwrap();
    let samples = discrete_sample(10_000, &dist, &mut rng);
    assert_eq!(samples.len(), 10_000);
    assert!(samples.iter().all(|&x| x == 5 || x == 7));
    let fives = samples.iter().filter(|&&x| x == 5).count();
    assert!(1800 < fives && fives < 2200, "{}", fives);
    let one = dist.sample(&mut rng);
    assert!(one == 5 || one == 7);
}

#[test]
fn continuous_samples_map_the_variates() {
    let normal = NormalDistribution::new(ONE, 4 * ONE).unwrap();
    let draws = vec![
        Variates { uniform: 0, standard_normal: ONE },
        Variates { uniform: 0, standard_normal: -ONE },
    ];
    assert_eq!(continuous_sample(&normal, &draws), vec![3 * ONE, -ONE]);
    assert_eq!(normal.sample(draws[0]), 3 * ONE);
}

#[test]
fn power_law_samples_fit_their_own_distribution() {
    let mut rng = StdRng::seed_from_u64(5);
    let power_law = PowerLawDistribution::new(0, 2 * ONE, ONE).unwrap();
    let draws: Vec<Variates> = (0..5000)
        .map(|_| Variates { uniform: uniform_variate(&mut rng), standard_normal: 0 })
        .collect();
    let samples = continuous_sample(&power_law, &draws);
    assert!(samples.iter().all(|&x| x >= ONE));
    let below_two = samples.iter().filter(|&&x| x <= 2 * ONE).count();
    assert!(2350 < below_two && below_two < 2650, "{}", below_two);
}

#[test]
fn the_formulas_have_their_exact_values() {
    let normal = NormalDistribution::new(0, ONE).unwrap();
    assert_eq!(normal.pdf(0), 398_942_280_401_433);
    assert_eq!(normal.pdf(ONE), 241_970_724_519_143);
    assert_eq!(normal.cdf(0), 499_899_978_149_853);
    assert_eq!(normal.cdf(ONE), 841_271_861_386_288);
    assert_eq!(normal.measure(&(-ONE, ONE)), 682_689_490_523_948);
    let hill = PowerLawDistribution::estimate(&vec![2 * ONE, 4 * ONE, 8 * ONE]).unwrap();
    assert_eq!(hill.exponent(), 2_442_695_040_888_964);
    assert_eq!(
        wilson_interval(3 * ONE / 4, 1000),
        (722_239_193_444_155, 775_847_357_262_649)
    );
    let x = DiscreteProbabilityDistribution::multinomial(vec![ONE / 2, ONE / 2]).unwrap();
    let y = DiscreteProbabilityDistribution::multinomial(vec![3 * ONE / 4, ONE / 4]).unwrap();
    assert_eq!(
        ko::discrete_information::discrete_kullback_leibler_divergence(&x, &y)
            .unwrap()
            .to_float(),
        207_518_749_639_422
    );
    assert_eq!(
        ko::discrete_information::discrete_jensen_shannon_divergence(&x, &y)
            .unwrap()
            .to_float(),
        48_794_940_695_399
    );
    let d = DiscreteProbabilityDistribution::multinomial(vec![
        ONE / 10,
        ONE / 5,
        3 * ONE / 10,
        2 * ONE / 5,
    ])
    .unwrap();
    assert_eq!(
        ko::discrete_information::discrete_entropy(&d).to_float(),
        1_846_439_344_671_015
    );
    assert_eq!(ko::fixed_exp::fx_exp(ONE), 2_718_281_828_459_045);
    assert_eq!(ko::fixed_log::fx_ln(10 * ONE), 2_302_585_092_994_044);
    assert_eq!(ko::fixed_log::fx_log2(3 * ONE), 1_584_962_500_721_156);
    assert_eq!(ko::fixed_exp::fx_pow(2 * ONE, ONE / 2), 1_414_213_562_373_096);
}

#[test]
fn a_fidelity_trial_records_every_sample_size() {
    let mut rng = StdRng::seed_from_u64(9);
    let trial = ko::binomial_testing::binomial_fidelity_trial(fx(0.3), &mut rng).unwrap();
    assert_eq!(trial.len(), 98);
    assert_eq!(trial[0].0, 2 * ONE);
    assert_eq!(trial[97].0, 99 * ONE);
    // with two samples the estimate is 0, 1/2 or 1
    let two = fl(trial[0].1);
    let candidates = [0.3f64, 0.2, 0.7].map(|d| (2.0 * d * d).sqrt());
    assert!(candidates.iter().any(|c| (two - c).abs() < 1e-14), "{}", two);
    assert!(trial.iter().all(|&(_, d)| 0 <= d && d <= fx(1.0)));
    assert_eq!(
        ko::binomial_testing::binomial_fidelity_trial(fx(1.5), &mut rng).err(),
        Some(DistributionError::InvalidProbability)
    );
}

#[test]
fn ks_validation_withstands_a_distant_sample() {
    // one sample at 100 stretches the grid to twenty times its width
    let mut samples = standard_normal_samples(100_000, 7);
    samples.push(100 * ONE);
    let normal = NormalDistribution::new(0, ONE).unwrap();
    let distance = ks_distance(&normal, &samples);
    assert!(fl(distance) < 0.05, "distance {}", fl(distance));
    assert!(ks_validate_continuous_cdf(&normal, &samples));
}

#[test]
fn the_ks_grid_spans_samples_farther_apart_than_the_number_range() {
    // half of the samples at -5000, half at 5000: the empirical
    // distribution function is one half in between, where the model is one
    let samples: Vec<i64> = vec![-5000 * ONE, -5000 * ONE, 5000 * ONE, 5000 * ONE];
    let normal = NormalDistribution::new(-5000 * ONE, ONE).unwrap();
    let distance = ks_distance(&normal, &samples);
    assert!((fl(distance) - 0.5).abs() < 1e-3, "distance {}", fl(distance));
    assert_eq!(ko::continuous_testing::ks_grid(-5000 * ONE, 5000 * ONE, 999), 4990 * ONE);
    assert_eq!(ko::continuous_testing::ks_grid(-5000 * ONE, 5000 * ONE, 0), -5000 * ONE);
}
