use ko::continuous_distribution::{
    ContinuousProbabilityDistribution, NormalDistribution, PowerLawDistribution, Variates,
};
use ko::discrete_distribution::DistributionError;
use ko::fixed::{FIXED_MAX, FIXED_MIN, ONE};

fn fx(x: f64) -> i64 {
    let scaled = x * ONE as f64;
    assert!((FIXED_MIN as f64) < scaled && scaled < FIXED_MAX as f64, "{} is out of range", x);
    scaled.round() as i64
}

fn wide(x: f64) -> i128 {
    (x * ONE as f64).round() as i128
}

fn fl(x: i64) -> f64 {
    x as f64 / ONE as f64
}

#[test]
fn test_normal_cdf() {
    let tolerance: f64 = 1e-2;

    let normal_distribution: NormalDistribution = NormalDistribution::new(fx(0.), fx(1.)).unwrap();
    assert!((fl(normal_distribution.cdf(fx(0.))) - 0.5).abs() < tolerance);
    assert!((fl(normal_distribution.cdf(fx(1.))) - 0.8413447460685429).abs() < tolerance);
    assert!((fl(normal_distribution.cdf(fx(-1.))) - 0.15865525393145707).abs() < tolerance);
    assert!((fl(normal_distribution.cdf(fx(2.))) - 0.9772498680518208).abs() < tolerance);
    assert!((fl(normal_distribution.cdf(fx(-2.))) - 0.022750131948179195).abs() < tolerance);

    let normal_distribution: NormalDistribution =
        NormalDistribution::new(fx(10.), fx(23.)).unwrap();
    assert!((fl(normal_distribution.cdf(fx(10.))) - 0.5).abs() < tolerance);
    assert!(
        (fl(normal_distribution.measure(&(fx(9.), fx(15.)))) - 0.434029613381541).abs()
            < tolerance
    );

    let normal_distribution: NormalDistribution =
        NormalDistribution::new(fx(100.), fx(100.)).unwrap();
    assert!((fl(normal_distribution.cdf(fx(100.))) - 0.5).abs() < tolerance);
    assert!((fl(normal_distribution.measure(&(fx(90.), fx(110.)))) - 0.68).abs() < tolerance);
    assert!((fl(normal_distribution.measure(&(fx(80.), fx(120.)))) - 0.954).abs() < tolerance);
    assert!((fl(normal_distribution.measure(&(fx(70.), fx(130.)))) - 0.997).abs() < tolerance);
}

#[test]
fn test_normal_pdf() {
    let tolerance: f64 = 1e-6;
    let normal_distribution: NormalDistribution = NormalDistribution::new(fx(0.), fx(1.)).unwrap();
    assert!((fl(normal_distribution.pdf(fx(0.))) - 0.3989422804014327).abs() < tolerance);
    assert!((fl(normal_distribution.pdf(fx(1.))) - 0.24197072451914337).abs() < tolerance);
    assert!((fl(normal_distribution.pdf(fx(-1.))) - 0.24197072451914337).abs() < tolerance);
    assert!((fl(normal_distribution.pdf(fx(2.))) - 0.05399096651318806).abs() < tolerance);
    assert!((fl(normal_distribution.pdf(fx(-2.))) - 0.05399096651318806).abs() < tolerance);
}

#[test]
fn test_power_law_cdf() {
    let tolerance: f64 = 1e-2;

    let power_law: PowerLawDistribution =
        PowerLawDistribution::new(fx(0.), fx(2.), fx(1.)).unwrap();
    assert!((fl(power_law.cdf_wide(wide(10f64.powi(10)))) - 1.).abs() < tolerance);
    assert!((fl(power_law.measure(&(fx(10.), fx(100.)))) - 0.09).abs() < tolerance);
}

#[test]
fn degenerate_parameters_are_rejected() {
    assert_eq!(
        NormalDistribution::new(0, 0).err(),
        Some(DistributionError::DegenerateParameter)
    );
    assert_eq!(
        NormalDistribution::new(0, -ONE).err(),
        Some(DistributionError::DegenerateParameter)
    );
    assert_eq!(
        PowerLawDistribution::new(0, ONE, ONE).err(),
        Some(DistributionError::DegenerateParameter)
    );
    assert_eq!(
        PowerLawDistribution::new(ONE, 2 * ONE, ONE).err(),
        Some(DistributionError::DegenerateParameter)
    );
    assert!(PowerLawDistribution::new(0, ONE + 1, 1).is_ok());
}

#[test]
fn the_cumulative_distribution_is_zero_below_its_start() {
    let normal = NormalDistribution::new(0, ONE).unwrap();
    assert_eq!(normal.cdf(-5 * ONE), 0);
    assert_eq!(normal.cdf(-6 * ONE), 0);
    let power_law = PowerLawDistribution::new(0, 2 * ONE, ONE).unwrap();
    assert_eq!(power_law.cdf(ONE), 0);
    assert_eq!(power_law.cdf(ONE / 2), 0);
    assert_eq!(power_law.cdf_wide(-wide(1e12)), 0);
}

#[test]
fn power_law_density_and_distribution_follow_their_formulas() {
    let power_law = PowerLawDistribution::new(0, 2 * ONE, ONE).unwrap();
    assert!((fl(power_law.pdf(2 * ONE)) - 0.25).abs() < 1e-12);
    assert!((fl(power_law.cdf(4 * ONE)) - 0.75).abs() < 1e-12);
    let shifted = PowerLawDistribution::new(ONE, 3 * ONE, 3 * ONE).unwrap();
    // factor = (3 - 1) * (3 - 1)^(3 - 1) = 8; density 8 * x^-3
    assert!((fl(shifted.pdf(2 * ONE)) - 1.0).abs() < 1e-11);
    assert!((fl(shifted.pdf(4 * ONE)) - 0.125).abs() < 1e-11);
    let left = PowerLawDistribution::new(-ONE, 2 * ONE, ONE).unwrap();
    // factor = (2 - 1) * (1 + 1)^(2 - 1) = 2; the density at 1 is the factor
    assert!((fl(left.pdf(ONE)) - 2.0).abs() < 1e-11);
    // 8 / (3 - 1) * ((3 - 1)^-2 - (5 - 1)^-2) = 0.75
    assert!((fl(shifted.measure(&(3 * ONE, 5 * ONE))) - 0.75).abs() < 1e-11);
    assert!((fl(shifted.cdf(5 * ONE)) - 0.75).abs() < 1e-11);
    assert_eq!(shifted.domain(), (3 * ONE, FIXED_MAX));
    assert_eq!(shifted.range(), (0, FIXED_MAX));
}

#[test]
fn the_power_law_measure_is_the_integral_of_the_density() {
    let power_law = PowerLawDistribution::new(0, 3 * ONE, ONE).unwrap();
    assert!((fl(power_law.pdf(2 * ONE)) - 2.0 / 8.0).abs() < 1e-12);
    assert!((fl(power_law.measure(&(ONE, 2 * ONE))) - 0.75).abs() < 1e-9);
    assert!((fl(power_law.cdf_wide(wide(1e6))) - 1.0).abs() < 1e-9);
    assert!((fl(power_law.measure_wide(wide(1e3), wide(1e15))) - 1e-6).abs() < 1e-12);
    assert!(fl(power_law.cdf_wide(wide(1e17))) <= 1.0);
    assert_eq!(power_law.pdf_wide(wide(1e4)), 2_000);
}

#[test]
fn sampling_inverts_the_cumulative_distribution() {
    let laws = [
        PowerLawDistribution::new(0, 2 * ONE, ONE).unwrap(),
        PowerLawDistribution::new(0, 3 * ONE, ONE).unwrap(),
        PowerLawDistribution::new(fx(-2.0), fx(1.5), fx(0.5)).unwrap(),
        PowerLawDistribution::new(fx(1.0), fx(4.0), fx(2.0)).unwrap(),
    ];
    for law in laws.iter() {
        let mut last = law.min_x();
        for i in 0..100 {
            let u = i * (ONE / 100);
            let x = law.sample(Variates { uniform: u, standard_normal: 0 });
            assert!(x >= last);
            last = x;
            let exact = fl(law.min_x() - law.shift())
                * (1.0 - fl(u)).powf(1.0 / (1.0 - fl(law.exponent())))
                + fl(law.shift());
            if exact > 9000.0 {
                // the sample lies beyond the number range and saturates
                continue;
            }
            assert!((fl(x) - exact).abs() < 1e-9 * exact.abs().max(1.0));
            assert!((fl(law.cdf(x)) - fl(u)).abs() < 1e-11, "{} at {}", fl(law.cdf(x)), fl(u));
        }
        assert_eq!(law.sample(Variates { uniform: 0, standard_normal: 0 }), law.min_x());
    }
}

#[test]
fn samples_follow_from_the_variates() {
    let normal = NormalDistribution::new(3 * ONE, 4 * ONE).unwrap();
    let draw = Variates { uniform: ONE / 2, standard_normal: -ONE / 2 };
    assert_eq!(normal.sample(draw), 2 * ONE);
    assert_eq!(normal.domain(), (FIXED_MIN, FIXED_MAX));
    let power_law = PowerLawDistribution::new(0, 2 * ONE, ONE).unwrap();
    // (1 - 0) * (1 - 1/2)^(1 / (1 - 2)) + 0 = 2
    assert!((fl(power_law.sample(draw)) - 2.0).abs() < 1e-12);
    let zero = Variates { uniform: 0, standard_normal: 0 };
    assert_eq!(power_law.sample(zero), ONE);
}

#[test]
fn normal_estimate_is_the_method_of_moments() {
    let samples: Vec<i64> = vec![ONE, 2 * ONE, 3 * ONE, 4 * ONE, 5 * ONE];
    let normal = NormalDistribution::estimate(&samples).unwrap();
    assert_eq!(normal.mean(), 3 * ONE);
    assert_eq!(normal.variance(), 2 * ONE);
    assert_eq!(
        NormalDistribution::estimate(&vec![ONE, ONE]).err(),
        Some(DistributionError::DegenerateParameter)
    );
    assert_eq!(
        NormalDistribution::estimate(&Vec::new()).err(),
        Some(DistributionError::DegenerateParameter)
    );
}

#[test]
fn power_law_estimate_is_the_hill_estimator() {
    let samples: Vec<i64> = vec![fx(2.0), fx(4.0), fx(8.0)];
    let power_law = PowerLawDistribution::estimate(&samples).unwrap();
    assert_eq!(power_law.min_x(), fx(2.0));
    assert_eq!(power_law.shift(), fx(1.0));
    // 1 + 3 / (ln 1 + ln 2 + ln 4) = 1 + 1 / ln 2
    let want = 1.0 + 1.0 / std::f64::consts::LN_2;
    assert!((fl(power_law.exponent()) - want).abs() < 1e-12);
    assert_eq!(
        PowerLawDistribution::estimate(&Vec::new()).err(),
        Some(DistributionError::DegenerateParameter)
    );
}

#[test]
fn the_numeric_normal_distribution_stays_within_its_documented_error() {
    let normal = NormalDistribution::new(0, ONE).unwrap();
    // at the mean: five standard deviations of a rising density
    assert!((fl(normal.cdf(0)) - 0.5).abs() < 2e-4);
    // ten standard deviations
    assert!((fl(normal.measure(&(-5 * ONE, 5 * ONE))) - 0.9999994266968562).abs() < 8e-4);
    let wide_normal = NormalDistribution::new(fx(100.), fx(100.)).unwrap();
    assert!((fl(wide_normal.measure(&(fx(70.), fx(130.)))) - 0.9973002039367398).abs() < 4.8e-4);
}

#[test]
fn a_thousand_normal_cdfs_are_affordable() {
    let normal = NormalDistribution::new(0, ONE).unwrap();
    let mut last = 0;
    for i in 0..1000 {
        let x = -4 * ONE + i * (8 * ONE / 1000);
        let c = normal.cdf(x);
        assert!(c >= last - 1_000_000);
        last = c;
    }
    assert!((fl(last) - 1.0).abs() < 1e-2);
}

#[test]
fn the_rectangle_rule_serves_any_distribution() {
    let normal = NormalDistribution::new(0, ONE).unwrap();
    let by_rectangles = ko::continuous_distribution::measure_by_rectangles(&normal, &(-ONE, ONE));
    assert!((fl(by_rectangles) - 0.6826894921370859).abs() < 1e-6);
    assert!((fl(by_rectangles) - fl(normal.measure(&(-ONE, ONE)))).abs() < 1e-3);
    let power_law = PowerLawDistribution::new(0, 2 * ONE, ONE).unwrap();
    // one narrow rectangle: (4.0005 - 4) * pdf(4)
    let narrow = ko::continuous_distribution::measure_by_rectangles(
        &power_law,
        &(4 * ONE, 4 * ONE + 500_000_000_000),
    );
    assert_eq!(narrow, 31_250_000_000);
}

#[test]
fn a_normal_distribution_of_large_variance() {
    let normal = NormalDistribution::new(0, 2500 * ONE).unwrap();
    assert!((fl(normal.pdf(0)) - 0.007978845608028654).abs() < 1e-14);
    assert!((fl(normal.pdf(50 * ONE)) - 0.004839414490382867).abs() < 1e-14);
    assert!((fl(normal.cdf(0)) - 0.5).abs() < 2e-4);
    assert!((fl(normal.measure(&(-50 * ONE, 50 * ONE))) - 0.6826894921370859).abs() < 2e-4);
    assert!((fl(normal.measure(&(-250 * ONE, 250 * ONE))) - 0.9999994266968562).abs() < 8e-4);
    let widest = NormalDistribution::new(0, FIXED_MAX).unwrap();
    assert!((fl(widest.pdf(0)) - 1.0 / (2.0 * std::f64::consts::PI * 9223.372036854775807f64).sqrt()).abs() < 1e-14);
    assert!((fl(widest.cdf(0)) - 0.5).abs() < 2e-4);
}

#[test]
fn the_normal_distribution_far_from_its_mean() {
    let normal = NormalDistribution::new(0, ONE).unwrap();
    assert!((fl(normal.cdf(95 * ONE)) - 1.0).abs() < 1e-2);
    assert!((fl(normal.cdf(200 * ONE)) - 1.0).abs() < 2e-2);
    assert!((fl(normal.cdf(fx(99.895))) - 1.0).abs() < 1.1e-2);
    assert!(fl(normal.measure(&(90 * ONE, 9000 * ONE))) == 0.0);
    assert_eq!(normal.pdf(FIXED_MAX), 0);
    assert_eq!(normal.pdf(FIXED_MIN), 0);
    let far = NormalDistribution::new(FIXED_MAX, ONE).unwrap();
    assert_eq!(far.cdf(FIXED_MIN), 0);
    assert!((fl(far.measure(&(FIXED_MAX - 3 * ONE, FIXED_MAX))) - 0.4986501019683699).abs() < 3e-4);
    // a sample beyond the range saturates only in the result
    let wide_spread = NormalDistribution::new(-9000 * ONE, 9000 * ONE).unwrap();
    let draw = Variates { uniform: 0, standard_normal: 100 * ONE };
    assert!((fl(wide_spread.sample(draw)) - (-9000.0 + 100.0 * 9000f64.sqrt())).abs() < 1e-10);
}

#[test]
fn a_power_law_whose_factor_lies_beyond_the_number_range() {
    // the factor is 2 * 100^2 = 20000
    let power_law = PowerLawDistribution::new(0, 3 * ONE, 100 * ONE).unwrap();
    assert!((fl(power_law.pdf(100 * ONE)) - 0.02).abs() < 1e-10);
    assert!((fl(power_law.pdf(200 * ONE)) - 0.0025).abs() < 1e-10);
    assert!((fl(power_law.measure(&(100 * ONE, 200 * ONE))) - 0.75).abs() < 1e-9);
    assert!((fl(power_law.cdf(200 * ONE)) - 0.75).abs() < 1e-9);
    assert!((fl(power_law.cdf_wide(wide(1e9))) - 1.0).abs() < 1e-9);
    let draw = Variates { uniform: fx(0.75), standard_normal: 0 };
    assert!((fl(power_law.sample(draw)) - 200.0).abs() < 1e-9);
}

#[test]
fn a_power_law_whose_power_lies_beyond_the_number_range() {
    // (1 - u)^(1 / (1 - exponent)) is 10^6, the sample 1000
    let narrow = PowerLawDistribution::new(0, fx(1.5), fx(0.001)).unwrap();
    let draw = Variates { uniform: fx(0.999), standard_normal: 0 };
    assert!((fl(narrow.sample(draw)) / 1000.0 - 1.0).abs() < 1e-9);
    // the density at the least value is 0.5 * 0.001^0.5 * 0.001^-1.5 = 500
    assert!((fl(narrow.pdf(fx(0.001))) / 500.0 - 1.0).abs() < 1e-9);
    assert!((fl(narrow.cdf(fx(0.004))) - 0.5).abs() < 1e-9);
    // a sample beyond the number range is its bound
    let far = Variates { uniform: ONE - 1, standard_normal: 0 };
    assert_eq!(narrow.sample(far), FIXED_MAX);
}
