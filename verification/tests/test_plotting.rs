use ko::continuous_distribution::{NormalDistribution, Variates};
use ko::fixed::ONE;
use ko::induction::{average_data_collection, distinction_point};
use ko::plotting::{
    cdf_series, grid_point_at, ks_fidelity_series, pdf_series, plot_binomial_entropy,
    plot_ks_false_power_law_estimation_fidelity, plot_ks_normal_estimation_fidelity,
    plot_ks_true_power_law_estimation_fidelity, plot_normal_pdf, plot_power_law_cdf,
    plot_power_law_pdf, reference_power_law, standard_normal,
};

fn fx(x: f64) -> i64 {
    (x * ONE as f64).round() as i64
}

fn fl(x: i64) -> f64 {
    x as f64 / ONE as f64
}

fn draws(n: usize) -> Vec<Variates> {
    // a fixed, well spread sequence in place of a generator
    (0..n)
        .map(|i| {
            let u = ((i as i64 * 618_033_988_749_895) % ONE + ONE) % ONE;
            let z = (u - ONE / 2) * 4;
            Variates { uniform: u, standard_normal: z }
        })
        .collect()
}

#[test]
fn the_grid_starts_at_the_lower_end_and_stops_short_of_the_upper() {
    assert_eq!(grid_point_at(-4 * ONE, 4 * ONE, 0, 100_000), -4 * ONE);
    assert_eq!(grid_point_at(-4 * ONE, 4 * ONE, 50_000, 100_000), 0);
    assert_eq!(grid_point_at(-4 * ONE, 4 * ONE, 99_999, 100_000), 4 * ONE - fx(0.00008));
}

#[test]
fn the_figure_of_the_normal_density() {
    let figure = plot_normal_pdf();
    assert_eq!(figure.data.len(), 100_000);
    assert_eq!(figure.data[0].0, -4 * ONE);
    assert_eq!(figure.data[50_000].0, 0);
    assert!((fl(figure.data[50_000].1) - 0.3989422804014327).abs() < 1e-13);
    assert!((fl(figure.data[62_500].1) - 0.24197072451914337).abs() < 1e-13);
    assert_eq!(figure.caption, "Normal Distribution PDF");
    assert_eq!(figure.x_desc, "x");
    assert_eq!(figure.y_desc, "pdf(x)");
    assert_eq!(figure.save_file, "plots/distributions/normal/normal_pdf.png");
}

#[test]
fn the_figures_of_the_power_law() {
    let figure = plot_power_law_pdf();
    assert_eq!(figure.data.len(), 100_000);
    assert_eq!(figure.data[0], (ONE, ONE));
    let (x, y) = figure.data[33_333];
    assert!((fl(y) - 1.0 / (fl(x) * fl(x))).abs() < 1e-13);
    assert_eq!(figure.caption, "Power Law PDF");
    assert_eq!(figure.save_file, "plots/distributions/power_law/power_law_pdf.png");
    let figure = plot_power_law_cdf();
    assert_eq!(figure.data.len(), 100_000);
    assert_eq!(figure.data[0].0, ONE + fx(1e-6));
    let (x, y) = figure.data[77_777];
    assert!((fl(y) - (1.0 - 1.0 / fl(x))).abs() < 1e-13);
    assert_eq!(figure.caption, "Power Law CDF");
    assert_eq!(figure.y_desc, "cdf(x)");
}

#[test]
fn the_figure_of_the_binomial_entropy() {
    let figure = plot_binomial_entropy();
    assert_eq!(figure.data.len(), 100_000);
    assert_eq!(figure.data[0], (0, 0));
    assert_eq!(figure.data[50_000], (ONE / 2, ONE));
    let (p, h) = figure.data[25_000];
    assert_eq!(p, ONE / 4);
    let want = -(0.25 * 0.25f64.log2() + 0.75 * 0.75f64.log2());
    assert!((fl(h) - want).abs() < 1e-13);
    assert_eq!(figure.data[25_000].1, figure.data[75_000].1);
    assert_eq!(figure.caption, "Entropy of Binomial Distribution");
    assert_eq!(figure.x_desc, "Probability of Success");
    assert_eq!(figure.y_desc, "Entropy");
    assert_eq!(figure.save_file, "plots/distributions/binomial/binomial_entropy.png");
}

#[test]
fn series_of_densities_and_distributions() {
    let normal = standard_normal();
    let density = pdf_series(&normal, -ONE, ONE, 4);
    assert_eq!(density.len(), 4);
    assert_eq!(density[1].0, -ONE / 2);
    assert_eq!(density[1].1, density[3].1);
    let distribution = cdf_series(&normal, -ONE, ONE, 2);
    assert_eq!(distribution.len(), 2);
    assert!((fl(distribution[1].1) - 0.5).abs() < 1e-3);
    assert!((fl(distribution[0].1) - 0.15865525393145707).abs() < 1e-3);
    assert!(pdf_series(&normal, 0, ONE, 0).is_empty());
    let power_law = reference_power_law();
    let tail = cdf_series(&power_law, ONE, 3 * ONE, 2);
    assert_eq!(tail[0], (ONE, 0));
    assert_eq!(tail[1], (2 * ONE, ONE / 2));
}

#[test]
fn the_fidelity_series_measures_after_every_batch() {
    let power_law = reference_power_law();
    let samples: Vec<i64> = (1..=25).map(|i| ONE + i * ONE / 10).collect();
    let series = ks_fidelity_series(&power_law, &samples);
    assert_eq!(series.len(), 2);
    assert_eq!(series[0].0, 10 * ONE);
    assert_eq!(series[1].0, 20 * ONE);
    assert_eq!(
        series[0].1,
        ko::continuous_testing::ks_distance(&power_law, &samples[..10].to_vec())
    );
    assert_eq!(
        series[1].1,
        ko::continuous_testing::ks_distance(&power_law, &samples[..20].to_vec())
    );
    assert!(ks_fidelity_series(&power_law, &samples[..9].to_vec()).is_empty());
}

#[test]
fn the_fidelity_figures_follow_the_draws() {
    let few = draws(20);
    let figure = plot_ks_true_power_law_estimation_fidelity(&few);
    assert_eq!(figure.data.len(), 2);
    assert_eq!(figure.data[1].0, 20 * ONE);
    assert!(fl(figure.data[1].1) < 0.3);
    assert_eq!(figure.caption, "True Power Law Distribution KS Test Fidelity");
    assert_eq!(
        figure.save_file,
        "plots/probability_estimation/ks_true_power_law_estimation.png"
    );
    let wrong = plot_ks_false_power_law_estimation_fidelity(&few);
    assert_eq!(wrong.data.len(), 2);
    assert!(fl(wrong.data[1].1) > fl(figure.data[1].1));
    assert_eq!(wrong.caption, "False Power Law Distribution KS Test Fidelity");
    let normal = plot_ks_normal_estimation_fidelity(&draws(10));
    assert_eq!(normal.data.len(), 1);
    assert_eq!(normal.data[0].0, 10 * ONE);
    assert_eq!(normal.caption, "Normal Distribution KS Test Fidelity");
    assert_eq!(normal.x_desc, "Number of Samples");
    assert_eq!(normal.y_desc, "Fidelity");
}

#[test]
fn averaging_series_index_by_index() {
    let collection = vec![
        vec![(ONE, 2 * ONE), (3 * ONE, 4 * ONE)],
        vec![(3 * ONE, 6 * ONE), (5 * ONE, 0), (9 * ONE, 9 * ONE)],
    ];
    assert_eq!(
        average_data_collection(&collection),
        Some(vec![(2 * ONE, 4 * ONE), (4 * ONE, 2 * ONE)])
    );
    let pair = vec![
        vec![(ONE, 2 * ONE), (3 * ONE, 4 * ONE)],
        vec![(3 * ONE, 6 * ONE), (5 * ONE, 8 * ONE)],
    ];
    assert_eq!(
        average_data_collection(&pair),
        Some(vec![(2 * ONE, 4 * ONE), (4 * ONE, 6 * ONE)])
    );
    assert_eq!(average_data_collection(&Vec::new()), None);
}

#[test]
fn telling_a_normal_sample_from_a_power_law_sample() {
    let normal = NormalDistribution::new(5 * ONE, ONE).unwrap();
    let samples = ko::sample::continuous_sample(&normal, &draws(40));
    let point = distinction_point(&samples).unwrap();
    assert!(point.ks_distance_normal < point.ks_distance_power_law);
    assert!(point.decision_entropy >= 0 && point.decision_entropy <= ONE);
    assert!(fl(point.stand_dev) > 4.0);
    assert!(distinction_point(&Vec::new()).is_none());
    assert!(distinction_point(&vec![ONE, ONE]).is_none());
}
