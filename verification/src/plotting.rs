//! The data behind the library's figures: for each figure the series of
//! points to draw, with its caption, axis labels and file name. Drawing is
//! left to the caller.

use crate::continuous_distribution::{
    normal_lower_spec, normal_measure_spec, normal_pdf_spec, power_law_factor_spec,
    power_law_cdf_spec, power_law_pdf_spec, ContinuousProbabilityDistribution,
    NormalDistribution, PowerLawDistribution,
};
use crate::continuous_distribution::Variates;
use crate::continuous_testing::{ks_distance, ks_distance_spec};
use crate::discrete_distribution::DiscreteProbabilityDistribution;
use crate::sample::{continuous_sample, samples_spec};
use crate::discrete_information::{discrete_entropy, entropy_spec};
use crate::fixed::{
    clamp, fx_add, fx_add_spec, fx_from_int, fx_mul, fx_mul_spec, fx_ratio, fx_ratio_spec, fx_sub,
    fx_sub_spec, lemma_round_ratio_nearest, Fixed, ONE,
};
use vstd::pervasive::unreached;
use vstd::prelude::*;

verus! {

/// A figure: a series of points with the texts that go around it.
pub struct Figure {
    pub data: Vec<(Fixed, Fixed)>,
    pub caption: &'static str,
    pub x_desc: &'static str,
    pub y_desc: &'static str,
    pub save_file: &'static str,
}

/// Number of points in the figures of densities and distributions.
pub const NUM_POINTS: u32 = 100000;

/// The `i`-th of `n` evenly spaced points that start at `min_x` and stop
/// short of `max_x`.
pub open spec fn grid_point(min_x: int, max_x: int, i: int, n: int) -> int {
    fx_add_spec(min_x, fx_mul_spec(fx_ratio_spec(i, n), fx_sub_spec(max_x, min_x)))
}

/// The `i`-th of `n` evenly spaced points that start at `min_x` and stop
/// short of `max_x`.
pub fn grid_point_at(min_x: Fixed, max_x: Fixed, i: u32, n: u32) -> (x: Fixed)
    ensures
        x == grid_point(min_x as int, max_x as int, i as int, n as int),
{
    fx_add(min_x, fx_mul(fx_ratio(i as i64, n as i64), fx_sub(max_x, min_x)))
}

/// The density of `dist` at `num_points` evenly spaced points from `min_x`
/// up to, not including, `max_x`.
pub fn pdf_series<D: ContinuousProbabilityDistribution>(
    dist: &D,
    min_x: Fixed,
    max_x: Fixed,
    num_points: u32,
) -> (data: Vec<(Fixed, Fixed)>)
    ensures
        data@.len() == num_points,
        forall|i: int|
            0 <= i < num_points ==> {
                let x = grid_point(min_x as int, max_x as int, i, num_points as int);
                (#[trigger] data@[i]).0 == x && data@[i].1 == dist.spec_pdf(x)
            },
{
    let mut data: Vec<(Fixed, Fixed)> = Vec::new();
    let mut i: u32 = 0;
    while i < num_points
        invariant
            i <= num_points,
            data@.len() == i,
            forall|k: int|
                0 <= k < i ==> {
                    let x = grid_point(min_x as int, max_x as int, k, num_points as int);
                    (#[trigger] data@[k]).0 == x && data@[k].1 == dist.spec_pdf(x)
                },
        decreases num_points - i,
    {
        let x: Fixed = grid_point_at(min_x, max_x, i, num_points);
        data.push((x, dist.pdf(x)));
        i += 1;
    }
    data
}

/// The cumulative distribution of `dist` at `num_points` evenly spaced
/// points from `min_x` up to, not including, `max_x`.
pub fn cdf_series<D: ContinuousProbabilityDistribution>(
    dist: &D,
    min_x: Fixed,
    max_x: Fixed,
    num_points: u32,
) -> (data: Vec<(Fixed, Fixed)>)
    ensures
        data@.len() == num_points,
        forall|i: int|
            0 <= i < num_points ==> {
                let x = grid_point(min_x as int, max_x as int, i, num_points as int);
                (#[trigger] data@[i]).0 == x && data@[i].1 == dist.spec_cdf(x)
            },
{
    let mut data: Vec<(Fixed, Fixed)> = Vec::new();
    let mut i: u32 = 0;
    while i < num_points
        invariant
            i <= num_points,
            data@.len() == i,
            forall|k: int|
                0 <= k < i ==> {
                    let x = grid_point(min_x as int, max_x as int, k, num_points as int);
                    (#[trigger] data@[k]).0 == x && data@[k].1 == dist.spec_cdf(x)
                },
        decreases num_points - i,
    {
        let x: Fixed = grid_point_at(min_x, max_x, i, num_points);
        data.push((x, dist.cdf(x)));
        i += 1;
    }
    data
}

/// The normal distribution with mean zero and variance one.
pub fn standard_normal() -> (normal: NormalDistribution)
    ensures
        normal.valid(),
        normal.spec_mean() == 0,
        normal.spec_variance() == ONE,
        normal == NormalDistribution::spec_new(0, ONE as int),
{
    match NormalDistribution::new(0, ONE) {
        Ok(normal) => normal,
        Err(_) => unreached(),
    }
}

/// The density of the standard normal distribution on `[-4, 4)`.
pub fn plot_normal_pdf() -> (figure: Figure)
    ensures
        figure.data@.len() == NUM_POINTS,
        forall|i: int|
            0 <= i < NUM_POINTS ==> {
                let x = grid_point(-4 * ONE, 4 * ONE, i, NUM_POINTS as int);
                (#[trigger] figure.data@[i]).0 == x && figure.data@[i].1 == normal_pdf_spec(
                    0,
                    ONE as int,
                    x,
                )
            },
        figure.caption@ == "Normal Distribution PDF"@,
        figure.x_desc@ == "x"@,
        figure.y_desc@ == "pdf(x)"@,
        figure.save_file@ == "plots/distributions/normal/normal_pdf.png"@,
{
    let normal: NormalDistribution = standard_normal();
    let data: Vec<(Fixed, Fixed)> = pdf_series(&normal, -4 * ONE, 4 * ONE, NUM_POINTS);
    Figure {
        data,
        caption: "Normal Distribution PDF",
        x_desc: "x",
        y_desc: "pdf(x)",
        save_file: "plots/distributions/normal/normal_pdf.png",
    }
}

/// The cumulative distribution of the standard normal distribution on
/// `[-4, 4)`.
pub fn plot_normal_cdf() -> (figure: Figure)
    ensures
        figure.data@.len() == NUM_POINTS,
        forall|i: int|
            0 <= i < NUM_POINTS ==> {
                let x = grid_point(-4 * ONE, 4 * ONE, i, NUM_POINTS as int);
                (#[trigger] figure.data@[i]).0 == x && figure.data@[i].1 == normal_measure_spec(
                    0,
                    ONE as int,
                    normal_lower_spec(0, ONE as int),
                    x,
                )
            },
        figure.caption@ == "Normal Distribution CDF"@,
        figure.x_desc@ == "x"@,
        figure.y_desc@ == "cdf(x)"@,
        figure.save_file@ == "plots/distributions/normal/normal_cdf.png"@,
{
    let normal: NormalDistribution = standard_normal();
    let data: Vec<(Fixed, Fixed)> = cdf_series(&normal, -4 * ONE, 4 * ONE, NUM_POINTS);
    Figure {
        data,
        caption: "Normal Distribution CDF",
        x_desc: "x",
        y_desc: "cdf(x)",
        save_file: "plots/distributions/normal/normal_cdf.png",
    }
}

/// The power law with shift zero, exponent two and least value one.
pub fn reference_power_law() -> (power_law: PowerLawDistribution)
    ensures
        power_law.valid(),
        power_law.spec_shift() == 0,
        power_law.spec_exponent() == 2 * ONE,
        power_law.spec_min_x() == ONE,
        power_law == PowerLawDistribution::spec_new(0, 2 * ONE, ONE as int),
{
    match PowerLawDistribution::new(0, 2 * ONE, ONE) {
        Ok(power_law) => power_law,
        Err(_) => unreached(),
    }
}

/// The density of the power law with shift zero, exponent two and least
/// value one, on `[1, 10)`.
pub fn plot_power_law_pdf() -> (figure: Figure)
    ensures
        figure.data@.len() == NUM_POINTS,
        forall|i: int|
            0 <= i < NUM_POINTS ==> {
                let x = grid_point(ONE as int, 10 * ONE, i, NUM_POINTS as int);
                (#[trigger] figure.data@[i]).0 == x && figure.data@[i].1 == power_law_pdf_spec(
                    0,
                    2 * ONE,
                    ONE as int,
                    x,
                )
            },
        figure.caption@ == "Power Law PDF"@,
        figure.x_desc@ == "x"@,
        figure.y_desc@ == "pdf(x)"@,
        figure.save_file@ == "plots/distributions/power_law/power_law_pdf.png"@,
{
    let power_law: PowerLawDistribution = reference_power_law();
    let data: Vec<(Fixed, Fixed)> = pdf_series(&power_law, ONE, 10 * ONE, NUM_POINTS);
    Figure {
        data,
        caption: "Power Law PDF",
        x_desc: "x",
        y_desc: "pdf(x)",
        save_file: "plots/distributions/power_law/power_law_pdf.png",
    }
}

/// The cumulative distribution of the same power law, from just above one
/// up to ten.
pub fn plot_power_law_cdf() -> (figure: Figure)
    ensures
        figure.data@.len() == NUM_POINTS,
        forall|i: int|
            0 <= i < NUM_POINTS ==> {
                let x = grid_point(ONE + 1_000_000_000, 10 * ONE, i, NUM_POINTS as int);
                (#[trigger] figure.data@[i]).0 == x && figure.data@[i].1 == power_law_cdf_spec(
                    power_law_factor_spec(0, 2 * ONE, ONE as int),
                    0,
                    2 * ONE,
                    ONE as int,
                    x,
                )
            },
        figure.caption@ == "Power Law CDF"@,
        figure.x_desc@ == "x"@,
        figure.y_desc@ == "cdf(x)"@,
        figure.save_file@ == "plots/distributions/power_law/power_law_cdf.png"@,
{
    let power_law: PowerLawDistribution = reference_power_law();
    let data: Vec<(Fixed, Fixed)> = cdf_series(
        &power_law,
        ONE + 1_000_000_000,
        10 * ONE,
        NUM_POINTS,
    );
    Figure {
        data,
        caption: "Power Law CDF",
        x_desc: "x",
        y_desc: "cdf(x)",
        save_file: "plots/distributions/power_law/power_law_cdf.png",
    }
}

/// The entropy of the two-outcome distribution with success probability
/// `p`.
pub open spec fn binomial_entropy_spec(p: int) -> int {
    entropy_spec(seq![fx_sub_spec(ONE as int, p) as i64, p as i64])
}

/// A whole number of hundred-thousandths below one is a fixed-point number
/// between zero and one.
pub proof fn lemma_grid_probability(i: int)
    requires
        0 <= i < NUM_POINTS,
    ensures
        fx_ratio_spec(i, NUM_POINTS as int) == i * 10_000_000_000,
{
    let n: int = i * ONE;
    assert(n == i * 1_000_000_000_000_000) by (nonlinear_arith)
        requires
            n == i * ONE,
            ONE == 1_000_000_000_000_000,
    ;
    lemma_round_ratio_nearest(n, NUM_POINTS as int);
}

/// The entropy of the two-outcome distribution as a function of its success
/// probability, at every hundred-thousandth from zero up to one.
pub fn plot_binomial_entropy() -> (figure: Figure)
    ensures
        figure.data@.len() == NUM_POINTS,
        forall|i: int|
            0 <= i < NUM_POINTS ==> {
                let p = fx_ratio_spec(i, NUM_POINTS as int);
                (#[trigger] figure.data@[i]).0 == p && figure.data@[i].1 == binomial_entropy_spec(
                    p,
                )
            },
        figure.caption@ == "Entropy of Binomial Distribution"@,
        figure.x_desc@ == "Probability of Success"@,
        figure.y_desc@ == "Entropy"@,
        figure.save_file@ == "plots/distributions/binomial/binomial_entropy.png"@,
{
    let mut data: Vec<(Fixed, Fixed)> = Vec::new();
    let mut i: u32 = 0;
    while i < NUM_POINTS
        invariant
            i <= NUM_POINTS,
            data@.len() == i,
            forall|k: int|
                0 <= k < i ==> {
                    let p = fx_ratio_spec(k, NUM_POINTS as int);
                    (#[trigger] data@[k]).0 == p && data@[k].1 == binomial_entropy_spec(p)
                },
        decreases NUM_POINTS - i,
    {
        let p: Fixed = fx_ratio(i as i64, NUM_POINTS as i64);
        proof {
            lemma_grid_probability(i as int);
        }
        let entropy: Fixed = match DiscreteProbabilityDistribution::binomial(p) {
            Ok(binomial) => discrete_entropy(&binomial).to_float(),
            Err(_) => unreached(),
        };
        data.push((p, entropy));
        i += 1;
    }
    Figure {
        data,
        caption: "Entropy of Binomial Distribution",
        x_desc: "Probability of Success",
        y_desc: "Entropy",
        save_file: "plots/distributions/binomial/binomial_entropy.png",
    }
}

/// Number of samples added between two measurements of the distance.
pub const FIDELITY_BATCH: usize = 10;

/// Largest number of measurements of the distance.
pub const FIDELITY_ROUNDS: usize = 100;

/// How many measurements `available` samples allow: one for each full
/// batch, up to [`FIDELITY_ROUNDS`].
pub open spec fn fidelity_rounds(available: int) -> int {
    if available / (FIDELITY_BATCH as int) < FIDELITY_ROUNDS {
        available / (FIDELITY_BATCH as int)
    } else {
        FIDELITY_ROUNDS as int
    }
}

/// The distance of a growing sample from `dist`: after each batch of
/// samples, the number of samples so far and their Kolmogorov-Smirnov
/// distance from `dist`.
pub open spec fn ks_fidelity_spec<D: ContinuousProbabilityDistribution>(
    dist: D,
    samples: Seq<i64>,
) -> Seq<(i64, i64)> {
    Seq::new(
        fidelity_rounds(samples.len() as int) as nat,
        |k: int|
            (
                clamp((k + 1) * FIDELITY_BATCH * ONE) as i64,
                ks_distance_spec(dist, samples.take((k + 1) * FIDELITY_BATCH)) as i64,
            ),
    )
}

/// The distance of a growing sample from `dist`; see [`ks_fidelity_spec`].
pub fn ks_fidelity_series<D: ContinuousProbabilityDistribution>(dist: &D, samples: &Vec<Fixed>) -> (data:
    Vec<(Fixed, Fixed)>)
    ensures
        data@ == ks_fidelity_spec(*dist, samples@),
{
    let available: usize = samples.len() / FIDELITY_BATCH;
    let rounds: usize = if available < FIDELITY_ROUNDS {
        available
    } else {
        FIDELITY_ROUNDS
    };
    let mut data: Vec<(Fixed, Fixed)> = Vec::new();
    let mut seen: Vec<Fixed> = Vec::new();
    let mut k: usize = 0;
    assert(samples@.take(0) =~= Seq::<i64>::empty());
    while k < rounds
        invariant
            k <= rounds,
            rounds == fidelity_rounds(samples@.len() as int),
            rounds <= FIDELITY_ROUNDS,
            rounds * FIDELITY_BATCH <= samples@.len(),
            seen@ == samples@.take(k * FIDELITY_BATCH),
            data@.len() == k,
            forall|j: int| 0 <= j < k ==> #[trigger] data@[j] == ks_fidelity_spec(*dist, samples@)[j],
        decreases rounds - k,
    {
        let mut i: usize = 0;
        while i < FIDELITY_BATCH
            invariant
                i <= FIDELITY_BATCH,
                k < rounds,
                rounds <= FIDELITY_ROUNDS,
                rounds * FIDELITY_BATCH <= samples@.len(),
                seen@ == samples@.take(k * FIDELITY_BATCH + i),
            decreases FIDELITY_BATCH - i,
        {
            seen.push(samples[k * FIDELITY_BATCH + i]);
            proof {
                assert(seen@ =~= samples@.take(k * FIDELITY_BATCH + i + 1));
            }
            i += 1;
        }
        let count: Fixed = fx_from_int(((k + 1) * FIDELITY_BATCH) as i64);
        let distance: Fixed = ks_distance(dist, &seen);
        data.push((count, distance));
        k += 1;
    }
    assert(data@ =~= ks_fidelity_spec(*dist, samples@));
    data
}

/// How the distance of a sample of the standard normal distribution from
/// that distribution develops as the sample grows. The samples are those
/// that `draws` lead to.
pub fn plot_ks_normal_estimation_fidelity(draws: &Vec<Variates>) -> (figure: Figure)
    ensures
        ({
            let normal = NormalDistribution::spec_new(0, ONE as int);
            figure.data@ == ks_fidelity_spec(normal, samples_spec(normal, draws@))
        }),
        figure.caption@ == "Normal Distribution KS Test Fidelity"@,
        figure.x_desc@ == "Number of Samples"@,
        figure.y_desc@ == "Fidelity"@,
        figure.save_file@ == "plots/probability_estimation/ks_normal_estimation.png"@,
{
    let normal: NormalDistribution = standard_normal();
    let samples: Vec<Fixed> = continuous_sample(&normal, draws);
    let data: Vec<(Fixed, Fixed)> = ks_fidelity_series(&normal, &samples);
    Figure {
        data,
        caption: "Normal Distribution KS Test Fidelity",
        x_desc: "Number of Samples",
        y_desc: "Fidelity",
        save_file: "plots/probability_estimation/ks_normal_estimation.png",
    }
}

/// How the distance of a sample of the reference power law from that power
/// law develops as the sample grows.
pub fn plot_ks_true_power_law_estimation_fidelity(draws: &Vec<Variates>) -> (figure: Figure)
    ensures
        ({
            let power_law = PowerLawDistribution::spec_new(0, 2 * ONE, ONE as int);
            figure.data@ == ks_fidelity_spec(power_law, samples_spec(power_law, draws@))
        }),
        figure.caption@ == "True Power Law Distribution KS Test Fidelity"@,
        figure.x_desc@ == "Number of Samples"@,
        figure.y_desc@ == "Fidelity"@,
        figure.save_file@ == "plots/probability_estimation/ks_true_power_law_estimation.png"@,
{
    let power_law: PowerLawDistribution = reference_power_law();
    let samples: Vec<Fixed> = continuous_sample(&power_law, draws);
    let data: Vec<(Fixed, Fixed)> = ks_fidelity_series(&power_law, &samples);
    Figure {
        data,
        caption: "True Power Law Distribution KS Test Fidelity",
        x_desc: "Number of Samples",
        y_desc: "Fidelity",
        save_file: "plots/probability_estimation/ks_true_power_law_estimation.png",
    }
}

/// How the distance from the reference power law develops for a growing
/// sample of another power law: that with shift one, exponent four and
/// least value two.
pub fn plot_ks_false_power_law_estimation_fidelity(draws: &Vec<Variates>) -> (figure: Figure)
    ensures
        ({
            let power_law = PowerLawDistribution::spec_new(0, 2 * ONE, ONE as int);
            let other = PowerLawDistribution::spec_new(ONE as int, 4 * ONE, 2 * ONE);
            figure.data@ == ks_fidelity_spec(power_law, samples_spec(other, draws@))
        }),
        figure.caption@ == "False Power Law Distribution KS Test Fidelity"@,
        figure.x_desc@ == "Number of Samples"@,
        figure.y_desc@ == "Fidelity"@,
        figure.save_file@ == "plots/probability_estimation/ks_false_power_law_estimation.png"@,
{
    let power_law: PowerLawDistribution = reference_power_law();
    let sample_dist: PowerLawDistribution = match PowerLawDistribution::new(
        ONE,
        4 * ONE,
        2 * ONE,
    ) {
        Ok(other) => other,
        Err(_) => unreached(),
    };
    let samples: Vec<Fixed> = continuous_sample(&sample_dist, draws);
    let data: Vec<(Fixed, Fixed)> = ks_fidelity_series(&power_law, &samples);
    Figure {
        data,
        caption: "False Power Law Distribution KS Test Fidelity",
        x_desc: "Number of Samples",
        y_desc: "Fidelity",
        save_file: "plots/probability_estimation/ks_false_power_law_estimation.png",
    }
}

} // verus!
