//! The binomial distinction test: whether a sample of zeros and ones is
//! compatible with a given success probability, by the Wilson score
//! interval.

use crate::continuous_distribution::divide_count;
use crate::discrete_distribution::{
    sample_index_spec, DiscreteProbabilityDistribution, DistributionError, TOLERANCE,
};
use crate::fixed::{
    clamp, fx_add, fx_add_spec, fx_div, fx_div_int_spec, fx_div_spec, fx_mul, fx_mul_int,
    fx_mul_int_spec, fx_mul_spec, fx_sub, fx_sub_spec, round_ratio, Fixed, ONE,
};
use crate::fixed_sqrt::{fx_sqrt, fx_sqrt_spec};
use crate::metric::{discrete_distribution_metric, discrete_metric_spec};
use crate::sample::{discrete_sample, is_sample_of};
use rand::rngs::StdRng;
use vstd::prelude::*;

verus! {

/// The square of the normal quantile `1.96` of a two-sided confidence of
/// about 95 percent.
pub const Z_SQUARED: i64 = 3_841_600_000_000_000;

/// Sum of the entries of `samples`.
pub open spec fn sample_sum(samples: Seq<i32>) -> int
    decreases samples.len(),
{
    if samples.len() == 0 {
        0
    } else {
        sample_sum(samples.drop_last()) + samples.last()
    }
}

/// The mean of `samples` as a fixed-point number; zero for no samples.
pub open spec fn sample_proportion_spec(samples: Seq<i32>) -> int {
    if samples.len() == 0 {
        0
    } else {
        clamp(round_ratio(sample_sum(samples) * ONE, samples.len() as int))
    }
}

/// The Wilson score interval for a proportion `h` observed in `n` trials:
/// `(2h + w -+ sqrt(w^2 + 4 h (1 - h) w)) / (2 (1 + w))` with
/// `w = z^2 / n`, which is the usual formula with numerator and denominator
/// divided by `n`.
pub open spec fn wilson_interval_spec(h: int, n: int) -> (int, int) {
    let w = fx_div_int_spec(Z_SQUARED as int, n);
    let center = fx_add_spec(fx_mul_int_spec(h, 2), w);
    let spread = fx_mul_int_spec(fx_mul_spec(h, fx_sub_spec(ONE as int, h)), 4);
    let root = fx_sqrt_spec(fx_add_spec(fx_mul_spec(w, w), fx_mul_spec(spread, w)));
    let denominator = fx_mul_int_spec(fx_add_spec(ONE as int, w), 2);
    (
        fx_div_spec(fx_sub_spec(center, root), denominator),
        fx_div_spec(fx_add_spec(center, root), denominator),
    )
}

/// Whether a success probability `p` lies in the Wilson score interval of
/// `samples`; never for no samples.
pub open spec fn validate_binomial_spec(p: int, samples: Seq<i32>) -> bool {
    let bounds = wilson_interval_spec(sample_proportion_spec(samples), samples.len() as int);
    samples.len() > 0 && bounds.0 <= p <= bounds.1
}

/// The mean of `samples` as a fixed-point number; zero for no samples.
pub fn sample_proportion(samples: &Vec<i32>) -> (h: Fixed)
    ensures
        h == sample_proportion_spec(samples@),
{
    let n: usize = samples.len();
    if n == 0 {
        return 0;
    }
    let mut sum: i128 = 0;
    let mut i: usize = 0;
    assert(samples@.take(0) =~= Seq::<i32>::empty());
    while i < n
        invariant
            i <= n,
            n == samples@.len(),
            sum == sample_sum(samples@.take(i as int)),
            -0x8000_0000 * i <= sum <= 0x8000_0000 * i,
        decreases n - i,
    {
        proof {
            assert(samples@.take(i as int + 1).drop_last() =~= samples@.take(i as int));
        }
        sum = sum + samples[i] as i128;
        i += 1;
    }
    proof {
        assert(samples@.take(n as int) =~= samples@);
    }
    let negative: bool = sum < 0;
    let mag: u128 = if negative {
        (-sum) as u128
    } else {
        sum as u128
    };
    let whole: u128 = mag / (n as u128);
    if whole >= 9224 {
        proof {
            let m = mag as int;
            let d = n as int;
            vstd::arithmetic::div_mod::lemma_fundamental_div_mod(m, d);
            assert(m >= 9224 * d) by (nonlinear_arith)
                requires
                    m == d * (m / d) + m % d,
                    m / d >= 9224,
                    m % d >= 0,
                    d > 0,
            ;
            assert((2 * (m * ONE) + d) / (2 * d) >= 9_224_000_000_000_000_000)
                by (nonlinear_arith)
                requires
                    m >= 9224 * d,
                    d > 0,
                    ONE == 1_000_000_000_000_000,
            ;
            assert(sample_sum(samples@) * ONE == if negative {
                -(m * ONE)
            } else {
                m * ONE
            }) by (nonlinear_arith)
                requires
                    sample_sum(samples@) == if negative {
                        -m
                    } else {
                        m
                    },
            ;
        }
        return if negative {
            crate::fixed::FIXED_MIN
        } else {
            crate::fixed::FIXED_MAX
        };
    }
    proof {
        let m = mag as int;
        let d = n as int;
        vstd::arithmetic::div_mod::lemma_fundamental_div_mod(m, d);
        assert(m < 9224 * d) by (nonlinear_arith)
            requires
                m == d * (m / d) + m % d,
                m / d <= 9223,
                m % d < d,
                d > 0,
        ;
        assert(m * ONE < 9224 * 0xffff_ffff_ffff_ffff * 1_000_000_000_000_000)
            by (nonlinear_arith)
            requires
                0 <= m < 9224 * d,
                d <= 0xffff_ffff_ffff_ffff,
                ONE == 1_000_000_000_000_000,
        ;
        assert(sample_sum(samples@) * ONE == if negative {
            -(m * ONE)
        } else {
            m * ONE
        }) by (nonlinear_arith)
            requires
                sample_sum(samples@) == if negative {
                    -m
                } else {
                    m
                },
        ;
    }
    crate::fixed::round_ratio_saturating(negative, mag * ONE as u128, n as u128)
}

/// The two-outcome distribution fitted to a sample of zeros and ones: its
/// success probability is the mean of the sample. Fails for no samples, and
/// where the mean is not a probability.
pub fn estimate_binomial(samples: &Vec<i32>) -> (r: Result<
    DiscreteProbabilityDistribution<i32>,
    DistributionError,
>)
    ensures
        ({
            let p = sample_proportion_spec(samples@);
            match r {
                Ok(dist) => {
                    &&& samples@.len() > 0
                    &&& -TOLERANCE <= p <= ONE + TOLERANCE
                    &&& dist.valid()
                    &&& dist.spec_outcomes() == seq![0i32, 1i32]
                    &&& dist.spec_probabilities() == seq![(ONE - p) as i64, p as i64]
                },
                Err(DistributionError::DegenerateParameter) => samples@.len() == 0,
                Err(DistributionError::InvalidProbability) => samples@.len() > 0 && !(-TOLERANCE
                    <= p <= ONE + TOLERANCE),
                Err(_) => false,
            }
        }),
{
    if samples.len() == 0 {
        return Err(DistributionError::DegenerateParameter);
    }
    DiscreteProbabilityDistribution::binomial(sample_proportion(samples))
}

/// The Wilson score interval for a proportion `h` observed in `n` trials.
pub fn wilson_interval(h: Fixed, n: usize) -> (bounds: (Fixed, Fixed))
    ensures
        bounds.0 == wilson_interval_spec(h as int, n as int).0,
        bounds.1 == wilson_interval_spec(h as int, n as int).1,
{
    let w: Fixed = divide_count(Z_SQUARED, n);
    let center: Fixed = fx_add(fx_mul_int(h, 2), w);
    let spread: Fixed = fx_mul_int(fx_mul(h, fx_sub(ONE, h)), 4);
    let root: Fixed = fx_sqrt(fx_add(fx_mul(w, w), fx_mul(spread, w)));
    let denominator: Fixed = fx_mul_int(fx_add(ONE, w), 2);
    (fx_div(fx_sub(center, root), denominator), fx_div(fx_add(center, root), denominator))
}

/// The binomial distinction test: whether the probability that `test_dist`
/// gives the outcome `1` lies within the Wilson score interval around the
/// proportion of ones in `samples`.
pub fn validate_binomial(test_dist: &DiscreteProbabilityDistribution<i32>, samples: &Vec<i32>) -> (r:
    bool)
    ensures
        r == validate_binomial_spec(test_dist.spec_pmf(1), samples@),
{
    if samples.len() == 0 {
        return false;
    }
    let h: Fixed = sample_proportion(samples);
    let bounds: (Fixed, Fixed) = wilson_interval(h, samples.len());
    let p: Fixed = test_dist.pmf(&1);
    bounds.0 <= p && p <= bounds.1
}

/// The least number of samples of a fidelity trial.
pub const FIDELITY_FIRST: usize = 2;

/// One more than the greatest number of samples of a fidelity trial.
pub const FIDELITY_END: usize = 100;

/// How far the two-outcome distribution estimated from `samples` lies from
/// the one with success probability `p`.
pub open spec fn binomial_fidelity_spec(p: int, samples: Seq<i32>) -> int {
    let h = sample_proportion_spec(samples);
    discrete_metric_spec(
        seq![0i32, 1i32],
        seq![(ONE - p) as i64, p as i64],
        seq![0i32, 1i32],
        seq![(ONE - h) as i64, h as i64],
    )
}

/// Whether `value` is the distance that some `count` samples of zeros and
/// ones give.
pub open spec fn is_fidelity_of(p: int, count: int, value: int) -> bool {
    exists|samples: Seq<i32>|
        {
            &&& samples.len() == count
            &&& forall|k: int| 0 <= k < samples.len() ==> 0 <= #[trigger] samples[k] <= 1
            &&& value == #[trigger] binomial_fidelity_spec(p, samples)
        }
}

/// The sum of samples that are each zero or one lies between zero and
/// their number.
pub proof fn lemma_sample_sum_of_bits(samples: Seq<i32>)
    requires
        forall|i: int| 0 <= i < samples.len() ==> 0 <= #[trigger] samples[i] <= 1,
    ensures
        0 <= sample_sum(samples) <= samples.len(),
    decreases samples.len(),
{
    if samples.len() > 0 {
        let rest = samples.drop_last();
        assert forall|i: int| 0 <= i < rest.len() implies 0 <= #[trigger] rest[i] <= 1 by {
            assert(rest[i] == samples[i]);
        }
        lemma_sample_sum_of_bits(rest);
        assert(samples.last() == samples[samples.len() - 1]);
    }
}

/// One trial of how well a two-outcome distribution is recovered from
/// samples: for every number of samples from [`FIDELITY_FIRST`] up to, not
/// including, [`FIDELITY_END`], that many samples are drawn from the
/// distribution with success probability `p`, a distribution is estimated
/// from them, and its distance from the first is recorded against the
/// number of samples. Fails only where `p` is no probability.
pub fn binomial_fidelity_trial(p: Fixed, rng: &mut StdRng) -> (r: Result<
    Vec<(Fixed, Fixed)>,
    DistributionError,
>)
    ensures
        match r {
            Ok(data) => {
                &&& -TOLERANCE <= p <= ONE + TOLERANCE
                &&& data@.len() == FIDELITY_END - FIDELITY_FIRST
                &&& forall|i: int|
                    0 <= i < data@.len() ==> (#[trigger] data@[i]).0 == (i + FIDELITY_FIRST) * ONE
                &&& forall|i: int|
                    0 <= i < data@.len() ==> is_fidelity_of(
                        p as int,
                        i + FIDELITY_FIRST,
                        (#[trigger] data@[i]).1 as int,
                    )
            },
            Err(e) => e == DistributionError::InvalidProbability && !(-TOLERANCE <= p <= ONE
                + TOLERANCE),
        },
{
    let dist: DiscreteProbabilityDistribution<i32> = match DiscreteProbabilityDistribution::binomial(
        p,
    ) {
        Ok(dist) => dist,
        Err(e) => {
            return Err(e);
        },
    };
    let mut data: Vec<(Fixed, Fixed)> = Vec::new();
    let mut count: usize = FIDELITY_FIRST;
    while count < FIDELITY_END
        invariant
            FIDELITY_FIRST <= count <= FIDELITY_END,
            -TOLERANCE <= p <= ONE + TOLERANCE,
            dist.valid(),
            dist.spec_outcomes() == seq![0i32, 1i32],
            dist.spec_probabilities() == seq![(ONE - p) as i64, p],
            data@.len() == count - FIDELITY_FIRST,
            forall|i: int|
                0 <= i < data@.len() ==> (#[trigger] data@[i]).0 == (i + FIDELITY_FIRST) * ONE,
            forall|i: int|
                0 <= i < data@.len() ==> is_fidelity_of(
                    p as int,
                    i + FIDELITY_FIRST,
                    (#[trigger] data@[i]).1 as int,
                ),
        decreases FIDELITY_END - count,
    {
        let samples: Vec<i32> = discrete_sample(count, &dist, rng);
        proof {
            assert forall|k: int| 0 <= k < samples@.len() implies 0 <= #[trigger] samples@[k]
                <= 1 by {
                assert(is_sample_of(dist, samples@[k]));
                let u = choose|u: i64|
                    0 <= u < ONE && samples@[k] == dist.spec_outcomes()[#[trigger] sample_index_spec(
                        dist.spec_probabilities(),
                        u as int,
                    )];
                crate::discrete_distribution::lemma_sample_index_range(
                    dist.spec_probabilities(),
                    u as int,
                    0,
                );
                let at = sample_index_spec(dist.spec_probabilities(), u as int);
                assert(0 <= at < 2);
                assert(dist.spec_outcomes()[at] == 0 || dist.spec_outcomes()[at] == 1);
            }
            lemma_sample_sum_of_bits(samples@);
            let n = samples@.len() as int;
            let sum = sample_sum(samples@);
            assert(0 <= sum * ONE <= n * ONE) by (nonlinear_arith)
                requires
                    0 <= sum <= n,
                    ONE == 1_000_000_000_000_000,
            ;
            crate::fixed::lemma_round_ratio_monotone(0, sum * ONE, n);
            crate::fixed::lemma_round_ratio_monotone(sum * ONE, n * ONE, n);
            crate::fixed::lemma_round_ratio_exact(0, n);
            crate::fixed::lemma_round_ratio_exact(ONE as int, n);
            assert(0 * n == 0);
            assert(ONE * n == n * ONE) by (nonlinear_arith);
        }
        let estimate: DiscreteProbabilityDistribution<i32> = match estimate_binomial(&samples) {
            Ok(estimate) => estimate,
            Err(e) => {
                return Err(e);
            },
        };
        let fidelity: Fixed = discrete_distribution_metric(&dist, &estimate);
        let ghost before = data@;
        data.push((crate::fixed::fx_from_int(count as i64), fidelity));
        proof {
            let i = data@.len() - 1;
            assert(fidelity == binomial_fidelity_spec(p as int, samples@));
            assert(is_fidelity_of(p as int, i + FIDELITY_FIRST, fidelity as int));
            assert forall|j: int| 0 <= j < data@.len() implies is_fidelity_of(
                p as int,
                j + FIDELITY_FIRST,
                (#[trigger] data@[j]).1 as int,
            ) by {
                if j < i {
                    assert(data@[j] == before[j]);
                }
            }
        }
        count += 1;
    }
    Ok(data)
}

} // verus!
