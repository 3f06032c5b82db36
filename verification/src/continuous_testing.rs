//! Kolmogorov-Smirnov testing: the empirical distribution function of a
//! sample, its distance from a model distribution on a grid, and the
//! validation of a model against a sample.

use crate::continuous_distribution::{
    max_of, max_spec, min_of, min_spec, ContinuousProbabilityDistribution,
};
use crate::fixed::{
    abs_int, clamp, fx_abs, fx_ratio_spec, fx_sub, fx_sub_spec, lemma_round_ratio_exact,
    lemma_round_ratio_monotone, lemma_round_ratio_nearest, round_ratio, round_ratio_saturating,
    round_ratio_wide, Fixed, ONE,
};
use vstd::prelude::*;

verus! {

/// Number of intervals of the grid on which the distance is taken; the
/// distributions are compared at the inner grid points.
pub const KS_NUM_STEPS: usize = 1000;

/// The distance below which a model passes validation: `0.05`.
pub const KS_EPSILON: i64 = 50_000_000_000_000;

/// How many entries of `samples` are at most `x`.
pub open spec fn count_le(samples: Seq<i64>, x: int) -> int
    decreases samples.len(),
{
    if samples.len() == 0 {
        0
    } else if samples.last() <= x {
        count_le(samples.drop_last(), x) + 1
    } else {
        count_le(samples.drop_last(), x)
    }
}

/// The empirical distribution function of `samples` at `x`: the fraction
/// of samples that are at most `x`; zero for no samples.
pub open spec fn empirical_cdf_spec(samples: Seq<i64>, x: int) -> int {
    fx_ratio_spec(count_le(samples, x), samples.len() as int)
}

/// The value at `x` of the step function with the control points `est`:
/// the second member of the last point whose first member is at most `x`,
/// and zero where there is none.
pub open spec fn step_value(est: Seq<(i64, i64)>, x: int) -> int
    decreases est.len(),
{
    if est.len() == 0 {
        0
    } else if est.last().0 <= x {
        est.last().1 as int
    } else {
        step_value(est.drop_last(), x)
    }
}

/// Whether `v` is the first member of one of the control points `cdf`.
pub open spec fn is_control_point(cdf: Seq<(i64, i64)>, v: i64) -> bool {
    exists|i: int| 0 <= i < cdf.len() && (#[trigger] cdf[i]).0 == v
}

/// The count lies between zero and the number of samples.
pub proof fn lemma_count_le_range(samples: Seq<i64>, x: int)
    ensures
        0 <= count_le(samples, x) <= samples.len(),
    decreases samples.len(),
{
    if samples.len() > 0 {
        lemma_count_le_range(samples.drop_last(), x);
    }
}

/// The count grows with `x`, and strictly where a sample lies between.
pub proof fn lemma_count_le_monotone(samples: Seq<i64>, a: int, b: int)
    requires
        a <= b,
    ensures
        count_le(samples, a) <= count_le(samples, b),
        (exists|k: int| 0 <= k < samples.len() && a < #[trigger] samples[k] <= b) ==> count_le(
            samples,
            a,
        ) < count_le(samples, b),
    decreases samples.len(),
{
    if samples.len() > 0 {
        let rest = samples.drop_last();
        lemma_count_le_monotone(rest, a, b);
        if exists|k: int| 0 <= k < samples.len() && a < #[trigger] samples[k] <= b {
            let k = choose|k: int| 0 <= k < samples.len() && a < #[trigger] samples[k] <= b;
            if k < samples.len() - 1 {
                assert(rest[k] == samples[k]);
            }
        }
    }
}

/// Two bounds that the same samples meet give the same count.
pub proof fn lemma_count_le_same(samples: Seq<i64>, a: int, b: int)
    requires
        forall|k: int| 0 <= k < samples.len() ==> ((#[trigger] samples[k] <= a) == (samples[k] <= b)),
    ensures
        count_le(samples, a) == count_le(samples, b),
    decreases samples.len(),
{
    if samples.len() > 0 {
        let rest = samples.drop_last();
        assert forall|k: int| 0 <= k < rest.len() implies ((#[trigger] rest[k] <= a) == (rest[k]
            <= b)) by {
            assert(rest[k] == samples[k]);
        }
        lemma_count_le_same(rest, a, b);
        assert(samples.last() == samples[samples.len() - 1]);
    }
}

/// How many entries of `samples` are at most `x`.
pub fn count_at_most(samples: &Vec<Fixed>, x: Fixed) -> (c: usize)
    ensures
        c == count_le(samples@, x as int),
        c <= samples@.len(),
{
    let n: usize = samples.len();
    let mut c: usize = 0;
    let mut i: usize = 0;
    assert(samples@.take(0) =~= Seq::<i64>::empty());
    while i < n
        invariant
            i <= n,
            n == samples@.len(),
            c <= i,
            c == count_le(samples@.take(i as int), x as int),
        decreases n - i,
    {
        proof {
            assert(samples@.take(i as int + 1).drop_last() =~= samples@.take(i as int));
        }
        if samples[i] <= x {
            c += 1;
        }
        i += 1;
    }
    proof {
        assert(samples@.take(n as int) =~= samples@);
    }
    c
}

/// The fixed-point number nearest to `c / n`.
pub fn fraction(c: usize, n: usize) -> (r: Fixed)
    ensures
        r == fx_ratio_spec(c as int, n as int),
{
    if n == 0 {
        if c > 0 {
            crate::fixed::FIXED_MAX
        } else {
            0
        }
    } else {
        assert(c * ONE <= 0xffff_ffff_ffff_ffff * 1_000_000_000_000_000) by (nonlinear_arith)
            requires
                c <= 0xffff_ffff_ffff_ffff,
                ONE == 1_000_000_000_000_000,
        ;
        round_ratio_saturating(false, c as u128 * ONE as u128, n as u128)
    }
}

/// The empirical distribution function of `samples` at `x`.
pub fn empirical_cdf(samples: &Vec<Fixed>, x: Fixed) -> (r: Fixed)
    ensures
        r == empirical_cdf_spec(samples@, x as int),
{
    fraction(count_at_most(samples, x), samples.len())
}

/// The least entry of `samples` above `bound`, if there is one.
pub fn least_above(samples: &Vec<Fixed>, bound: Fixed) -> (r: Option<Fixed>)
    ensures
        match r {
            Some(x) => {
                &&& x > bound
                &&& samples@.contains(x)
                &&& forall|k: int|
                    0 <= k < samples@.len() && #[trigger] samples@[k] > bound ==> samples@[k] >= x
            },
            None => forall|k: int| 0 <= k < samples@.len() ==> #[trigger] samples@[k] <= bound,
        },
{
    let n: usize = samples.len();
    let mut found: Option<Fixed> = None;
    let mut i: usize = 0;
    while i < n
        invariant
            i <= n,
            n == samples@.len(),
            match found {
                Some(x) => {
                    &&& x > bound
                    &&& samples@.contains(x)
                    &&& forall|k: int|
                        0 <= k < i && #[trigger] samples@[k] > bound ==> samples@[k] >= x
                },
                None => forall|k: int| 0 <= k < i ==> #[trigger] samples@[k] <= bound,
            },
        decreases n - i,
    {
        let s: Fixed = samples[i];
        if s > bound {
            let better: bool = match found {
                Some(x) => s < x,
                None => true,
            };
            if better {
                proof {
                    assert(samples@[i as int] == s);
                }
                found = Some(s);
            }
        }
        i += 1;
    }
    found
}

/// The control points of the empirical distribution function of `samples`:
/// for each value that occurs among the samples, in increasing order and
/// once each, the value and the fraction of samples that are at most it.
pub fn ks_estimate_continuous_cdf(samples: &Vec<Fixed>) -> (cdf: Vec<(Fixed, Fixed)>)
    ensures
        forall|i: int, j: int|
            #![trigger cdf@[i], cdf@[j]]
            0 <= i < j < cdf@.len() ==> cdf@[i].0 < cdf@[j].0,
        forall|i: int| 0 <= i < cdf@.len() ==> samples@.contains((#[trigger] cdf@[i]).0),
        forall|k: int| 0 <= k < samples@.len() ==> is_control_point(cdf@, #[trigger] samples@[k]),
        forall|i: int|
            0 <= i < cdf@.len() ==> (#[trigger] cdf@[i]).1 == empirical_cdf_spec(
                samples@,
                cdf@[i].0 as int,
            ),
{
    let n: usize = samples.len();
    let mut cdf: Vec<(Fixed, Fixed)> = Vec::new();
    if n == 0 {
        return cdf;
    }
    let first: Fixed = min_of(samples);
    proof {
        lemma_min_is_least(samples@);
    }
    cdf.push((first, empirical_cdf(samples, first)));
    let mut last: Fixed = first;
    proof {
        assert(cdf@[0].0 == first);
        assert forall|k: int|
            0 <= k < samples@.len() && #[trigger] samples@[k] <= last implies is_control_point(
            cdf@,
            samples@[k],
        ) by {
            assert(samples@[k] == first);
        }
    }
    loop
        invariant
            n == samples@.len(),
            n > 0,
            cdf@.len() > 0,
            cdf@[cdf@.len() - 1].0 == last,
            forall|i: int, j: int|
                #![trigger cdf@[i], cdf@[j]]
                0 <= i < j < cdf@.len() ==> cdf@[i].0 < cdf@[j].0,
            forall|i: int| 0 <= i < cdf@.len() ==> samples@.contains((#[trigger] cdf@[i]).0),
            forall|k: int|
                0 <= k < samples@.len() && #[trigger] samples@[k] <= last ==> is_control_point(
                    cdf@,
                    samples@[k],
                ),
            forall|i: int|
                0 <= i < cdf@.len() ==> (#[trigger] cdf@[i]).1 == empirical_cdf_spec(
                    samples@,
                    cdf@[i].0 as int,
                ),
        ensures
            forall|k: int| 0 <= k < samples@.len() ==> #[trigger] samples@[k] <= last,
        decreases n - count_le(samples@, last as int),
    {
        let next: Fixed = match least_above(samples, last) {
            Some(x) => x,
            None => {
                break ;
            },
        };
        let ghost before = cdf@;
        proof {
            let k = choose|k: int| 0 <= k < samples@.len() && samples@[k] == next;
            assert(last < samples@[k] <= next);
            lemma_count_le_monotone(samples@, last as int, next as int);
            lemma_count_le_range(samples@, next as int);
        }
        cdf.push((next, empirical_cdf(samples, next)));
        proof {
            assert forall|i: int, j: int|
                #![trigger cdf@[i], cdf@[j]]
                0 <= i < j < cdf@.len() implies cdf@[i].0 < cdf@[j].0 by {
                if j == cdf@.len() - 1 {
                    assert(cdf@[i] == before[i]);
                    if i < before.len() - 1 {
                        assert(before[i].0 < before[before.len() - 1].0);
                    }
                } else {
                    assert(cdf@[i] == before[i] && cdf@[j] == before[j]);
                }
            }
            assert forall|k: int|
                0 <= k < samples@.len() && #[trigger] samples@[k] <= next implies is_control_point(
                cdf@,
                samples@[k],
            ) by {
                if samples@[k] <= last {
                    assert(is_control_point(before, samples@[k]));
                    let i = choose|i: int|
                        0 <= i < before.len() && (#[trigger] before[i]).0 == samples@[k];
                    assert(cdf@[i] == before[i]);
                } else {
                    assert(samples@[k] == next);
                    assert(cdf@[cdf@.len() - 1].0 == next);
                }
            }
            assert forall|i: int| 0 <= i < cdf@.len() implies samples@.contains(
                (#[trigger] cdf@[i]).0,
            ) by {
                if i < before.len() {
                    assert(cdf@[i] == before[i]);
                }
            }
            assert forall|i: int| 0 <= i < cdf@.len() implies (#[trigger] cdf@[i]).1
                == empirical_cdf_spec(samples@, cdf@[i].0 as int) by {
                if i < before.len() {
                    assert(cdf@[i] == before[i]);
                }
            }
        }
        last = next;
    }
    cdf
}

/// The least entry of one or more samples is one of them and at most each.
pub proof fn lemma_min_is_least(samples: Seq<i64>)
    requires
        samples.len() > 0,
    ensures
        samples.contains(min_spec(samples) as i64),
        forall|k: int| 0 <= k < samples.len() ==> min_spec(samples) <= #[trigger] samples[k],
        samples.contains(max_spec(samples) as i64),
        forall|k: int| 0 <= k < samples.len() ==> max_spec(samples) >= #[trigger] samples[k],
    decreases samples.len(),
{
    let rest = samples.drop_last();
    let n = samples.len() - 1;
    assert(samples[n] == samples.last());
    if rest.len() == 0 {
        assert(min_spec(rest) == crate::fixed::FIXED_MAX);
        assert(max_spec(rest) == crate::fixed::FIXED_MIN);
    } else {
        lemma_min_is_least(rest);
        let a = choose|a: int| 0 <= a < rest.len() && rest[a] == min_spec(rest) as i64;
        assert(samples[a] == rest[a]);
        let b = choose|b: int| 0 <= b < rest.len() && rest[b] == max_spec(rest) as i64;
        assert(samples[b] == rest[b]);
        assert forall|k: int| 0 <= k < samples.len() implies min_spec(samples)
            <= #[trigger] samples[k] && max_spec(samples) >= samples[k] by {
            if k < n {
                assert(rest[k] == samples[k]);
            }
        }
    }
}

/// The value at `x` of the step function with the control points
/// `est_dist`: that of the last point at or before `x`, and zero where `x`
/// lies before every point.
pub fn ks_evaluate_estimated_cdf(est_dist: &Vec<(Fixed, Fixed)>, x: &Fixed) -> (y: Fixed)
    ensures
        y == step_value(est_dist@, *x as int),
{
    let n: usize = est_dist.len();
    let mut y: Fixed = 0;
    let mut i: usize = 0;
    assert(est_dist@.take(0) =~= Seq::<(i64, i64)>::empty());
    while i < n
        invariant
            i <= n,
            n == est_dist@.len(),
            y == step_value(est_dist@.take(i as int), *x as int),
        decreases n - i,
    {
        proof {
            assert(est_dist@.take(i as int + 1).drop_last() =~= est_dist@.take(i as int));
        }
        if est_dist[i].0 <= *x {
            y = est_dist[i].1;
        }
        i += 1;
    }
    proof {
        assert(est_dist@.take(n as int) =~= est_dist@);
    }
    y
}

/// The `i`-th point of the grid on which the distance is taken: the least
/// sample plus `i` thousandths of the distance to the greatest, which is
/// taken exactly however far apart the two lie.
pub open spec fn ks_grid_point(samples: Seq<i64>, i: int) -> int {
    let low = min_spec(samples);
    low + round_ratio((max_spec(samples) - low) * i, KS_NUM_STEPS as int)
}

/// The point `i` thousandths of the way from `low` to `high`.
pub fn ks_grid(low: Fixed, high: Fixed, i: usize) -> (x: Fixed)
    requires
        low <= high,
        i <= KS_NUM_STEPS,
    ensures
        x == low + round_ratio((high - low) * i, KS_NUM_STEPS as int),
        low <= x <= high,
{
    let span: u128 = (high as i128 - low as i128) as u128;
    proof {
        assert(0 <= span * i <= span * 1000 && span * 1000 <= 0x1_0000_0000_0000_0000 * 1000)
            by (nonlinear_arith)
            requires
                0 <= span <= 0x1_0000_0000_0000_0000,
                0 <= i <= 1000,
        ;
        lemma_round_ratio_nearest(span * i, 1000);
        lemma_round_ratio_monotone(span * i, span * 1000, 1000);
        lemma_round_ratio_exact(span as int, 1000);
    }
    let travelled: u128 = round_ratio_wide(span * (i as u128), KS_NUM_STEPS as u128);
    (low as i128 + travelled as i128) as i64
}

/// The gap between the model and the empirical distribution function at
/// the `i`-th grid point.
pub open spec fn ks_gap<D: ContinuousProbabilityDistribution>(
    dist: D,
    samples: Seq<i64>,
    i: int,
) -> int {
    let x = ks_grid_point(samples, i);
    clamp(abs_int(fx_sub_spec(dist.spec_cdf(x), empirical_cdf_spec(samples, x))))
}

/// The greatest gap over the grid points `1` to `i`.
pub open spec fn ks_greatest_gap<D: ContinuousProbabilityDistribution>(
    dist: D,
    samples: Seq<i64>,
    i: nat,
) -> int
    decreases i,
{
    if i == 0 {
        0
    } else {
        let rest = ks_greatest_gap(dist, samples, (i - 1) as nat);
        let gap = ks_gap(dist, samples, i as int);
        if gap > rest {
            gap
        } else {
            rest
        }
    }
}

/// The Kolmogorov-Smirnov distance of one or more `samples` from `dist`,
/// on the grid.
pub open spec fn ks_distance_spec<D: ContinuousProbabilityDistribution>(
    dist: D,
    samples: Seq<i64>,
) -> int {
    ks_greatest_gap(dist, samples, (KS_NUM_STEPS - 1) as nat)
}

/// The distance between the distribution function of `dist` and the
/// empirical distribution function of `samples`: the greatest absolute
/// difference of the two at the inner points of a grid of [`KS_NUM_STEPS`]
/// intervals from the least sample to the greatest. This approximates the
/// Kolmogorov-Smirnov statistic from below, within the grid's resolution.
/// There must be at least one sample.
pub fn ks_distance<D: ContinuousProbabilityDistribution>(dist: &D, samples: &Vec<Fixed>) -> (d:
    Fixed)
    requires
        samples@.len() > 0,
    ensures
        d == ks_distance_spec(*dist, samples@),
        d >= 0,
{
    let low: Fixed = min_of(samples);
    let high: Fixed = max_of(samples);
    proof {
        lemma_min_is_least(samples@);
    }
    let mut greatest: Fixed = 0;
    let mut i: usize = 1;
    while i < KS_NUM_STEPS
        invariant
            1 <= i <= KS_NUM_STEPS,
            low == min_spec(samples@),
            high == max_spec(samples@),
            low <= high,
            greatest == ks_greatest_gap(*dist, samples@, (i - 1) as nat),
            greatest >= 0,
        decreases KS_NUM_STEPS - i,
    {
        let x: Fixed = ks_grid(low, high, i);
        let gap: Fixed = fx_abs(fx_sub(dist.cdf(x), empirical_cdf(samples, x)));
        if gap > greatest {
            greatest = gap;
        }
        i += 1;
    }
    greatest
}

/// Whether `dist` fits the one or more `samples`: whether their distance
/// is below [`KS_EPSILON`].
pub fn ks_validate_continuous_cdf<D: ContinuousProbabilityDistribution>(
    dist: &D,
    samples: &Vec<Fixed>,
) -> (fits: bool)
    requires
        samples@.len() > 0,
    ensures
        fits == (ks_distance_spec(*dist, samples@) < KS_EPSILON),
{
    ks_distance(dist, samples) < KS_EPSILON
}

/// At and above the least sample, the step function through the control
/// points of a sample is its empirical distribution function.
pub proof fn law_step_function_is_empirical(samples: Seq<i64>, cdf: Seq<(i64, i64)>, x: int)
    requires
        forall|i: int, j: int|
            #![trigger cdf[i], cdf[j]]
            0 <= i < j < cdf.len() ==> cdf[i].0 < cdf[j].0,
        forall|i: int| 0 <= i < cdf.len() ==> samples.contains((#[trigger] cdf[i]).0),
        forall|k: int| 0 <= k < samples.len() ==> is_control_point(cdf, #[trigger] samples[k]),
        forall|i: int|
            0 <= i < cdf.len() ==> (#[trigger] cdf[i]).1 == empirical_cdf_spec(
                samples,
                cdf[i].0 as int,
            ),
    ensures
        step_value(cdf, x) == empirical_cdf_spec(samples, x),
    decreases cdf.len(),
{
    if cdf.len() == 0 {
        assert(samples.len() == 0) by {
            if samples.len() > 0 {
                assert(is_control_point(cdf, samples[0]));
            }
        }
        assert(fx_ratio_spec(0, 0) == 0);
    } else {
        let n = cdf.len() - 1;
        assert(cdf.last() == cdf[n]);
        if cdf[n].0 <= x {
            // no sample lies between the last control point and x
            assert forall|k: int| 0 <= k < samples.len() implies ((#[trigger] samples[k] <= cdf[n].0)
                == (samples[k] <= x)) by {
                assert(is_control_point(cdf, samples[k]));
                let i = choose|i: int| 0 <= i < cdf.len() && (#[trigger] cdf[i]).0 == samples[k];
                if i < n {
                    assert(cdf[i].0 < cdf[n].0);
                }
            }
            lemma_count_le_same(samples, cdf[n].0 as int, x);
        } else {
            lemma_step_below(samples, cdf, x, n);
        }
    }
}

/// Below the control point at `m`, only the points before it count, both
/// for the step function and for the samples.
proof fn lemma_step_below(samples: Seq<i64>, cdf: Seq<(i64, i64)>, x: int, m: int)
    requires
        0 <= m < cdf.len(),
        forall|i: int, j: int|
            #![trigger cdf[i], cdf[j]]
            0 <= i < j < cdf.len() ==> cdf[i].0 < cdf[j].0,
        forall|i: int| 0 <= i < cdf.len() ==> samples.contains((#[trigger] cdf[i]).0),
        forall|k: int| 0 <= k < samples.len() ==> is_control_point(cdf, #[trigger] samples[k]),
        forall|i: int|
            0 <= i < cdf.len() ==> (#[trigger] cdf[i]).1 == empirical_cdf_spec(
                samples,
                cdf[i].0 as int,
            ),
        forall|i: int| m <= i < cdf.len() ==> (#[trigger] cdf[i]).0 > x,
    ensures
        step_value(cdf.take(m + 1), x) == empirical_cdf_spec(samples, x),
        step_value(cdf, x) == step_value(cdf.take(m + 1), x),
    decreases m,
{
    lemma_step_skips(cdf, x, m + 1);
    let head = cdf.take(m + 1);
    assert(head.last() == cdf[m]);
    assert(head.drop_last() =~= cdf.take(m));
    if m == 0 {
        assert(cdf.take(0) =~= Seq::<(i64, i64)>::empty());
        // every sample is a control point, and every control point exceeds x
        assert forall|k: int| 0 <= k < samples.len() implies !(#[trigger] samples[k] <= x) by {
            assert(is_control_point(cdf, samples[k]));
            let i = choose|i: int| 0 <= i < cdf.len() && (#[trigger] cdf[i]).0 == samples[k];
        }
        lemma_count_le_none(samples, x);
        lemma_ratio_of_zero(samples.len() as int);
        assert(step_value(head.drop_last(), x) == 0);
        assert(step_value(head, x) == 0);
        assert(empirical_cdf_spec(samples, x) == 0);
    } else {
        if cdf[m - 1].0 > x {
            lemma_step_below(samples, cdf, x, m - 1);
            assert(cdf.take(m) =~= cdf.take((m - 1) + 1));
            assert(step_value(head, x) == step_value(cdf.take(m), x));
        } else {
            let prefix = cdf.take(m);
            assert(prefix.last() == cdf[m - 1]);
            assert forall|k: int| 0 <= k < samples.len() implies ((#[trigger] samples[k] <= cdf[m
                - 1].0) == (samples[k] <= x)) by {
                assert(is_control_point(cdf, samples[k]));
                let i = choose|i: int| 0 <= i < cdf.len() && (#[trigger] cdf[i]).0 == samples[k];
                if i < m - 1 {
                    assert(cdf[i].0 < cdf[m - 1].0);
                } else if i > m - 1 {
                    assert(cdf[m - 1].0 < cdf[i].0);
                    assert(cdf[i].0 > x);
                }
            }
            lemma_count_le_same(samples, cdf[m - 1].0 as int, x);
            assert(step_value(head, x) == step_value(prefix, x));
            assert(step_value(prefix, x) == cdf[m - 1].1);
        }
    }
}

/// Control points beyond `x` at the end of the list do not change the step
/// function at `x`.
proof fn lemma_step_skips(cdf: Seq<(i64, i64)>, x: int, m: int)
    requires
        0 <= m <= cdf.len(),
        forall|i: int| m - 1 <= i < cdf.len() && 0 <= i ==> (#[trigger] cdf[i]).0 > x,
    ensures
        step_value(cdf, x) == step_value(cdf.take(m), x),
    decreases cdf.len() - m,
{
    if m == cdf.len() {
        assert(cdf.take(m) =~= cdf);
    } else {
        let n = cdf.len() - 1;
        assert(cdf.last() == cdf[n]);
        let rest = cdf.drop_last();
        assert forall|i: int| m - 1 <= i < rest.len() && 0 <= i implies (#[trigger] rest[i]).0
            > x by {
            assert(rest[i] == cdf[i]);
        }
        lemma_step_skips(rest, x, m);
        assert(rest.take(m) =~= cdf.take(m));
    }
}

/// No sample at or below `x` gives a count of zero.
proof fn lemma_count_le_none(samples: Seq<i64>, x: int)
    requires
        forall|k: int| 0 <= k < samples.len() ==> !(#[trigger] samples[k] <= x),
    ensures
        count_le(samples, x) == 0,
    decreases samples.len(),
{
    if samples.len() > 0 {
        let rest = samples.drop_last();
        assert forall|k: int| 0 <= k < rest.len() implies !(#[trigger] rest[k] <= x) by {
            assert(rest[k] == samples[k]);
        }
        lemma_count_le_none(rest, x);
        assert(samples.last() == samples[samples.len() - 1]);
    }
}

/// Zero divided by anything is zero.
proof fn lemma_ratio_of_zero(n: int)
    ensures
        fx_ratio_spec(0, n) == 0,
{
    if n > 0 {
        crate::fixed::lemma_round_ratio_nearest(0, n);
        assert(0 * ONE == 0);
    } else if n < 0 {
        crate::fixed::lemma_round_ratio_nearest(0, -n);
        assert(0 * ONE == 0);
    }
}

} // verus!
