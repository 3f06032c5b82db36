//! Information-theoretic measures of discrete distributions: entropy,
//! Kullback-Leibler and Jensen-Shannon divergence, mutual information.

use crate::discrete_distribution::{
    average_probabilities, discrete_average_distributions, outcome_union, pmf_in, union_outcomes,
    valid_probabilities, DiscreteProbabilityDistribution,
};
use crate::fixed::{
    clamp, fx_add_spec, fx_div, fx_div_spec, fx_mul, fx_mul_spec, fx_sub, fx_sub_spec, Fixed,
    FIXED_MAX, FIXED_MIN, ONE,
};
use crate::joint_distribution::{joint_distribution, joint_len, joint_probabilities};
use crate::fixed_log::{fx_log2, fx_log2_spec};
use crate::information_unit::InformationUnit;
use vstd::prelude::*;

verus! {

/// What one outcome of probability `p` adds to the sum `p * log2(p)`: zero
/// for a probability that is not positive.
pub open spec fn entropy_term(p: int) -> int {
    if p <= 0 {
        0
    } else {
        fx_mul_spec(p, fx_log2_spec(p))
    }
}

/// Sum of [`entropy_term`] over `probabilities`.
pub open spec fn entropy_sum(probabilities: Seq<i64>) -> int
    decreases probabilities.len(),
{
    if probabilities.len() == 0 {
        0
    } else {
        entropy_sum(probabilities.drop_last()) + entropy_term(probabilities.last() as int)
    }
}

/// The entropy, in bits, of a distribution with the given probabilities.
pub open spec fn entropy_spec(probabilities: Seq<i64>) -> int {
    clamp(-entropy_sum(probabilities))
}

/// Narrows a 128-bit sum to the number range, saturating at its bounds.
pub fn saturate(sum: i128) -> (r: Fixed)
    ensures
        r == clamp(sum as int),
{
    if sum > FIXED_MAX as i128 {
        FIXED_MAX
    } else if sum < FIXED_MIN as i128 {
        FIXED_MIN
    } else {
        sum as i64
    }
}

/// The entropy of `dist`, in bits: minus the sum of `p * log2(p)` over the
/// probabilities. A probability of zero adds exactly nothing.
pub fn discrete_entropy<T>(dist: &DiscreteProbabilityDistribution<T>) -> (r: InformationUnit)
    ensures
        r == InformationUnit::Bit(entropy_spec(dist.spec_probabilities()) as i64),
{
    let probabilities: &Vec<Fixed> = dist.probabilities_ref();
    let n: usize = probabilities.len();
    let mut sum: i128 = 0;
    let mut i: usize = 0;
    while i < n
        invariant
            i <= n,
            n == probabilities@.len(),
            sum == entropy_sum(probabilities@.take(i as int)),
            -0x8000_0000_0000_0000 * i <= sum <= 0x8000_0000_0000_0000 * i,
        decreases n - i,
    {
        let p: Fixed = probabilities[i];
        let term: Fixed = if p <= 0 {
            0
        } else {
            fx_mul(p, fx_log2(p))
        };
        proof {
            assert(probabilities@.take(i as int + 1).drop_last() =~= probabilities@.take(i as int));
        }
        sum = sum + term as i128;
        i += 1;
    }
    proof {
        assert(probabilities@.take(n as int) =~= probabilities@);
    }
    InformationUnit::Bit(saturate(-sum))
}

/// What an outcome adds to the divergence, where the first distribution
/// gives it the probability `p` and the second `q`:
/// `p * (log2(p) - log2(q))`, and zero for a `p` that is not positive. The
/// logarithm of the ratio is taken as a difference of logarithms, so that
/// no ratio has to fit the number range.
pub open spec fn divergence_term(p: int, q: int) -> int {
    if p <= 0 {
        0
    } else {
        fx_mul_spec(p, fx_sub_spec(fx_log2_spec(p), fx_log2_spec(q)))
    }
}

/// Sum of [`divergence_term`] over `points`.
pub open spec fn divergence_sum(
    xo: Seq<i32>,
    xp: Seq<i64>,
    yo: Seq<i32>,
    yp: Seq<i64>,
    points: Seq<i32>,
) -> int
    decreases points.len(),
{
    if points.len() == 0 {
        0
    } else {
        divergence_sum(xo, xp, yo, yp, points.drop_last()) + divergence_term(
            pmf_in(xo, xp, points.last()),
            pmf_in(yo, yp, points.last()),
        )
    }
}

/// At every one of `points` to which the first distribution gives a
/// positive probability, so does the second.
pub open spec fn divergence_finite(
    xo: Seq<i32>,
    xp: Seq<i64>,
    yo: Seq<i32>,
    yp: Seq<i64>,
    points: Seq<i32>,
) -> bool {
    forall|i: int|
        0 <= i < points.len() ==> (pmf_in(xo, xp, #[trigger] points[i]) > 0 ==> pmf_in(
            yo,
            yp,
            points[i],
        ) > 0)
}

/// The Kullback-Leibler divergence, in bits, of the first distribution from
/// the second, where it is finite.
pub open spec fn divergence_spec(xo: Seq<i32>, xp: Seq<i64>, yo: Seq<i32>, yp: Seq<i64>) -> Option<
    int,
> {
    let points = union_outcomes(xo, yo);
    if divergence_finite(xo, xp, yo, yp, points) {
        Some(clamp(divergence_sum(xo, xp, yo, yp, points)))
    } else {
        None
    }
}

/// The Kullback-Leibler divergence of `dist_x` from `dist_y`, in bits: the
/// sum, over the outcomes of either, of `P(x) * (log2 P(x) - log2 Q(x))`.
///
/// The divergence is infinite where `dist_y` gives no positive probability
/// to an outcome to which `dist_x` gives one; the result is then `None`.
pub fn discrete_kullback_leibler_divergence(
    dist_x: &DiscreteProbabilityDistribution<i32>,
    dist_y: &DiscreteProbabilityDistribution<i32>,
) -> (r: Option<InformationUnit>)
    ensures
        match divergence_spec(
            dist_x.spec_outcomes(),
            dist_x.spec_probabilities(),
            dist_y.spec_outcomes(),
            dist_y.spec_probabilities(),
        ) {
            Some(d) => r == Some(InformationUnit::Bit(d as i64)),
            None => r is None,
        },
{
    let ghost xo = dist_x.spec_outcomes();
    let ghost xp = dist_x.spec_probabilities();
    let ghost yo = dist_y.spec_outcomes();
    let ghost yp = dist_y.spec_probabilities();
    let points: Vec<i32> = outcome_union(dist_x, dist_y);
    let n: usize = points.len();
    let mut sum: i128 = 0;
    let mut i: usize = 0;
    assert(points@.take(0) =~= Seq::<i32>::empty());
    while i < n
        invariant
            i <= n,
            n == points@.len(),
            xo == dist_x.spec_outcomes(),
            xp == dist_x.spec_probabilities(),
            yo == dist_y.spec_outcomes(),
            yp == dist_y.spec_probabilities(),
            points@ == union_outcomes(xo, yo),
            sum == divergence_sum(xo, xp, yo, yp, points@.take(i as int)),
            -0x8000_0000_0000_0000 * i <= sum <= 0x8000_0000_0000_0000 * i,
            forall|k: int|
                0 <= k < i ==> (pmf_in(xo, xp, #[trigger] points@[k]) > 0 ==> pmf_in(
                    yo,
                    yp,
                    points@[k],
                ) > 0),
        decreases n - i,
    {
        let p: Fixed = dist_x.pmf(&points[i]);
        let q: Fixed = dist_y.pmf(&points[i]);
        if p > 0 && q <= 0 {
            proof {
                let bad = points@[i as int];
                assert(pmf_in(xo, xp, bad) > 0 && pmf_in(yo, yp, bad) <= 0);
            }
            return None;
        }
        let term: Fixed = if p <= 0 {
            0
        } else {
            fx_mul(p, fx_sub(fx_log2(p), fx_log2(q)))
        };
        proof {
            assert(points@.take(i as int + 1).drop_last() =~= points@.take(i as int));
        }
        sum = sum + term as i128;
        i += 1;
    }
    proof {
        assert(points@.take(n as int) =~= points@);
    }
    Some(InformationUnit::Bit(saturate(sum)))
}

/// The Jensen-Shannon divergence, in bits: the mean of the divergences of
/// the two distributions from their average. `None` where the average is
/// not a valid distribution or one of the two divergences is infinite.
pub open spec fn jensen_shannon_spec(
    xo: Seq<i32>,
    xp: Seq<i64>,
    yo: Seq<i32>,
    yp: Seq<i64>,
) -> Option<int> {
    let mo = union_outcomes(xo, yo);
    let mp = average_probabilities(xo, xp, yo, yp);
    if !valid_probabilities(mp) {
        None
    } else {
        match (divergence_spec(xo, xp, mo, mp), divergence_spec(yo, yp, mo, mp)) {
            (Some(a), Some(b)) => Some(fx_div_spec(fx_add_spec(a, b), 2 * ONE)),
            _ => None,
        }
    }
}

/// The Jensen-Shannon divergence of two distributions, in bits: the mean
/// of their Kullback-Leibler divergences from their average.
pub fn discrete_jensen_shannon_divergence(
    dist_x: &DiscreteProbabilityDistribution<i32>,
    dist_y: &DiscreteProbabilityDistribution<i32>,
) -> (r: Option<InformationUnit>)
    ensures
        match jensen_shannon_spec(
            dist_x.spec_outcomes(),
            dist_x.spec_probabilities(),
            dist_y.spec_outcomes(),
            dist_y.spec_probabilities(),
        ) {
            Some(d) => r == Some(InformationUnit::Bit(d as i64)),
            None => r is None,
        },
{
    let m: DiscreteProbabilityDistribution<i32> = match discrete_average_distributions(
        dist_x,
        dist_y,
    ) {
        Ok(m) => m,
        Err(_) => {
            return None;
        },
    };
    let a: InformationUnit = match discrete_kullback_leibler_divergence(dist_x, &m) {
        Some(a) => a,
        None => {
            return None;
        },
    };
    let b: InformationUnit = match discrete_kullback_leibler_divergence(dist_y, &m) {
        Some(b) => b,
        None => {
            return None;
        },
    };
    let total: InformationUnit = a.plus(b);
    Some(InformationUnit::Bit(fx_div(total.to_float(), 2 * ONE)))
}

/// The mutual information of two variables with the distributions `dist_x`
/// and `dist_y` and the joint distribution `joint`, in bits: the sum of the
/// two entropies less the entropy of the joint distribution.
pub fn mutual_information<A, B, C>(
    dist_x: &DiscreteProbabilityDistribution<A>,
    dist_y: &DiscreteProbabilityDistribution<B>,
    joint: &DiscreteProbabilityDistribution<C>,
) -> (r: InformationUnit)
    ensures
        r == InformationUnit::Bit(
            fx_sub_spec(
                fx_add_spec(
                    entropy_spec(dist_x.spec_probabilities()),
                    entropy_spec(dist_y.spec_probabilities()),
                ),
                entropy_spec(joint.spec_probabilities()),
            ) as i64,
        ),
{
    discrete_entropy(dist_x).plus(discrete_entropy(dist_y)).minus(discrete_entropy(joint))
}

/// The entropy, in bits, of the joint distribution of two independent
/// variables; `None` where that distribution is not valid.
pub fn joint_entropy(
    dist_x: DiscreteProbabilityDistribution<i32>,
    dist_y: DiscreteProbabilityDistribution<i32>,
) -> (r: Option<InformationUnit>)
    ensures
        ({
            let dists = seq![dist_x, dist_y];
            if joint_len(dists) <= usize::MAX && valid_probabilities(joint_probabilities(dists)) {
                r == Some(InformationUnit::Bit(entropy_spec(joint_probabilities(dists)) as i64))
            } else {
                r is None
            }
        }),
{
    let mut dists: Vec<DiscreteProbabilityDistribution<i32>> = Vec::new();
    dists.push(dist_x);
    dists.push(dist_y);
    proof {
        assert(dists@ =~= seq![dist_x, dist_y]);
    }
    match joint_distribution(&dists) {
        Ok(joint) => Some(discrete_entropy(&joint)),
        Err(_) => None,
    }
}

} // verus!
