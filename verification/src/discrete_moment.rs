//! Moments of integer-valued discrete distributions.

use crate::discrete_distribution::DiscreteProbabilityDistribution;
use crate::fixed::{clamp, Fixed, ONE};
use crate::wide::{
    as_ints, in_wide_range, wide_mul, wide_mul_spec, wide_powi_signed, wide_powi_signed_spec,
    wide_sum, wide_total,
};
use vstd::prelude::*;

verus! {

/// For each outcome the `n`-th power of its distance from `center`, times
/// its probability, as wide numbers.
pub open spec fn moment_terms(
    outcomes: Seq<i32>,
    probabilities: Seq<i64>,
    n: int,
    center: int,
) -> Seq<int> {
    Seq::new(
        outcomes.len(),
        |k: int|
            wide_mul_spec(
                wide_powi_signed_spec(outcomes[k] * ONE - center, n),
                probabilities[k] as int,
            ),
    )
}

/// The `n`-th moment about `center` of the distribution with the given
/// outcomes and probabilities. The terms are summed exactly, and only the
/// sum is brought into the number range.
pub open spec fn moment_about_spec(
    outcomes: Seq<i32>,
    probabilities: Seq<i64>,
    n: int,
    center: int,
) -> int {
    clamp(wide_sum(moment_terms(outcomes, probabilities, n, center)))
}

/// The `n`-th moment about `center` of `dist`.
pub fn moment_about(n: i32, dist: &DiscreteProbabilityDistribution<i32>, center: Fixed) -> (r: Fixed)
    ensures
        r == moment_about_spec(
            dist.spec_outcomes(),
            dist.spec_probabilities(),
            n as int,
            center as int,
        ),
{
    let outcomes: &Vec<i32> = dist.outcomes_ref();
    let probabilities: &Vec<Fixed> = dist.probabilities_ref();
    let len: usize = outcomes.len();
    let mut terms: Vec<i128> = Vec::new();
    let mut k: usize = 0;
    while k < len
        invariant
            k <= len,
            len == outcomes@.len(),
            len == probabilities@.len(),
            terms@.len() == k,
            forall|j: int|
                0 <= j < k ==> in_wide_range(#[trigger] terms@[j] as int) && terms@[j]
                    == wide_mul_spec(
                    wide_powi_signed_spec(outcomes@[j] * ONE - center, n as int),
                    probabilities@[j] as int,
                ),
        decreases len - k,
    {
        let x: i128 = (outcomes[k] as i128) * (ONE as i128) - center as i128;
        terms.push(wide_mul(wide_powi_signed(x, n), probabilities[k] as i128));
        k += 1;
    }
    proof {
        assert(as_ints(terms@) =~= moment_terms(
            outcomes@,
            probabilities@,
            n as int,
            center as int,
        ));
    }
    wide_total(&terms)
}

/// The `n`-th moment of `dist`: the sum over its outcomes of the `n`-th
/// power of the outcome times its probability. A negative `n` takes the
/// reciprocal of the power.
pub fn discrete_moment(n: i32, dist: &DiscreteProbabilityDistribution<i32>) -> (r: Fixed)
    ensures
        r == moment_about_spec(dist.spec_outcomes(), dist.spec_probabilities(), n as int, 0),
{
    moment_about(n, dist, 0)
}

/// The `n`-th central moment of `dist`: its `n`-th moment about its mean.
pub fn discrete_central_moment(n: i32, dist: &DiscreteProbabilityDistribution<i32>) -> (r: Fixed)
    ensures
        r == moment_about_spec(
            dist.spec_outcomes(),
            dist.spec_probabilities(),
            n as int,
            moment_about_spec(dist.spec_outcomes(), dist.spec_probabilities(), 1, 0),
        ),
{
    let mean: Fixed = discrete_moment(1, dist);
    moment_about(n, dist, mean)
}

} // verus!
