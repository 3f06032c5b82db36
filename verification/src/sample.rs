//! Drawing samples: the uniform variate that a generator supplies, and
//! repeated sampling from a distribution.

use crate::continuous_distribution::{ContinuousProbabilityDistribution, Variates};
use crate::discrete_distribution::{sample_index_spec, DiscreteProbabilityDistribution};
use crate::fixed::{Fixed, ONE};
use rand::rngs::StdRng;
use rand::Rng;
use vstd::prelude::*;

verus! {

/// `rand::rngs::StdRng`, the standard generator of the rand crate. The
/// library hands it on and never looks inside.
#[verifier::external_type_specification]
#[verifier::external_body]
pub struct ExStdRng(rand::rngs::StdRng);

/// `Rng::gen_range` of the rand crate on the half-open range `0..bound`.
/// The generator returns a member of the range it is given, and panics on
/// an empty range, which a positive `bound` excludes. Nothing is claimed
/// about which member comes back, nor about the generator afterwards.
#[verifier::external_body]
fn uniform_below(rng: &mut StdRng, bound: i64) -> (u: i64)
    requires
        bound > 0,
    ensures
        0 <= u < bound,
{
    rng.gen_range(0..bound)
}

/// A draw from the uniform distribution on `[0, 1)`.
pub fn uniform_variate(rng: &mut StdRng) -> (u: Fixed)
    ensures
        0 <= u < ONE,
{
    uniform_below(rng, ONE)
}

impl<T: Clone> DiscreteProbabilityDistribution<T> {
    /// An outcome drawn at random: the one that [`Self::sample_at`] gives
    /// for a fresh uniform variate.
    pub fn sample(&self, rng: &mut StdRng) -> (r: T)
        ensures
            exists|u: i64|
                0 <= u < ONE && cloned::<T>(
                    self.spec_outcomes()[#[trigger] sample_index_spec(
                        self.spec_probabilities(),
                        u as int,
                    )],
                    r,
                ),
    {
        let u: Fixed = uniform_variate(rng);
        let r = self.sample_at(u);
        proof {
            assert(cloned::<T>(
                self.spec_outcomes()[sample_index_spec(self.spec_probabilities(), u as int)],
                r,
            ));
        }
        r
    }
}

/// Whether `x` is what sampling from `dist` gives for some uniform variate
/// of the unit interval.
pub open spec fn is_sample_of(dist: DiscreteProbabilityDistribution<i32>, x: i32) -> bool {
    exists|u: i64|
        0 <= u < ONE && x == dist.spec_outcomes()[#[trigger] sample_index_spec(
            dist.spec_probabilities(),
            u as int,
        )]
}

/// `n` outcomes drawn independently from `dist`, each the outcome that
/// [`DiscreteProbabilityDistribution::sample_at`] gives for a fresh uniform
/// variate.
pub fn discrete_sample(n: usize, dist: &DiscreteProbabilityDistribution<i32>, rng: &mut StdRng) -> (r:
    Vec<i32>)
    ensures
        r@.len() == n,
        forall|i: int| 0 <= i < n ==> is_sample_of(*dist, #[trigger] r@[i]),
{
    let outcomes: &Vec<i32> = dist.outcomes_ref();
    let mut samples: Vec<i32> = Vec::new();
    let mut i: usize = 0;
    while i < n
        invariant
            i <= n,
            samples@.len() == i,
            outcomes@ == dist.spec_outcomes(),
            forall|j: int| 0 <= j < i ==> is_sample_of(*dist, #[trigger] samples@[j]),
        decreases n - i,
    {
        let u: Fixed = uniform_variate(rng);
        let index: usize = dist.sample_index(u);
        let x: i32 = outcomes[index];
        proof {
            assert(x == dist.spec_outcomes()[sample_index_spec(
                dist.spec_probabilities(),
                u as int,
            )]);
        }
        samples.push(x);
        i += 1;
    }
    samples
}

/// The samples of `dist` that the given variates lead to, in order.
pub open spec fn samples_spec<D: ContinuousProbabilityDistribution>(
    dist: D,
    draws: Seq<Variates>,
) -> Seq<i64> {
    Seq::new(draws.len(), |i: int| dist.spec_sample(draws[i]) as i64)
}

/// One sample of `dist` for each entry of `draws`.
pub fn continuous_sample<D: ContinuousProbabilityDistribution>(dist: &D, draws: &Vec<Variates>) -> (r:
    Vec<Fixed>)
    ensures
        r@ == samples_spec(*dist, draws@),
{
    let mut samples: Vec<Fixed> = Vec::new();
    let mut i: usize = 0;
    while i < draws.len()
        invariant
            i <= draws@.len(),
            samples@.len() == i,
            forall|j: int| 0 <= j < i ==> #[trigger] samples@[j] == dist.spec_sample(draws@[j]),
        decreases draws@.len() - i,
    {
        samples.push(dist.sample(draws[i]));
        i += 1;
    }
    assert(samples@ =~= samples_spec(*dist, draws@));
    samples
}

} // verus!
