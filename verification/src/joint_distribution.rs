//! The joint distribution of independent variables.

use crate::cartesian_product::{
    cartesian_product, checked_product_len, product_len, product_tuple, sizes_of, views,
};
use crate::discrete_distribution::{
    valid_probabilities, DiscreteProbabilityDistribution, DistributionError,
};
use crate::fixed::{fx_mul, fx_mul_spec, Fixed, ONE};
use crate::function::copy_of;
use vstd::prelude::*;

verus! {

/// The outcomes of each distribution, in order.
pub open spec fn outcome_lists<T>(dists: Seq<DiscreteProbabilityDistribution<T>>) -> Seq<Seq<T>> {
    Seq::new(dists.len(), |j: int| dists[j].spec_outcomes())
}

/// The probabilities of each distribution, in order.
pub open spec fn probability_lists<T>(dists: Seq<DiscreteProbabilityDistribution<T>>) -> Seq<
    Seq<i64>,
> {
    Seq::new(dists.len(), |j: int| dists[j].spec_probabilities())
}

/// The fixed-point product of `factors`, taken from the left, starting from
/// one.
pub open spec fn product_of(factors: Seq<i64>) -> int
    decreases factors.len(),
{
    if factors.len() == 0 {
        ONE as int
    } else {
        fx_mul_spec(product_of(factors.drop_last()), factors.last() as int)
    }
}

/// The number of outcomes of the joint distribution.
pub open spec fn joint_len<T>(dists: Seq<DiscreteProbabilityDistribution<T>>) -> int {
    product_len(sizes_of(outcome_lists(dists)))
}

/// The probabilities of the joint distribution: at index `i` the product of
/// the probabilities that the mixed-radix digits of `i` select.
pub open spec fn joint_probabilities<T>(dists: Seq<DiscreteProbabilityDistribution<T>>) -> Seq<
    i64,
> {
    Seq::new(
        joint_len(dists) as nat,
        |i: int| product_of(product_tuple(probability_lists(dists), i)) as i64,
    )
}

/// The fixed-point product of `factors`.
pub fn product(factors: &Vec<Fixed>) -> (r: Fixed)
    ensures
        r == product_of(factors@),
{
    let mut r: Fixed = ONE;
    let mut j: usize = 0;
    assert(factors@.take(0) =~= Seq::<i64>::empty());
    while j < factors.len()
        invariant
            j <= factors@.len(),
            r == product_of(factors@.take(j as int)),
        decreases factors@.len() - j,
    {
        proof {
            assert(factors@.take(j as int + 1).drop_last() =~= factors@.take(j as int));
        }
        r = fx_mul(r, factors[j]);
        j += 1;
    }
    proof {
        assert(factors@.take(factors@.len() as int) =~= factors@);
    }
    r
}

/// The joint distribution of independent variables with the given
/// distributions. Its outcomes are the tuples of the cartesian product of
/// their outcomes; the probability of a tuple is the product of the
/// probabilities of its members.
pub fn joint_distribution<T: Copy>(dists: &Vec<DiscreteProbabilityDistribution<T>>) -> (r: Result<
    DiscreteProbabilityDistribution<Vec<T>>,
    DistributionError,
>)
    ensures
        match r {
            Ok(joint) => {
                &&& joint_len(dists@) <= usize::MAX
                &&& joint.valid()
                &&& joint.spec_probabilities() == joint_probabilities(dists@)
                &&& joint.spec_outcomes().len() == joint_len(dists@)
                &&& forall|i: int|
                    0 <= i < joint_len(dists@) ==> (#[trigger] joint.spec_outcomes()[i])@
                        == product_tuple(outcome_lists(dists@), i)
            },
            Err(DistributionError::TooLarge) => joint_len(dists@) > usize::MAX,
            Err(DistributionError::InvalidProbability) => {
                &&& joint_len(dists@) <= usize::MAX
                &&& !valid_probabilities(joint_probabilities(dists@))
            },
            Err(_) => false,
        },
{
    let k: usize = dists.len();
    let mut outcomes: Vec<Vec<T>> = Vec::new();
    let mut probabilities: Vec<Vec<Fixed>> = Vec::new();
    let mut j: usize = 0;
    while j < k
        invariant
            j <= k,
            k == dists@.len(),
            outcomes@.len() == j,
            probabilities@.len() == j,
            forall|m: int| 0 <= m < j ==> (#[trigger] outcomes@[m])@ == dists@[m].spec_outcomes(),
            forall|m: int|
                0 <= m < j ==> (#[trigger] probabilities@[m])@ == dists@[m].spec_probabilities(),
            forall|m: int| 0 <= m < j ==> (#[trigger] dists@[m]).valid(),
        decreases k - j,
    {
        outcomes.push(copy_of(dists[j].outcomes_ref()));
        probabilities.push(copy_of(dists[j].probabilities_ref()));
        j += 1;
    }
    proof {
        assert(views(outcomes@) =~= outcome_lists(dists@));
        assert(views(probabilities@) =~= probability_lists(dists@));
        assert(sizes_of(views(probabilities@)) =~= sizes_of(views(outcomes@)));
    }
    let total: usize = match checked_product_len(&outcomes) {
        Some(total) => total,
        None => {
            return Err(DistributionError::TooLarge);
        },
    };
    let joint_outcomes: Vec<Vec<T>> = cartesian_product(&outcomes);
    let tuples: Vec<Vec<Fixed>> = cartesian_product(&probabilities);
    let mut joint: Vec<Fixed> = Vec::new();
    let mut i: usize = 0;
    while i < total
        invariant
            i <= total,
            total == tuples@.len(),
            total == joint_len(dists@),
            views(probabilities@) == probability_lists(dists@),
            forall|m: int|
                0 <= m < total ==> (#[trigger] tuples@[m])@ == product_tuple(
                    views(probabilities@),
                    m,
                ),
            joint@.len() == i,
            forall|m: int|
                0 <= m < i ==> #[trigger] joint@[m] == product_of(
                    product_tuple(probability_lists(dists@), m),
                ),
        decreases total - i,
    {
        joint.push(product(&tuples[i]));
        i += 1;
    }
    proof {
        assert(joint@ =~= joint_probabilities(dists@));
    }
    DiscreteProbabilityDistribution::new(joint_outcomes, joint)
}

} // verus!
