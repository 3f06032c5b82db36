//! The entropy of a decision between candidate models, from the errors
//! with which each fits the data.

use crate::discrete_distribution::{
    valid_probabilities, DiscreteProbabilityDistribution, DistributionError,
    MAX_COUNTED_OUTCOMES, TOLERANCE,
};
use crate::discrete_information::{discrete_entropy, entropy_spec};
use crate::fixed::{round_ratio, round_ratio_wide, Fixed};
use crate::information_unit::InformationUnit;
use crate::softmax::{law_softmax_is_a_distribution, softmax_wide, softmax_wide_spec};
use vstd::prelude::*;

verus! {

/// One, in the units of `10^-30` in which a quotient of two fixed-point
/// numbers is taken before it is rounded.
pub const ONE_SQUARED: i128 = 1_000_000_000_000_000_000_000_000_000_000;

/// The pseudo-likelihood of a model with the error `e`, as a wide number in
/// units of `10^-15`: one over the error plus `10^-10`, rounded to the
/// nearest unit and not cut to the number range. Where error plus `10^-10`
/// is zero it is twice the greatest value that a positive sum can give.
pub open spec fn likelihood_spec(e: int) -> int {
    let d = e + TOLERANCE;
    if d > 0 {
        round_ratio(ONE_SQUARED as int, d)
    } else if d == 0 {
        2 * ONE_SQUARED
    } else {
        -round_ratio(ONE_SQUARED as int, -d)
    }
}

/// The pseudo-likelihood of each model.
pub open spec fn likelihoods_spec(errors: Seq<i64>) -> Seq<i128> {
    Seq::new(errors.len(), |i: int| likelihood_spec(errors[i] as int) as i128)
}

/// The belief in each model: the softmax of the pseudo-likelihoods.
pub open spec fn beliefs_spec(errors: Seq<i64>) -> Seq<i64> {
    softmax_wide_spec(likelihoods_spec(errors))
}

/// The pseudo-likelihood of a model with the error `e`.
pub fn likelihood(e: Fixed) -> (l: i128)
    ensures
        l == likelihood_spec(e as int),
        -2 * ONE_SQUARED <= l <= 2 * ONE_SQUARED,
{
    let d: i128 = e as i128 + TOLERANCE as i128;
    if d > 0 {
        let q: u128 = round_ratio_wide(ONE_SQUARED as u128, d as u128);
        proof {
            crate::fixed::lemma_round_ratio_nearest(ONE_SQUARED as int, d as int);
            assert(q <= 2 * ONE_SQUARED) by (nonlinear_arith)
                requires
                    -d <= 2 * (ONE_SQUARED - d * q) <= d,
                    d >= 1,
                    q >= 0,
                    ONE_SQUARED == 1_000_000_000_000_000_000_000_000_000_000,
            ;
        }
        q as i128
    } else if d == 0 {
        2 * ONE_SQUARED
    } else {
        let q: u128 = round_ratio_wide(ONE_SQUARED as u128, (-d) as u128);
        proof {
            crate::fixed::lemma_round_ratio_nearest(ONE_SQUARED as int, -d as int);
            assert(q <= 2 * ONE_SQUARED) by (nonlinear_arith)
                requires
                    -(-d) <= 2 * (ONE_SQUARED - (-d) * q) <= -d,
                    -d >= 1,
                    q >= 0,
                    ONE_SQUARED == 1_000_000_000_000_000_000_000_000_000_000,
            ;
        }
        -(q as i128)
    }
}

/// The ambiguity of the choice between models that fit the data with the
/// given errors: each error becomes the pseudo-likelihood `1 / (e + 10^-10)`,
/// the softmax of these is the belief in each model, and the result is the
/// entropy of that belief, in bits. The pseudo-likelihoods are held as wide
/// numbers, so that small errors are told apart however large their
/// reciprocals are. Succeeds for at least one and fewer than two hundred
/// thousand models; fails where the beliefs are not a valid distribution,
/// as for no models.
pub fn compute_decision_entropy(estimation_errors: &Vec<Fixed>) -> (r: Result<
    InformationUnit,
    DistributionError,
>)
    ensures
        ({
            let beliefs = beliefs_spec(estimation_errors@);
            match r {
                Ok(entropy) => valid_probabilities(beliefs) && entropy == InformationUnit::Bit(
                    entropy_spec(beliefs) as i64,
                ),
                Err(DistributionError::TooLarge) => beliefs.len()
                    > MAX_COUNTED_OUTCOMES,
                Err(DistributionError::InvalidProbability) => beliefs.len()
                    <= MAX_COUNTED_OUTCOMES && !valid_probabilities(beliefs),
                Err(_) => false,
            }
        }),
        0 < estimation_errors@.len() < 200_000 ==> r is Ok,
{
    let n: usize = estimation_errors.len();
    let mut likelihoods: Vec<i128> = Vec::new();
    let mut i: usize = 0;
    while i < n
        invariant
            i <= n,
            n == estimation_errors@.len(),
            likelihoods@.len() == i,
            forall|k: int|
                0 <= k < i ==> #[trigger] likelihoods@[k] == likelihoods_spec(estimation_errors@)[k],
        decreases n - i,
    {
        likelihoods.push(likelihood(estimation_errors[i]));
        i += 1;
    }
    assert(likelihoods@ =~= likelihoods_spec(estimation_errors@));
    let beliefs: Vec<Fixed> = softmax_wide(&likelihoods);
    proof {
        if 0 < n < 200_000 {
            law_softmax_is_a_distribution(likelihoods@);
        }
    }
    match DiscreteProbabilityDistribution::multinomial(beliefs) {
        Ok(decision) => Ok(discrete_entropy(&decision)),
        Err(e) => Err(e),
    }
}

} // verus!
