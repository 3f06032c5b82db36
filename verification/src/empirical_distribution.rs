//! Distributions built from data and from counting: the empirical
//! distribution of a sample, and the binomial distribution of a number of
//! trials.

use crate::continuous_testing::{fraction, is_control_point, ks_estimate_continuous_cdf};
use crate::discrete_convolution::counting_outcomes;
use crate::discrete_distribution::{
    valid_probabilities, DiscreteProbabilityDistribution, DistributionError,
};
use crate::fixed::{
    fx_mul, fx_mul_int, fx_mul_int_spec, fx_mul_spec, fx_powi, fx_powi_spec, fx_ratio_spec, fx_sub,
    Fixed, ONE,
};
use vstd::arithmetic::power2::{lemma2_to64, lemma_pow2_strictly_increases, lemma_pow2_unfold, pow2};
use vstd::prelude::*;

verus! {

/// How many entries of `samples` equal `x`.
pub open spec fn count_eq(samples: Seq<i32>, x: int) -> int
    decreases samples.len(),
{
    if samples.len() == 0 {
        0
    } else if samples.last() == x {
        count_eq(samples.drop_last(), x) + 1
    } else {
        count_eq(samples.drop_last(), x)
    }
}

/// What makes `outcomes` and `probabilities` the empirical distribution of
/// `samples`: the outcomes are the values among the samples, in increasing
/// order and once each, and the probability of each is the fraction of
/// samples that equal it.
pub open spec fn is_empirical(
    samples: Seq<i32>,
    outcomes: Seq<i32>,
    probabilities: Seq<i64>,
) -> bool {
    &&& outcomes.len() == probabilities.len()
    &&& forall|i: int, j: int|
        #![trigger outcomes[i], outcomes[j]]
        0 <= i < j < outcomes.len() ==> outcomes[i] < outcomes[j]
    &&& forall|i: int| 0 <= i < outcomes.len() ==> samples.contains(#[trigger] outcomes[i])
    &&& forall|k: int| 0 <= k < samples.len() ==> outcomes.contains(#[trigger] samples[k])
    &&& forall|i: int|
        0 <= i < outcomes.len() ==> #[trigger] probabilities[i] == fx_ratio_spec(
            count_eq(samples, outcomes[i] as int),
            samples.len() as int,
        )
}

/// How many entries of `samples` equal `x`.
pub fn count_equal(samples: &Vec<i32>, x: i32) -> (c: usize)
    ensures
        c == count_eq(samples@, x as int),
{
    let n: usize = samples.len();
    let mut c: usize = 0;
    let mut i: usize = 0;
    assert(samples@.take(0) =~= Seq::<i32>::empty());
    while i < n
        invariant
            i <= n,
            n == samples@.len(),
            c <= i,
            c == count_eq(samples@.take(i as int), x as int),
        decreases n - i,
    {
        proof {
            assert(samples@.take(i as int + 1).drop_last() =~= samples@.take(i as int));
        }
        if samples[i] == x {
            c += 1;
        }
        i += 1;
    }
    proof {
        assert(samples@.take(n as int) =~= samples@);
    }
    c
}

impl DiscreteProbabilityDistribution<i32> {
    /// The empirical distribution of `samples`: its outcomes are the values
    /// that occur among the samples, in increasing order, and the
    /// probability of each is its relative frequency. Fails where these
    /// frequencies are no valid probabilities, as for no samples.
    pub fn from_samples(samples: &Vec<i32>) -> (r: Result<Self, DistributionError>)
        ensures
            match r {
                Ok(dist) => dist.valid() && is_empirical(
                    samples@,
                    dist.spec_outcomes(),
                    dist.spec_probabilities(),
                ),
                Err(e) => exists|outcomes: Seq<i32>, probabilities: Seq<i64>|
                    {
                        &&& #[trigger] is_empirical(samples@, outcomes, probabilities)
                        &&& e == DistributionError::InvalidProbability
                        &&& !valid_probabilities(probabilities)
                    },
            },
    {
        let n: usize = samples.len();
        let mut wide: Vec<i64> = Vec::new();
        let mut i: usize = 0;
        while i < n
            invariant
                i <= n,
                n == samples@.len(),
                wide@.len() == i,
                forall|k: int| 0 <= k < i ==> #[trigger] wide@[k] == samples@[k],
            decreases n - i,
        {
            wide.push(samples[i] as i64);
            i += 1;
        }
        let points: Vec<(i64, i64)> = ks_estimate_continuous_cdf(&wide);
        let mut outcomes: Vec<i32> = Vec::new();
        let mut probabilities: Vec<Fixed> = Vec::new();
        let mut j: usize = 0;
        while j < points.len()
            invariant
                j <= points@.len(),
                n == samples@.len(),
                wide@.len() == n,
                forall|k: int| 0 <= k < n ==> #[trigger] wide@[k] == samples@[k],
                forall|a: int| 0 <= a < points@.len() ==> wide@.contains((#[trigger] points@[a]).0),
                outcomes@.len() == j,
                probabilities@.len() == j,
                forall|a: int| 0 <= a < j ==> #[trigger] outcomes@[a] == points@[a].0,
                forall|a: int|
                    0 <= a < j ==> #[trigger] probabilities@[a] == fx_ratio_spec(
                        count_eq(samples@, outcomes@[a] as int),
                        n as int,
                    ),
            decreases points@.len() - j,
        {
            let value: i64 = points[j].0;
            proof {
                assert(wide@.contains(points@[j as int].0));
                let k = choose|k: int| 0 <= k < wide@.len() && wide@[k] == value;
                assert(wide@[k] == samples@[k]);
            }
            let x: i32 = value as i32;
            outcomes.push(x);
            probabilities.push(fraction(count_equal(samples, x), n));
            j += 1;
        }
        proof {
            assert forall|a: int, b: int|
                #![trigger outcomes@[a], outcomes@[b]]
                0 <= a < b < outcomes@.len() implies outcomes@[a] < outcomes@[b] by {
                assert(points@[a].0 < points@[b].0);
            }
            assert forall|a: int| 0 <= a < outcomes@.len() implies samples@.contains(
                #[trigger] outcomes@[a],
            ) by {
                assert(wide@.contains(points@[a].0));
                let k = choose|k: int| 0 <= k < wide@.len() && wide@[k] == points@[a].0;
                assert(wide@[k] == samples@[k]);
            }
            assert forall|k: int| 0 <= k < samples@.len() implies outcomes@.contains(
                #[trigger] samples@[k],
            ) by {
                assert(is_control_point(points@, wide@[k]));
                let a = choose|a: int| 0 <= a < points@.len() && (#[trigger] points@[a]).0 == wide@[k];
                assert(outcomes@[a] == samples@[k]);
            }
            assert(is_empirical(samples@, outcomes@, probabilities@));
        }
        DiscreteProbabilityDistribution::new(outcomes, probabilities)
    }
}

/// The number of ways to choose `k` of `n` things.
pub open spec fn binomial_coefficient(n: nat, k: nat) -> nat
    decreases n,
{
    if k == 0 {
        1
    } else if n == 0 {
        0
    } else {
        binomial_coefficient((n - 1) as nat, (k - 1) as nat) + binomial_coefficient(
            (n - 1) as nat,
            k,
        )
    }
}

/// The probability of `k` successes in `n` trials that each succeed with
/// probability `p`: `p^k * (1 - p)^(n - k)` times the number of ways to
/// choose the successful trials.
pub open spec fn binomial_probability_spec(n: nat, p: int, k: nat) -> int {
    fx_mul_int_spec(
        fx_mul_spec(fx_powi_spec(p, k), fx_powi_spec(ONE - p, (n - k) as nat)),
        binomial_coefficient(n, k) as int,
    )
}

/// The probabilities of `0, 1, ..., n` successes.
pub open spec fn binomial_probabilities_spec(n: nat, p: int) -> Seq<i64> {
    Seq::new(n + 1, |k: int| binomial_probability_spec(n, p, k as nat) as i64)
}

/// The largest number of trials of [`DiscreteProbabilityDistribution::binomial_trials`].
pub const MAX_TRIALS: u32 = 12;

/// A number of ways to choose from `n` things is at most two to the power
/// `n`, and zero for more than `n`.
pub proof fn lemma_binomial_coefficient_bound(n: nat, k: nat)
    ensures
        binomial_coefficient(n, k) <= pow2(n),
        k > n ==> binomial_coefficient(n, k) == 0,
    decreases n,
{
    lemma2_to64();
    if k == 0 {
        vstd::arithmetic::power2::lemma_pow2_pos(n);
    } else if n == 0 {
    } else {
        lemma_binomial_coefficient_bound((n - 1) as nat, (k - 1) as nat);
        lemma_binomial_coefficient_bound((n - 1) as nat, k);
        lemma_pow2_unfold(n);
    }
}

/// The numbers of ways to choose `0, 1, ..., n` of `n` things.
pub fn binomial_coefficients(n: u32) -> (row: Vec<u64>)
    requires
        n <= MAX_TRIALS,
    ensures
        row@.len() == n + 1,
        forall|k: int| 0 <= k <= n ==> #[trigger] row@[k] == binomial_coefficient(n as nat, k as nat),
        forall|k: int| 0 <= k <= n ==> #[trigger] row@[k] <= 4096,
{
    let mut row: Vec<u64> = Vec::new();
    row.push(1);
    let mut m: u32 = 0;
    proof {
        lemma2_to64();
    }
    while m < n
        invariant
            m <= n <= MAX_TRIALS,
            row@.len() == m + 1,
            forall|k: int|
                0 <= k <= m ==> #[trigger] row@[k] == binomial_coefficient(m as nat, k as nat),
        decreases n - m,
    {
        let mut next: Vec<u64> = Vec::new();
        next.push(1);
        let mut k: u32 = 1;
        while k <= m + 1
            invariant
                1 <= k <= m + 2,
                m < MAX_TRIALS,
                row@.len() == m + 1,
                forall|j: int|
                    0 <= j <= m ==> #[trigger] row@[j] == binomial_coefficient(m as nat, j as nat),
                next@.len() == k,
                forall|j: int|
                    0 <= j < k ==> #[trigger] next@[j] == binomial_coefficient(
                        (m + 1) as nat,
                        j as nat,
                    ),
            decreases m + 2 - k,
        {
            proof {
                lemma_binomial_coefficient_bound(m as nat, k as nat);
                lemma_binomial_coefficient_bound(m as nat, (k - 1) as nat);
                lemma2_to64();
                if m < 12 {
                    lemma_pow2_strictly_increases(m as nat, 12);
                }
            }
            let upper: u64 = if k <= m {
                row[k as usize]
            } else {
                0
            };
            next.push(row[(k - 1) as usize] + upper);
            k += 1;
        }
        row = next;
        m += 1;
    }
    proof {
        assert forall|k: int| 0 <= k <= n implies #[trigger] row@[k] <= 4096 by {
            lemma_binomial_coefficient_bound(n as nat, k as nat);
            lemma2_to64();
            if n < 12 {
                lemma_pow2_strictly_increases(n as nat, 12);
            }
        }
    }
    row
}

impl DiscreteProbabilityDistribution<i32> {
    /// The distribution of the number of successes in `n` independent
    /// trials that each succeed with probability `p`, from the binomial
    /// coefficients. At most twelve trials are supported, and `p` must lie
    /// between zero and one.
    pub fn binomial_trials(n: u32, p: Fixed) -> (r: Result<Self, DistributionError>)
        ensures
            match r {
                Ok(dist) => {
                    &&& n <= MAX_TRIALS && 0 <= p <= ONE
                    &&& dist.valid()
                    &&& dist.spec_outcomes() == counting_outcomes((n + 1) as nat)
                    &&& dist.spec_probabilities() == binomial_probabilities_spec(
                        n as nat,
                        p as int,
                    )
                },
                Err(DistributionError::DegenerateParameter) => n > MAX_TRIALS || p < 0 || p > ONE,
                Err(DistributionError::InvalidProbability) => {
                    &&& n <= MAX_TRIALS && 0 <= p <= ONE
                    &&& !valid_probabilities(binomial_probabilities_spec(n as nat, p as int))
                },
                Err(_) => false,
            },
    {
        if n > MAX_TRIALS || p < 0 || p > ONE {
            return Err(DistributionError::DegenerateParameter);
        }
        let coefficients: Vec<u64> = binomial_coefficients(n);
        let q: Fixed = fx_sub(ONE, p);
        let mut probabilities: Vec<Fixed> = Vec::new();
        let mut k: u32 = 0;
        while k <= n
            invariant
                k <= n + 1,
                n <= MAX_TRIALS,
                q == ONE - p,
                coefficients@.len() == n + 1,
                forall|j: int|
                    0 <= j <= n ==> #[trigger] coefficients@[j] == binomial_coefficient(
                        n as nat,
                        j as nat,
                    ),
                forall|j: int| 0 <= j <= n ==> #[trigger] coefficients@[j] <= 4096,
                probabilities@.len() == k,
                forall|j: int|
                    0 <= j < k ==> #[trigger] probabilities@[j] == binomial_probability_spec(
                        n as nat,
                        p as int,
                        j as nat,
                    ),
            decreases n + 1 - k,
        {
            let weight: Fixed = fx_mul(fx_powi(p, k), fx_powi(q, n - k));
            probabilities.push(fx_mul_int(weight, coefficients[k as usize] as i64));
            k += 1;
        }
        assert(probabilities@ =~= binomial_probabilities_spec(n as nat, p as int));
        Self::multinomial(probabilities)
    }
}

} // verus!
