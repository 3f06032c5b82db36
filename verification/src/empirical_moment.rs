//! Moments of samples.
//!
//! Distances, powers and their sums are wide numbers; only a moment itself
//! is brought into the fixed-point range.

use crate::discrete_information::saturate;
use crate::fixed::{clamp, Fixed};
use crate::fixed_sqrt::fx_sqrt_spec;
use crate::wide::{
    as_ints, in_wide_range, wide_div, wide_div_spec, wide_mean, wide_mean_spec, wide_powi,
    wide_powi_spec, wide_root,
};
use vstd::prelude::*;

verus! {

/// The `n`-th powers of the distances of the samples from `center`, as wide
/// numbers.
pub open spec fn power_terms(samples: Seq<i64>, n: nat, center: int) -> Seq<int> {
    Seq::new(samples.len(), |i: int| wide_powi_spec(samples[i] as int - center, n))
}

/// The mean of the `n`-th powers of the distances of the samples from
/// `center`, as a wide number; zero for no samples.
pub open spec fn mean_power_wide_spec(samples: Seq<i64>, n: nat, center: int) -> int {
    wide_mean_spec(power_terms(samples, n, center))
}

/// The mean of the `n`-th powers of the distances of the samples from
/// `center`; zero for no samples.
pub open spec fn mean_power_spec(samples: Seq<i64>, n: nat, center: int) -> int {
    clamp(mean_power_wide_spec(samples, n, center))
}

/// The `n`-th moment of the samples.
pub open spec fn empirical_moment_spec(samples: Seq<i64>, n: nat) -> int {
    mean_power_spec(samples, n, 0)
}

/// The `n`-th central moment of the samples.
pub open spec fn empirical_central_moment_spec(samples: Seq<i64>, n: nat) -> int {
    mean_power_spec(samples, n, empirical_moment_spec(samples, 1))
}

/// The standard deviation of the samples: the square root of their second
/// central moment.
pub open spec fn standard_deviation_spec(samples: Seq<i64>) -> int {
    clamp(fx_sqrt_spec(mean_power_wide_spec(samples, 2, empirical_moment_spec(samples, 1))))
}

/// The `n`-th standardized moment of the samples: the central moment over
/// the `n`-th power of the standard deviation. Moment and power are wide
/// numbers, so that the quotient is right wherever it lies in the number
/// range.
pub open spec fn empirical_standardized_moment_spec(samples: Seq<i64>, n: nat) -> int {
    wide_div_spec(
        mean_power_wide_spec(samples, n, empirical_moment_spec(samples, 1)),
        wide_powi_spec(standard_deviation_spec(samples), n),
    )
}

/// The mean of the `n`-th powers of the distances of the samples from
/// `center`, as a wide number; zero for no samples.
pub fn mean_power_wide(n: u32, samples: &Vec<Fixed>, center: Fixed) -> (r: i128)
    ensures
        r == mean_power_wide_spec(samples@, n as nat, center as int),
        in_wide_range(r as int),
{
    let len: usize = samples.len();
    let mut terms: Vec<i128> = Vec::new();
    let mut k: usize = 0;
    while k < len
        invariant
            k <= len,
            len == samples@.len(),
            terms@.len() == k,
            forall|j: int|
                0 <= j < k ==> in_wide_range(#[trigger] terms@[j] as int) && terms@[j]
                    == wide_powi_spec(samples@[j] - center, n as nat),
        decreases len - k,
    {
        let distance: i128 = samples[k] as i128 - center as i128;
        terms.push(wide_powi(distance, n));
        k += 1;
    }
    proof {
        assert(as_ints(terms@) =~= power_terms(samples@, n as nat, center as int));
    }
    wide_mean(&terms)
}

/// The mean of the `n`-th powers of the distances of the samples from
/// `center`; zero for no samples.
pub fn mean_power(n: u32, samples: &Vec<Fixed>, center: Fixed) -> (r: Fixed)
    ensures
        r == mean_power_spec(samples@, n as nat, center as int),
{
    saturate(mean_power_wide(n, samples, center))
}

/// The `n`-th moment of the samples: the mean of their `n`-th powers.
pub fn empirical_moment(n: u32, samples: &Vec<Fixed>) -> (r: Fixed)
    ensures
        r == empirical_moment_spec(samples@, n as nat),
{
    mean_power(n, samples, 0)
}

/// The `n`-th central moment of the samples: the mean of the `n`-th powers
/// of their distances from their mean.
pub fn empirical_central_moment(n: u32, samples: &Vec<Fixed>) -> (r: Fixed)
    ensures
        r == empirical_central_moment_spec(samples@, n as nat),
{
    let mean: Fixed = empirical_moment(1, samples);
    mean_power(n, samples, mean)
}

/// The `n`-th standardized moment of the samples: their `n`-th central
/// moment divided by the `n`-th power of their standard deviation.
pub fn empirical_standardized_moment(n: u32, samples: &Vec<Fixed>) -> (r: Fixed)
    ensures
        r == empirical_standardized_moment_spec(samples@, n as nat),
{
    let mean: Fixed = empirical_moment(1, samples);
    let central: i128 = mean_power_wide(n, samples, mean);
    let spread: i128 = mean_power_wide(2, samples, mean);
    let deviation: Fixed = if spread <= 0 {
        0
    } else {
        wide_root(spread as u128)
    };
    wide_div(central, wide_powi(deviation as i128, n))
}

} // verus!
