//! Covariance and correlation of paired samples.

use crate::continuous_distribution::{mean_of, mean_spec};
use crate::discrete_information::saturate;
use crate::empirical_moment::{empirical_standardized_moment, empirical_standardized_moment_spec};
use crate::fixed::{clamp, Fixed};
use crate::wide::{
    as_ints, in_wide_range, wide_div, wide_div_spec, wide_mean, wide_mean_spec, wide_mul,
    wide_mul_spec,
};
use vstd::prelude::*;

verus! {

/// The first members of the pairs.
pub open spec fn firsts(samples: Seq<(i64, i64)>) -> Seq<i64> {
    Seq::new(samples.len(), |i: int| samples[i].0)
}

/// The second members of the pairs.
pub open spec fn seconds(samples: Seq<(i64, i64)>) -> Seq<i64> {
    Seq::new(samples.len(), |i: int| samples[i].1)
}

/// The products of the distances of the two members of each pair from
/// `x_mean` and `y_mean`, as wide numbers.
pub open spec fn deviation_products(samples: Seq<(i64, i64)>, x_mean: int, y_mean: int) -> Seq<
    int,
> {
    Seq::new(
        samples.len(),
        |i: int| wide_mul_spec(samples[i].0 as int - x_mean, samples[i].1 as int - y_mean),
    )
}

/// The covariance of the pairs as a wide number; zero for no pairs.
pub open spec fn covariance_wide_spec(samples: Seq<(i64, i64)>) -> int {
    wide_mean_spec(
        deviation_products(samples, mean_spec(firsts(samples)), mean_spec(seconds(samples))),
    )
}

/// The covariance of the pairs; zero for no pairs.
pub open spec fn covariance_spec(samples: Seq<(i64, i64)>) -> int {
    clamp(covariance_wide_spec(samples))
}

/// The two coordinates of the pairs, each as a list of its own.
pub fn split_pairs(samples: &Vec<(Fixed, Fixed)>) -> (r: (Vec<Fixed>, Vec<Fixed>))
    ensures
        r.0@ == firsts(samples@),
        r.1@ == seconds(samples@),
{
    let mut xs: Vec<Fixed> = Vec::new();
    let mut ys: Vec<Fixed> = Vec::new();
    let mut i: usize = 0;
    while i < samples.len()
        invariant
            i <= samples@.len(),
            xs@.len() == i,
            ys@.len() == i,
            forall|k: int| 0 <= k < i ==> #[trigger] xs@[k] == samples@[k].0,
            forall|k: int| 0 <= k < i ==> #[trigger] ys@[k] == samples@[k].1,
        decreases samples@.len() - i,
    {
        xs.push(samples[i].0);
        ys.push(samples[i].1);
        i += 1;
    }
    assert(xs@ =~= firsts(samples@));
    assert(ys@ =~= seconds(samples@));
    (xs, ys)
}

/// The covariance of paired samples as a wide number: the mean of the
/// products of the distances of the two members of each pair from their
/// means.
pub fn covariance_wide(samples: &Vec<(Fixed, Fixed)>) -> (r: i128)
    ensures
        r == covariance_wide_spec(samples@),
        in_wide_range(r as int),
{
    let n: usize = samples.len();
    let split: (Vec<Fixed>, Vec<Fixed>) = split_pairs(samples);
    let x_mean: Fixed = mean_of(&split.0);
    let y_mean: Fixed = mean_of(&split.1);
    let mut products: Vec<i128> = Vec::new();
    let mut k: usize = 0;
    while k < n
        invariant
            k <= n,
            n == samples@.len(),
            products@.len() == k,
            forall|j: int|
                0 <= j < k ==> in_wide_range(#[trigger] products@[j] as int) && products@[j]
                    == wide_mul_spec(samples@[j].0 - x_mean, samples@[j].1 - y_mean),
        decreases n - k,
    {
        let dx: i128 = samples[k].0 as i128 - x_mean as i128;
        let dy: i128 = samples[k].1 as i128 - y_mean as i128;
        products.push(wide_mul(dx, dy));
        k += 1;
    }
    proof {
        assert(as_ints(products@) =~= deviation_products(samples@, x_mean as int, y_mean as int));
    }
    wide_mean(&products)
}

/// The covariance of paired samples: the mean of the products of the
/// distances of the two members of each pair from their means.
pub fn empirical_covariance(samples: &Vec<(Fixed, Fixed)>) -> (r: Fixed)
    ensures
        r == covariance_spec(samples@),
{
    saturate(covariance_wide(samples))
}

/// The correlation coefficient of the pairs as this library defines it:
/// the covariance over the product of the second standardized moments of
/// the two coordinates. Covariance and product are wide numbers.
pub open spec fn pearson_coefficient_spec(samples: Seq<(i64, i64)>) -> int {
    wide_div_spec(
        covariance_wide_spec(samples),
        wide_mul_spec(
            empirical_standardized_moment_spec(firsts(samples), 2),
            empirical_standardized_moment_spec(seconds(samples), 2),
        ),
    )
}

/// The correlation coefficient of paired samples: their covariance divided
/// by the product of the second standardized moments of the two
/// coordinates.
pub fn calc_pearson_coefficient(samples: &Vec<(Fixed, Fixed)>) -> (r: Fixed)
    ensures
        r == pearson_coefficient_spec(samples@),
{
    let covariance: i128 = covariance_wide(samples);
    let split: (Vec<Fixed>, Vec<Fixed>) = split_pairs(samples);
    let x_std: Fixed = empirical_standardized_moment(2, &split.0);
    let y_std: Fixed = empirical_standardized_moment(2, &split.1);
    wide_div(covariance, wide_mul(x_std as i128, y_std as i128))
}

} // verus!
