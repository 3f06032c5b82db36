//! Telling a normal sample from a power-law sample: both families are
//! fitted to the sample, and the distances of the two fits decide.

use crate::continuous_distribution::{
    hill_exponent_spec, mean_spec, min_spec, variance_spec, NormalDistribution,
    PowerLawDistribution,
};
use crate::continuous_testing::{ks_distance, ks_distance_spec};
use crate::decision_entropy::{beliefs_spec, compute_decision_entropy};
use crate::discrete_distribution::valid_probabilities;
use crate::discrete_information::entropy_spec;
use crate::empirical_moment::{empirical_moment, empirical_moment_spec};
use crate::fixed::{clamp, fx_sub_spec, round_ratio, Fixed, ONE};
use crate::fixed_sqrt::{fx_sqrt, fx_sqrt_spec};
use vstd::prelude::*;

verus! {

/// What one sample tells about the two families.
#[derive(Clone, Copy, Debug)]
pub struct DistinctionPoint {
    /// Distance of the sample from the normal distribution fitted to it.
    pub ks_distance_normal: Fixed,
    /// Distance of the sample from the power law fitted to it.
    pub ks_distance_power_law: Fixed,
    /// Square root of the second moment of the sample.
    pub stand_dev: Fixed,
    /// Entropy, in bits, of the decision between the two fits.
    pub decision_entropy: Fixed,
}

/// Whether both families can be fitted to `samples` and the decision
/// between the fits is a valid distribution.
pub open spec fn distinction_defined(samples: Seq<i64>) -> bool {
    let power_law_shift = fx_sub_spec(min_spec(samples), ONE as int);
    &&& samples.len() > 0
    &&& variance_spec(samples) > 0
    &&& hill_exponent_spec(samples) > ONE
    &&& power_law_shift < min_spec(samples)
    &&& valid_probabilities(beliefs_spec(distinction_errors(samples)))
}

/// The distances of `samples` from the fitted normal distribution and from
/// the fitted power law.
pub open spec fn distinction_errors(samples: Seq<i64>) -> Seq<i64> {
    let normal = NormalDistribution::spec_new(mean_spec(samples), variance_spec(samples));
    let power_law = PowerLawDistribution::spec_new(
        fx_sub_spec(min_spec(samples), ONE as int),
        hill_exponent_spec(samples),
        min_spec(samples),
    );
    seq![
        ks_distance_spec(normal, samples) as i64,
        ks_distance_spec(power_law, samples) as i64,
    ]
}

/// Fits a normal distribution and a power law to `samples` and reports the
/// distance of each fit, the root of the second moment, and the entropy of
/// the decision between the two. `None` where one of the fits fails or the
/// decision is no valid distribution.
pub fn distinction_point(samples: &Vec<Fixed>) -> (r: Option<DistinctionPoint>)
    ensures
        match r {
            Some(point) => {
                &&& distinction_defined(samples@)
                &&& point.ks_distance_normal == distinction_errors(samples@)[0]
                &&& point.ks_distance_power_law == distinction_errors(samples@)[1]
                &&& point.stand_dev == fx_sqrt_spec(empirical_moment_spec(samples@, 2))
                &&& point.decision_entropy == entropy_spec(
                    beliefs_spec(distinction_errors(samples@)),
                )
            },
            None => !distinction_defined(samples@),
        },
{
    let normal: NormalDistribution = match NormalDistribution::estimate(samples) {
        Ok(normal) => normal,
        Err(_) => {
            return None;
        },
    };
    let power_law: PowerLawDistribution = match PowerLawDistribution::estimate(samples) {
        Ok(power_law) => power_law,
        Err(_) => {
            return None;
        },
    };
    let ks_distance_normal: Fixed = ks_distance(&normal, samples);
    let ks_distance_power_law: Fixed = ks_distance(&power_law, samples);
    let stand_dev: Fixed = fx_sqrt(empirical_moment(2, samples));
    let mut errors: Vec<Fixed> = Vec::new();
    errors.push(ks_distance_normal);
    errors.push(ks_distance_power_law);
    proof {
        assert(errors@ =~= distinction_errors(samples@));
    }
    let decision_entropy: Fixed = match compute_decision_entropy(&errors) {
        Ok(entropy) => entropy.to_float(),
        Err(_) => {
            return None;
        },
    };
    Some(DistinctionPoint { ks_distance_normal, ks_distance_power_law, stand_dev, decision_entropy })
}

/// The least length among the series of `collection`; zero for none.
pub open spec fn shortest_len(collection: Seq<Vec<(i64, i64)>>) -> int
    decreases collection.len(),
{
    if collection.len() == 0 {
        0
    } else if collection.len() == 1 {
        collection.last()@.len() as int
    } else if collection.last()@.len() < shortest_len(collection.drop_last()) {
        collection.last()@.len() as int
    } else {
        shortest_len(collection.drop_last())
    }
}

/// Sum over the first `k` series of the first member of the point at `i`.
pub open spec fn column_sum_x(collection: Seq<Vec<(i64, i64)>>, i: int, k: nat) -> int
    decreases k,
{
    if k == 0 {
        0
    } else {
        column_sum_x(collection, i, (k - 1) as nat) + collection[k - 1]@[i].0
    }
}

/// Sum over the first `k` series of the second member of the point at `i`.
pub open spec fn column_sum_y(collection: Seq<Vec<(i64, i64)>>, i: int, k: nat) -> int
    decreases k,
{
    if k == 0 {
        0
    } else {
        column_sum_y(collection, i, (k - 1) as nat) + collection[k - 1]@[i].1
    }
}

/// The series that holds at each index the mean of the points that the
/// series of `collection` hold there.
pub open spec fn average_spec(collection: Seq<Vec<(i64, i64)>>) -> Seq<(i64, i64)> {
    Seq::new(
        shortest_len(collection) as nat,
        |i: int|
            (
                clamp(
                    round_ratio(
                        column_sum_x(collection, i, collection.len()),
                        collection.len() as int,
                    ),
                ) as i64,
                clamp(
                    round_ratio(
                        column_sum_y(collection, i, collection.len()),
                        collection.len() as int,
                    ),
                ) as i64,
            ),
    )
}

/// Every series is at least as long as the shortest.
pub proof fn lemma_shortest_len(collection: Seq<Vec<(i64, i64)>>, c: int)
    requires
        0 <= c < collection.len(),
    ensures
        0 <= shortest_len(collection) <= collection[c]@.len(),
    decreases collection.len(),
{
    if collection.len() > 1 {
        if c < collection.len() - 1 {
            lemma_shortest_len(collection.drop_last(), c);
            assert(collection.drop_last()[c] == collection[c]);
        } else {
            lemma_shortest_len(collection.drop_last(), 0);
        }
    }
}

/// The least length among the series of `collection`.
pub fn shortest(collection: &Vec<Vec<(Fixed, Fixed)>>) -> (n: usize)
    ensures
        n == shortest_len(collection@),
{
    let count: usize = collection.len();
    if count == 0 {
        return 0;
    }
    let mut n: usize = collection[0].len();
    let mut c: usize = 1;
    assert(collection@.take(1).drop_last() =~= Seq::<Vec<(i64, i64)>>::empty());
    assert(collection@.take(1).last() == collection@[0]);
    while c < count
        invariant
            1 <= c <= count,
            count == collection@.len(),
            n == shortest_len(collection@.take(c as int)),
        decreases count - c,
    {
        proof {
            assert(collection@.take(c as int + 1).drop_last() =~= collection@.take(c as int));
            assert(collection@.take(c as int + 1).last() == collection@[c as int]);
        }
        if collection[c].len() < n {
            n = collection[c].len();
        }
        c += 1;
    }
    proof {
        assert(collection@.take(count as int) =~= collection@);
    }
    n
}

/// The mean of several series of points, index by index: at each index up
/// to the length of the shortest series, the mean of the first members and
/// the mean of the second members of the points there. There is no mean of
/// no series: the result is then `None`.
pub fn average_data_collection(collection: &Vec<Vec<(Fixed, Fixed)>>) -> (r: Option<
    Vec<(Fixed, Fixed)>,
>)
    ensures
        match r {
            Some(data) => collection@.len() > 0 && data@ == average_spec(collection@),
            None => collection@.len() == 0,
        },
{
    let count: usize = collection.len();
    if count == 0 {
        return None;
    }
    let len: usize = shortest(collection);
    let mut data: Vec<(Fixed, Fixed)> = Vec::new();
    let mut i: usize = 0;
    while i < len
        invariant
            i <= len,
            count == collection@.len(),
            len == shortest_len(collection@),
            data@.len() == i,
            forall|j: int| 0 <= j < i ==> #[trigger] data@[j] == average_spec(collection@)[j],
        decreases len - i,
    {
        let mut sum_x: i128 = 0;
        let mut sum_y: i128 = 0;
        let mut c: usize = 0;
        while c < count
            invariant
                c <= count,
                i < len,
                count == collection@.len(),
                len == shortest_len(collection@),
                sum_x == column_sum_x(collection@, i as int, c as nat),
                sum_y == column_sum_y(collection@, i as int, c as nat),
                -0x8000_0000_0000_0000 * c <= sum_x <= 0x8000_0000_0000_0000 * c,
                -0x8000_0000_0000_0000 * c <= sum_y <= 0x8000_0000_0000_0000 * c,
            decreases count - c,
        {
            proof {
                lemma_shortest_len(collection@, c as int);
            }
            let point: (Fixed, Fixed) = collection[c][i];
            sum_x = sum_x + point.0 as i128;
            sum_y = sum_y + point.1 as i128;
            c += 1;
        }
        let x: Fixed = crate::continuous_distribution::divide_sum(sum_x, count);
        let y: Fixed = crate::continuous_distribution::divide_sum(sum_y, count);
        data.push((x, y));
        i += 1;
    }
    assert(data@ =~= average_spec(collection@));
    Some(data)
}

} // verus!
