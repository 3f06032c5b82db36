//! Convolution of integer-valued discrete distributions: the distribution
//! of the sum of two independent variables.

use crate::discrete_distribution::{
    pmf_in, valid_probabilities, DiscreteProbabilityDistribution, DistributionError,
    MAX_COUNTED_OUTCOMES, TOLERANCE,
};
use crate::fixed::{
    abs_int, clamp, magnitude, round_ratio, round_ratio_saturating, Fixed, ONE,
};
use vstd::prelude::*;

verus! {

/// The least entry of `s`; the upper bound of `i32` for an empty `s`.
pub open spec fn least_outcome(s: Seq<i32>) -> int
    decreases s.len(),
{
    if s.len() == 0 {
        i32::MAX as int
    } else if s.last() < least_outcome(s.drop_last()) {
        s.last() as int
    } else {
        least_outcome(s.drop_last())
    }
}

/// The greatest entry of `s`; the lower bound of `i32` for an empty `s`.
pub open spec fn greatest_outcome(s: Seq<i32>) -> int
    decreases s.len(),
{
    if s.len() == 0 {
        i32::MIN as int
    } else if s.last() > greatest_outcome(s.drop_last()) {
        s.last() as int
    } else {
        greatest_outcome(s.drop_last())
    }
}

/// The probability of the integer `z`, which need not fit the outcome type.
pub open spec fn pmf_at(outcomes: Seq<i32>, probabilities: Seq<i64>, z: int) -> int {
    if i32::MIN <= z <= i32::MAX {
        pmf_in(outcomes, probabilities, z as i32)
    } else {
        0
    }
}

/// The exact sum, over the first `k` outcomes `x` of the first distribution,
/// of the probability of `x` times the probability that the second
/// distribution gives `z - x`, in units of `10^-30`.
pub open spec fn convolution_weight(
    xo: Seq<i32>,
    xp: Seq<i64>,
    yo: Seq<i32>,
    yp: Seq<i64>,
    z: int,
    k: nat,
) -> int
    decreases k,
{
    if k == 0 {
        0
    } else {
        convolution_weight(xo, xp, yo, yp, z, (k - 1) as nat) + pmf_in(xo, xp, xo[k - 1]) * pmf_at(
            yo,
            yp,
            z - xo[k - 1],
        )
    }
}

/// A convolution sum in units of `10^-30` as a probability in units of
/// `10^-15`: rounded to the nearest unit, but never to zero, so that a sum
/// that is not zero keeps a probability that is not zero. The least unit
/// then stands for every smaller probability.
pub open spec fn nonzero_round(weight: int) -> int {
    let rounded = clamp(round_ratio(weight, ONE as int));
    if weight > 0 && rounded < 1 {
        1
    } else if weight < 0 && rounded > -1 {
        -1
    } else {
        rounded
    }
}

/// The probability that the sum of the two variables is `z`: the exact
/// convolution sum, rounded by [`nonzero_round`].
pub open spec fn convolution_probability(
    xo: Seq<i32>,
    xp: Seq<i64>,
    yo: Seq<i32>,
    yp: Seq<i64>,
    z: int,
) -> int {
    nonzero_round(convolution_weight(xo, xp, yo, yp, z, xo.len()))
}

/// The integers from `lo` to `hi` for which the convolution sum is not
/// zero, in increasing order.
pub open spec fn convolution_outcomes(
    xo: Seq<i32>,
    xp: Seq<i64>,
    yo: Seq<i32>,
    yp: Seq<i64>,
    lo: int,
    hi: int,
) -> Seq<i32>
    decreases hi - lo + 1,
{
    if hi < lo {
        Seq::empty()
    } else if convolution_weight(xo, xp, yo, yp, hi, xo.len()) != 0 {
        convolution_outcomes(xo, xp, yo, yp, lo, hi - 1).push(hi as i32)
    } else {
        convolution_outcomes(xo, xp, yo, yp, lo, hi - 1)
    }
}

/// The probabilities that the convolution gives the integers from `lo` to
/// `hi` for which the convolution sum is not zero, in the order of those
/// integers.
pub open spec fn convolution_probabilities(
    xo: Seq<i32>,
    xp: Seq<i64>,
    yo: Seq<i32>,
    yp: Seq<i64>,
    lo: int,
    hi: int,
) -> Seq<i64>
    decreases hi - lo + 1,
{
    if hi < lo {
        Seq::empty()
    } else if convolution_weight(xo, xp, yo, yp, hi, xo.len()) != 0 {
        convolution_probabilities(xo, xp, yo, yp, lo, hi - 1).push(
            convolution_probability(xo, xp, yo, yp, hi) as i64,
        )
    } else {
        convolution_probabilities(xo, xp, yo, yp, lo, hi - 1)
    }
}

/// The least possible sum of an outcome of each distribution.
pub open spec fn convolution_low(xo: Seq<i32>, yo: Seq<i32>) -> int {
    least_outcome(xo) + least_outcome(yo)
}

/// The greatest possible sum of an outcome of each distribution.
pub open spec fn convolution_high(xo: Seq<i32>, yo: Seq<i32>) -> int {
    greatest_outcome(xo) + greatest_outcome(yo)
}

/// Sum of the magnitudes of the probabilities that the mass function
/// gives the first `k` outcomes.
pub open spec fn abs_mass_sum(xo: Seq<i32>, xp: Seq<i64>, k: nat) -> int
    decreases k,
{
    if k == 0 {
        0
    } else {
        abs_mass_sum(xo, xp, (k - 1) as nat) + abs_int(pmf_in(xo, xp, xo[k - 1]))
    }
}

/// The greatest magnitude among `p`; zero for an empty `p`.
pub open spec fn greatest_abs(p: Seq<i64>) -> int
    decreases p.len(),
{
    if p.len() == 0 {
        0
    } else if abs_int(p.last() as int) > greatest_abs(p.drop_last()) {
        abs_int(p.last() as int)
    } else {
        greatest_abs(p.drop_last())
    }
}

/// Whether every convolution sum of the two distributions fits 128 bits:
/// the summed magnitudes of the first, times the greatest magnitude of the
/// second, must.
pub open spec fn convolution_in_reach(xo: Seq<i32>, xp: Seq<i64>, yp: Seq<i64>) -> bool {
    abs_mass_sum(xo, xp, xo.len()) * greatest_abs(yp)
        <= 0x7fff_ffff_ffff_ffff_ffff_ffff_ffff_ffff
}

/// The summed magnitudes grow with the number of outcomes summed.
pub proof fn lemma_abs_mass_sum_monotone(xo: Seq<i32>, xp: Seq<i64>, j: nat, k: nat)
    requires
        j <= k,
    ensures
        0 <= abs_mass_sum(xo, xp, j) <= abs_mass_sum(xo, xp, k),
    decreases k,
{
    if j < k {
        lemma_abs_mass_sum_monotone(xo, xp, j, (k - 1) as nat);
    } else if k > 0 {
        lemma_abs_mass_sum_monotone(xo, xp, (j - 1) as nat, (k - 1) as nat);
    }
}

/// No entry, and no value of the mass function, exceeds the greatest
/// magnitude.
pub proof fn lemma_greatest_abs(outcomes: Seq<i32>, p: Seq<i64>, x: i32)
    ensures
        0 <= greatest_abs(p) <= 0x8000_0000_0000_0000,
        forall|i: int| 0 <= i < p.len() ==> abs_int(#[trigger] p[i] as int) <= greatest_abs(p),
        abs_int(pmf_in(outcomes, p, x)) <= greatest_abs(p),
    decreases p.len(),
{
    if p.len() > 0 {
        let rest = p.drop_last();
        lemma_greatest_abs(outcomes, rest, x);
        assert forall|i: int| 0 <= i < p.len() implies abs_int(#[trigger] p[i] as int)
            <= greatest_abs(p) by {
            if i < rest.len() {
                assert(rest[i] == p[i]);
            } else {
                assert(p[i] == p.last());
            }
        }
    }
    lemma_pmf_among(outcomes, p, x);
}

/// A value of the mass function is zero or one of the probabilities.
pub proof fn lemma_pmf_among(outcomes: Seq<i32>, probabilities: Seq<i64>, x: i32)
    ensures
        pmf_in(outcomes, probabilities, x) == 0 || exists|i: int|
            0 <= i < probabilities.len() && pmf_in(outcomes, probabilities, x)
                == #[trigger] probabilities[i],
    decreases outcomes.len(),
{
    if outcomes.len() == 0 || probabilities.len() == 0 {
    } else if outcomes.first() == x {
        assert(probabilities[0] == probabilities.first());
    } else {
        lemma_pmf_among(outcomes.drop_first(), probabilities.drop_first(), x);
        let p = pmf_in(outcomes.drop_first(), probabilities.drop_first(), x);
        if p != 0 {
            let i = choose|i: int|
                0 <= i < probabilities.drop_first().len() && p
                    == #[trigger] probabilities.drop_first()[i];
            assert(probabilities[i + 1] == probabilities.drop_first()[i]);
        }
    }
}

/// Among one or more outcomes the least is at most the greatest.
pub proof fn lemma_outcome_order(s: Seq<i32>)
    requires
        s.len() > 0,
    ensures
        least_outcome(s) <= greatest_outcome(s),
    decreases s.len(),
{
    if s.len() > 1 {
        lemma_outcome_order(s.drop_last());
    } else {
        assert(s.drop_last().len() == 0);
    }
}

/// The least outcome of `dist` and its greatest.
pub fn outcome_bounds(dist: &DiscreteProbabilityDistribution<i32>) -> (r: (i32, i32))
    ensures
        r.0 == least_outcome(dist.spec_outcomes()),
        r.1 == greatest_outcome(dist.spec_outcomes()),
{
    let outcomes: &Vec<i32> = dist.outcomes_ref();
    let n: usize = outcomes.len();
    let mut least: i32 = i32::MAX;
    let mut greatest: i32 = i32::MIN;
    let mut i: usize = 0;
    assert(outcomes@.take(0) =~= Seq::<i32>::empty());
    while i < n
        invariant
            i <= n,
            n == outcomes@.len(),
            least == least_outcome(outcomes@.take(i as int)),
            greatest == greatest_outcome(outcomes@.take(i as int)),
        decreases n - i,
    {
        proof {
            assert(outcomes@.take(i as int + 1).drop_last() =~= outcomes@.take(i as int));
        }
        if outcomes[i] < least {
            least = outcomes[i];
        }
        if outcomes[i] > greatest {
            greatest = outcomes[i];
        }
        i += 1;
    }
    proof {
        assert(outcomes@.take(n as int) =~= outcomes@);
    }
    (least, greatest)
}

/// The probability that `dist` gives the integer `z`.
pub fn pmf_of_integer(dist: &DiscreteProbabilityDistribution<i32>, z: i64) -> (p: Fixed)
    ensures
        p == pmf_at(dist.spec_outcomes(), dist.spec_probabilities(), z as int),
{
    if z < i32::MIN as i64 || z > i32::MAX as i64 {
        0
    } else {
        let narrow: i32 = z as i32;
        dist.pmf(&narrow)
    }
}

/// The greatest magnitude among the probabilities of `dist`.
pub fn greatest_magnitude<T>(dist: &DiscreteProbabilityDistribution<T>) -> (m: u128)
    ensures
        m == greatest_abs(dist.spec_probabilities()),
        m <= 0x8000_0000_0000_0000,
{
    let probabilities: &Vec<Fixed> = dist.probabilities_ref();
    let n: usize = probabilities.len();
    let mut m: u128 = 0;
    let mut i: usize = 0;
    assert(probabilities@.take(0).len() == 0);
    while i < n
        invariant
            i <= n,
            n == probabilities@.len(),
            m == greatest_abs(probabilities@.take(i as int)),
            m <= 0x8000_0000_0000_0000,
        decreases n - i,
    {
        proof {
            assert(probabilities@.take(i as int + 1).drop_last() =~= probabilities@.take(i as int));
            assert(probabilities@.take(i as int + 1).last() == probabilities@[i as int]);
        }
        let a: u128 = magnitude(probabilities[i]);
        if a > m {
            m = a;
        }
        i += 1;
    }
    proof {
        assert(probabilities@.take(n as int) =~= probabilities@);
    }
    m
}

/// The distribution of the sum of two independent integer-valued variables
/// with the distributions `dist_x` and `dist_y`.
///
/// Every integer from the sum of the two least outcomes to the sum of the
/// two greatest is considered; it becomes an outcome unless the exact
/// convolution sum for it is zero. Its probability is that sum rounded to
/// the nearest unit, and never to zero. The result is then validated like
/// any distribution. Fails with `DegenerateParameter` where the sums of
/// outcomes do not fit the outcome type, and with `TooLarge` where
/// the convolution sums cannot be held in 128 bits.
pub fn discrete_convolution(
    dist_x: &DiscreteProbabilityDistribution<i32>,
    dist_y: &DiscreteProbabilityDistribution<i32>,
) -> (r: Result<DiscreteProbabilityDistribution<i32>, DistributionError>)
    ensures
        agrees(
            r,
            convolution_spec(
                dist_x.spec_outcomes(),
                dist_x.spec_probabilities(),
                dist_y.spec_outcomes(),
                dist_y.spec_probabilities(),
            ),
        ),
{
    let ghost xo = dist_x.spec_outcomes();
    let ghost xp = dist_x.spec_probabilities();
    let ghost yo = dist_y.spec_outcomes();
    let ghost yp = dist_y.spec_probabilities();
    let x_bounds: (i32, i32) = outcome_bounds(dist_x);
    let y_bounds: (i32, i32) = outcome_bounds(dist_y);
    let lo: i64 = x_bounds.0 as i64 + y_bounds.0 as i64;
    let hi: i64 = x_bounds.1 as i64 + y_bounds.1 as i64;
    if lo < i32::MIN as i64 || hi > i32::MAX as i64 {
        return Err(DistributionError::DegenerateParameter);
    }
    let x_outcomes: &Vec<i32> = dist_x.outcomes_ref();
    let y_outcomes: &Vec<i32> = dist_y.outcomes_ref();
    let n: usize = x_outcomes.len();
    proof {
        crate::discrete_distribution::lemma_sum_not_empty(xp);
        crate::discrete_distribution::lemma_sum_not_empty(yp);
        lemma_outcome_order(xo);
        lemma_outcome_order(yo);
    }
    // the probability that the first distribution gives each of its outcomes
    let mut x_masses: Vec<Fixed> = Vec::new();
    let mut mass_sum: u128 = 0;
    let mut k: usize = 0;
    while k < n
        invariant
            k <= n,
            n == xo.len(),
            x_outcomes@ == xo,
            xo == dist_x.spec_outcomes(),
            xp == dist_x.spec_probabilities(),
            x_masses@.len() == k,
            forall|j: int| 0 <= j < k ==> #[trigger] x_masses@[j] == pmf_in(xo, xp, xo[j]),
            mass_sum == abs_mass_sum(xo, xp, k as nat),
            mass_sum <= 0x8000_0000_0000_0000 * k,
        decreases n - k,
    {
        let mass: Fixed = dist_x.pmf(&x_outcomes[k]);
        x_masses.push(mass);
        mass_sum = mass_sum + magnitude(mass);
        k += 1;
    }
    let greatest: u128 = greatest_magnitude(dist_y);
    let reach: u128 = match mass_sum.checked_mul(greatest) {
        Some(reach) => reach,
        None => {
            return Err(DistributionError::TooLarge);
        },
    };
    if reach > 0x7fff_ffff_ffff_ffff_ffff_ffff_ffff_ffff {
        return Err(DistributionError::TooLarge);
    }
    let mut outcomes: Vec<i32> = Vec::new();
    let mut probabilities: Vec<Fixed> = Vec::new();
    let mut z: i64 = lo;
    while z <= hi
        invariant
            lo <= z <= hi + 1,
            i32::MIN <= lo,
            hi <= i32::MAX,
            n == xo.len(),
            x_outcomes@ == xo,
            xo == dist_x.spec_outcomes(),
            xp == dist_x.spec_probabilities(),
            yo == dist_y.spec_outcomes(),
            yp == dist_y.spec_probabilities(),
            x_masses@.len() == n,
            forall|j: int| 0 <= j < n ==> #[trigger] x_masses@[j] == pmf_in(xo, xp, xo[j]),
            greatest == greatest_abs(yp),
            reach == abs_mass_sum(xo, xp, n as nat) * greatest,
            reach <= 0x7fff_ffff_ffff_ffff_ffff_ffff_ffff_ffff,
            outcomes@ == convolution_outcomes(xo, xp, yo, yp, lo as int, z - 1),
            probabilities@ == convolution_probabilities(xo, xp, yo, yp, lo as int, z - 1),
            outcomes@.len() == probabilities@.len(),
        decreases hi + 1 - z,
    {
        let mut weight: i128 = 0;
        let mut k: usize = 0;
        while k < n
            invariant
                k <= n,
                n == xo.len(),
                x_outcomes@ == xo,
                yo == dist_y.spec_outcomes(),
                yp == dist_y.spec_probabilities(),
                xp == dist_x.spec_probabilities(),
                i32::MIN <= z <= i32::MAX,
                x_masses@.len() == n,
                forall|j: int| 0 <= j < n ==> #[trigger] x_masses@[j] == pmf_in(xo, xp, xo[j]),
                greatest == greatest_abs(yp),
                reach == abs_mass_sum(xo, xp, n as nat) * greatest,
                reach <= 0x7fff_ffff_ffff_ffff_ffff_ffff_ffff_ffff,
                weight == convolution_weight(xo, xp, yo, yp, z as int, k as nat),
                -(abs_mass_sum(xo, xp, k as nat) * greatest) <= weight <= abs_mass_sum(
                    xo,
                    xp,
                    k as nat,
                ) * greatest,
            decreases n - k,
        {
            let x: i32 = x_outcomes[k];
            let px: Fixed = x_masses[k];
            let py: Fixed = pmf_of_integer(dist_y, z - x as i64);
            proof {
                if i32::MIN <= z - x <= i32::MAX {
                    lemma_greatest_abs(yo, yp, (z - x) as i32);
                } else {
                    lemma_greatest_abs(yo, yp, 0);
                }
                lemma_abs_mass_sum_monotone(xo, xp, (k + 1) as nat, n as nat);
                lemma_abs_mass_sum_monotone(xo, xp, k as nat, (k + 1) as nat);
                lemma_term_in_reach(
                    px as int,
                    py as int,
                    greatest as int,
                    abs_mass_sum(xo, xp, k as nat),
                    abs_mass_sum(xo, xp, n as nat),
                    weight as int,
                );
            }
            weight = weight + px as i128 * py as i128;
            k += 1;
        }
        if weight != 0 {
            let negative: bool = weight < 0;
            let mag: u128 = if negative {
                (-weight) as u128
            } else {
                weight as u128
            };
            let rounded: Fixed = round_ratio_saturating(negative, mag, ONE as u128);
            let p: Fixed = if weight > 0 && rounded < 1 {
                1
            } else if weight < 0 && rounded > -1 {
                -1
            } else {
                rounded
            };
            outcomes.push(z as i32);
            probabilities.push(p);
        }
        z += 1;
    }
    DiscreteProbabilityDistribution::new(outcomes, probabilities)
}

/// A product of a probability with one of at most the greatest magnitude,
/// added to a sum within the reach of the outcomes so far, stays within
/// the reach of one outcome more, and within 128 bits.
proof fn lemma_term_in_reach(px: int, py: int, greatest: int, so_far: int, all: int, weight: int)
    requires
        abs_int(py) <= greatest,
        0 <= so_far,
        so_far + abs_int(px) <= all,
        all * greatest <= 0x7fff_ffff_ffff_ffff_ffff_ffff_ffff_ffff,
        -(so_far * greatest) <= weight <= so_far * greatest,
    ensures
        -((so_far + abs_int(px)) * greatest) <= weight + px * py <= (so_far + abs_int(px))
            * greatest,
        (so_far + abs_int(px)) * greatest <= 0x7fff_ffff_ffff_ffff_ffff_ffff_ffff_ffff,
        -0x7fff_ffff_ffff_ffff_ffff_ffff_ffff_ffff <= px * py
            <= 0x7fff_ffff_ffff_ffff_ffff_ffff_ffff_ffff,
{
    let a = abs_int(px);
    assert(-(a * greatest) <= px * py <= a * greatest) by (nonlinear_arith)
        requires
            a == abs_int(px),
            abs_int(py) <= greatest,
    ;
    assert((so_far + a) * greatest == so_far * greatest + a * greatest) by (nonlinear_arith);
    assert((so_far + a) * greatest <= all * greatest) by (nonlinear_arith)
        requires
            so_far + a <= all,
            greatest >= 0,
    ;
    assert(a * greatest <= (so_far + a) * greatest) by (nonlinear_arith)
        requires
            so_far >= 0,
            greatest >= 0,
            a >= 0,
    ;
}

/// What [`discrete_convolution`] returns for distributions with the given
/// outcomes and probabilities: the outcomes and probabilities of the result,
/// or the reason for its failure.
pub open spec fn convolution_spec(xo: Seq<i32>, xp: Seq<i64>, yo: Seq<i32>, yp: Seq<i64>) -> Result<
    (Seq<i32>, Seq<i64>),
    DistributionError,
> {
    let lo = convolution_low(xo, yo);
    let hi = convolution_high(xo, yo);
    let outcomes = convolution_outcomes(xo, xp, yo, yp, lo, hi);
    let probabilities = convolution_probabilities(xo, xp, yo, yp, lo, hi);
    if lo < i32::MIN || hi > i32::MAX {
        Err(DistributionError::DegenerateParameter)
    } else if !convolution_in_reach(xo, xp, yp) {
        Err(DistributionError::TooLarge)
    } else if !valid_probabilities(probabilities) {
        Err(DistributionError::InvalidProbability)
    } else {
        Ok((outcomes, probabilities))
    }
}

/// The distribution of the sum of `n` independent variables that each have
/// the distribution with the given outcomes and probabilities: the base
/// distribution convolved with itself `n - 1` times. For `n` of zero or one
/// it is the base distribution.
pub open spec fn convolution_power_spec(bo: Seq<i32>, bp: Seq<i64>, n: nat) -> Result<
    (Seq<i32>, Seq<i64>),
    DistributionError,
>
    decreases n,
{
    if n <= 1 {
        Ok((bo, bp))
    } else {
        match convolution_power_spec(bo, bp, (n - 1) as nat) {
            Ok((o, p)) => convolution_spec(o, p, bo, bp),
            Err(e) => Err(e),
        }
    }
}

/// Whether the result `r` holds what `spec` describes.
pub open spec fn agrees(
    r: Result<DiscreteProbabilityDistribution<i32>, DistributionError>,
    spec: Result<(Seq<i32>, Seq<i64>), DistributionError>,
) -> bool {
    match (r, spec) {
        (Ok(dist), Ok((o, p))) => dist.valid() && dist.spec_outcomes() == o
            && dist.spec_probabilities() == p,
        (Err(e), Err(f)) => e == f,
        _ => false,
    }
}

/// Once a convolution in the chain has failed, every longer chain fails in
/// the same way.
pub proof fn lemma_convolution_power_fails(bo: Seq<i32>, bp: Seq<i64>, t: nat, n: nat)
    requires
        t <= n,
        convolution_power_spec(bo, bp, t) is Err,
    ensures
        convolution_power_spec(bo, bp, n) == convolution_power_spec(bo, bp, t),
    decreases n,
{
    if t < n {
        lemma_convolution_power_fails(bo, bp, t, (n - 1) as nat);
    }
}

/// The outcomes `0, 1, ..., n - 1`.
pub open spec fn counting_outcomes(n: nat) -> Seq<i32> {
    Seq::new(n, |i: int| i as i32)
}

/// The distribution of the sum of `n` independent variables with the
/// distribution `base`.
pub fn convolution_power(n: usize, base: DiscreteProbabilityDistribution<i32>) -> (r: Result<
    DiscreteProbabilityDistribution<i32>,
    DistributionError,
>)
    ensures
        agrees(
            r,
            convolution_power_spec(base.spec_outcomes(), base.spec_probabilities(), n as nat),
        ),
{
    let ghost bo = base.spec_outcomes();
    let ghost bp = base.spec_probabilities();
    if n <= 1 {
        let _ = base.outcomes_ref();
        return Ok(base);
    }
    let mut dist: DiscreteProbabilityDistribution<i32> = match discrete_convolution(&base, &base) {
        Ok(d) => d,
        Err(e) => {
            proof {
                assert(convolution_power_spec(bo, bp, 1) == Ok::<
                    (Seq<i32>, Seq<i64>),
                    DistributionError,
                >((bo, bp)));
                assert(convolution_power_spec(bo, bp, 2) is Err);
                lemma_convolution_power_fails(bo, bp, 2, n as nat);
            }
            return Err(e);
        },
    };
    proof {
        assert(convolution_power_spec(bo, bp, 1) == Ok::<(Seq<i32>, Seq<i64>), DistributionError>(
            (bo, bp),
        ));
    }
    let mut t: usize = 2;
    while t < n
        invariant
            2 <= t <= n,
            bo == base.spec_outcomes(),
            bp == base.spec_probabilities(),
            dist.valid(),
            convolution_power_spec(bo, bp, t as nat) == Ok::<
                (Seq<i32>, Seq<i64>),
                DistributionError,
            >((dist.spec_outcomes(), dist.spec_probabilities())),
        decreases n - t,
    {
        match discrete_convolution(&dist, &base) {
            Ok(d) => {
                dist = d;
            },
            Err(e) => {
                proof {
                    assert(convolution_power_spec(bo, bp, (t + 1) as nat) is Err);
                    lemma_convolution_power_fails(bo, bp, (t + 1) as nat, n as nat);
                }
                return Err(e);
            },
        }
        t += 1;
    }
    Ok(dist)
}

impl DiscreteProbabilityDistribution<i32> {
    /// The distribution of the sum of `n` independent draws from the
    /// multinomial distribution with the given probabilities.
    pub fn convoluted_multinomial(n: usize, probabilities: Vec<Fixed>) -> (r: Result<
        Self,
        DistributionError,
    >)
        ensures
            probabilities@.len() > MAX_COUNTED_OUTCOMES ==> r == Err::<Self, DistributionError>(
                DistributionError::TooLarge,
            ),
            probabilities@.len() <= MAX_COUNTED_OUTCOMES && !valid_probabilities(probabilities@)
                ==> r == Err::<Self, DistributionError>(DistributionError::InvalidProbability),
            probabilities@.len() <= MAX_COUNTED_OUTCOMES && valid_probabilities(probabilities@)
                ==> agrees(
                r,
                convolution_power_spec(
                    counting_outcomes(probabilities@.len()),
                    probabilities@,
                    n as nat,
                ),
            ),
    {
        match Self::multinomial(probabilities) {
            Ok(base) => convolution_power(n, base),
            Err(e) => Err(e),
        }
    }

    /// The distribution of the number of successes in `n` independent
    /// trials that each succeed with probability `p`.
    pub fn convoluted_binomial(n: usize, p: Fixed) -> (r: Result<Self, DistributionError>)
        ensures
            !(-TOLERANCE <= p <= ONE + TOLERANCE) ==> r == Err::<Self, DistributionError>(
                DistributionError::InvalidProbability,
            ),
            -TOLERANCE <= p <= ONE + TOLERANCE ==> agrees(
                r,
                convolution_power_spec(seq![0i32, 1i32], seq![(ONE - p) as i64, p], n as nat),
            ),
    {
        match Self::binomial(p) {
            Ok(base) => convolution_power(n, base),
            Err(e) => Err(e),
        }
    }
}

} // verus!
