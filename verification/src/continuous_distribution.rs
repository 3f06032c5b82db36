//! Continuous probability distributions: the normal and the power-law
//! family, with density, measure of an interval, cumulative distribution,
//! sampling from injected variates, and estimation from samples.

use crate::discrete_distribution::{seq_sum, DistributionError};
use crate::discrete_information::saturate;
use crate::fixed::{
    abs_int, clamp, fx_add, fx_add_spec, fx_div, fx_div_int_spec, fx_div_spec, fx_mul,
    fx_mul_spec, fx_sub, fx_sub_spec, lemma_round_ratio_exact, lemma_round_ratio_monotone,
    lemma_round_ratio_nearest, magnitude, round_ratio, round_ratio_saturating, round_ratio_wide,
    wide_quotient, wide_quotient_spec, Fixed, FIXED_MAX, FIXED_MIN, ONE,
};
use crate::fixed_exp::{fx_exp, fx_exp_spec, wide_pow, wide_pow_spec};
use crate::fixed_log::{fx_ln, fx_ln_spec};
use crate::fixed_sqrt::{fx_sqrt, fx_sqrt_spec, fx_sqrt_wide};
use crate::wide::{
    as_ints, in_wide_range, wide_div, wide_div_spec, wide_mean, wide_mean_spec, wide_mul,
    wide_mul_spec, WIDE_MAX,
};
use vstd::prelude::*;

verus! {

/// Number of steps of the numerical integration of the normal density.
///
/// The rectangle rule with this many steps on an interval of length `L`
/// differs from the integral of the density by at most `L / 10000` times
/// the total variation of the density on the interval, and that variation
/// is at most twice the peak `1 / sqrt(2 pi variance)` of the density. In
/// standard deviations: the error of a measure is at most `0.8 / 10000`
/// times the length of the interval in standard deviations, which is
/// `8 * 10^-4` for ten of them. The cumulative distribution integrates
/// from five standard deviations below the mean and so leaves out a
/// further `2.9 * 10^-7`. At the mean the bound is `2 * 10^-4`; the value
/// there is `0.49990`. On top of this come the roundings of fixed-point
/// arithmetic: each exponent is an exact quotient rounded once, each height
/// is what the exponential kernel gives for it, and the mean height and the
/// final quotient are rounded once each. All of this is a statement about
/// the real integral and is not part of what the library proves.
pub const NUM_STEPS: usize = 10000;

/// The width of the rectangles of the general rectangle rule: `0.001`.
pub const RECTANGLE_STEP: i64 = 1_000_000_000_000;

/// Twice the circle constant.
pub const TWO_PI: i64 = 6_283_185_307_179_586;

/// What a randomness source supplies for one sample.
#[derive(Clone, Copy, Debug)]
pub struct Variates {
    /// A draw from the uniform distribution on `[0, 1)`.
    pub uniform: Fixed,
    /// A draw from the normal distribution with mean zero and variance one.
    pub standard_normal: Fixed,
}

/// What every continuous distribution offers.
pub trait ContinuousProbabilityDistribution {
    /// The interval on which the density is defined.
    spec fn spec_domain(&self) -> (int, int);

    /// The interval in which the density takes its values.
    spec fn spec_range(&self) -> (int, int);

    /// The density at `x`.
    spec fn spec_pdf(&self, x: int) -> int;

    /// The probability of the interval from `lo` to `hi`.
    spec fn spec_measure(&self, lo: int, hi: int) -> int;

    /// The probability of a value of at most `x`.
    spec fn spec_cdf(&self, x: int) -> int;

    /// The sample that the given variates lead to.
    spec fn spec_sample(&self, variates: Variates) -> int;

    /// The interval on which the density is defined; an open end is given as
    /// the bound of the number range on that side.
    fn domain(&self) -> (r: (Fixed, Fixed))
        ensures
            r.0 == self.spec_domain().0,
            r.1 == self.spec_domain().1,
    ;

    /// The interval in which the density takes its values.
    fn range(&self) -> (r: (Fixed, Fixed))
        ensures
            r.0 == self.spec_range().0,
            r.1 == self.spec_range().1,
    ;

    /// The density at `x`.
    fn pdf(&self, x: Fixed) -> (r: Fixed)
        ensures
            r == self.spec_pdf(x as int),
    ;

    /// The probability of the interval `domain`, whose lower end must lie
    /// below its upper end.
    fn measure(&self, domain: &(Fixed, Fixed)) -> (r: Fixed)
        requires
            domain.0 < domain.1,
        ensures
            r == self.spec_measure(domain.0 as int, domain.1 as int),
    ;

    /// The probability of a value of at most `x`.
    fn cdf(&self, x: Fixed) -> (r: Fixed)
        ensures
            r == self.spec_cdf(x as int),
    ;

    /// Turns the variates of a randomness source into a sample.
    fn sample(&self, variates: Variates) -> (r: Fixed)
        ensures
            r == self.spec_sample(variates),
    ;
}

/// The density of `dist` integrated from `x` to `hi` by rectangles of
/// width [`RECTANGLE_STEP`], each as high as the density at its left edge;
/// the last rectangle is narrower where the interval is no whole number of
/// steps.
pub open spec fn density_integral<D: ContinuousProbabilityDistribution>(
    dist: D,
    x: int,
    hi: int,
) -> int
    decreases hi - x,
{
    if x >= hi {
        0
    } else if x + RECTANGLE_STEP < hi {
        fx_mul_spec(RECTANGLE_STEP as int, dist.spec_pdf(x)) + density_integral(
            dist,
            x + RECTANGLE_STEP,
            hi,
        )
    } else {
        fx_mul_spec(hi - x, dist.spec_pdf(x))
    }
}

/// The measure that `dist` gives the interval `domain`, by the rectangle
/// rule on its density with the fixed step width [`RECTANGLE_STEP`]. This
/// serves any distribution, whether or not it knows a better way.
pub fn measure_by_rectangles<D: ContinuousProbabilityDistribution>(
    dist: &D,
    domain: &(Fixed, Fixed),
) -> (r: Fixed)
    requires
        domain.0 < domain.1,
    ensures
        r == clamp(density_integral(*dist, domain.0 as int, domain.1 as int)),
{
    let lo: Fixed = domain.0;
    let hi: Fixed = domain.1;
    let mut sum: i128 = 0;
    let mut x: Fixed = lo;
    if lo < hi {
        loop
            invariant_except_break
                lo <= x < hi,
                sum + density_integral(*dist, x as int, hi as int) == density_integral(
                    *dist,
                    lo as int,
                    hi as int,
                ),
                -(x - lo) * 0x8000_0000_0000_0000 <= sum * 1_000_000_000_000 <= (x - lo)
                    * 0x8000_0000_0000_0000,
            ensures
                sum == density_integral(*dist, lo as int, hi as int),
            decreases hi - x,
        {
            if (x as i128) + (RECTANGLE_STEP as i128) < hi as i128 {
                let term: Fixed = fx_mul(RECTANGLE_STEP, dist.pdf(x));
                sum = sum + term as i128;
                x = x + RECTANGLE_STEP;
            } else {
                let term: Fixed = fx_mul(hi - x, dist.pdf(x));
                sum = sum + term as i128;
                break ;
            }
        }
    }
    if sum > FIXED_MAX as i128 {
        FIXED_MAX
    } else if sum < FIXED_MIN as i128 {
        FIXED_MIN
    } else {
        sum as i64
    }
}

/// The arithmetic mean of `samples`, rounded to the nearest unit; zero for
/// no samples.
pub open spec fn mean_spec(samples: Seq<i64>) -> int {
    if samples.len() == 0 {
        0
    } else {
        clamp(round_ratio(seq_sum(samples), samples.len() as int))
    }
}

/// The squared distances of the samples from `center`, as wide numbers:
/// neither the distance nor its square is cut to the number range.
pub open spec fn squared_deviations(samples: Seq<i64>, center: int) -> Seq<int> {
    Seq::new(
        samples.len(),
        |i: int| wide_mul_spec(samples[i] as int - center, samples[i] as int - center),
    )
}

/// The mean squared distance of `samples` from their mean; zero for no
/// samples. The squares are summed exactly, and only the mean is brought
/// into the number range.
pub open spec fn variance_spec(samples: Seq<i64>) -> int {
    clamp(wide_mean_spec(squared_deviations(samples, mean_spec(samples))))
}

/// The sum of `n` values of at most 64 bits stays within 128 bits.
proof fn lemma_sum_bound(total: int, n: int, step: int)
    requires
        0 <= n < 0xffff_ffff_ffff_ffff,
        -0x8000_0000_0000_0000 * n <= total <= 0x8000_0000_0000_0000 * n,
        -0x8000_0000_0000_0000 <= step <= 0x8000_0000_0000_0000,
    ensures
        -0x8000_0000_0000_0000 * (n + 1) <= total + step <= 0x8000_0000_0000_0000 * (n + 1),
        -0x7fff_ffff_ffff_ffff_ffff_ffff_ffff_ffff <= total + step
            <= 0x7fff_ffff_ffff_ffff_ffff_ffff_ffff_ffff,
{
}

/// The arithmetic mean of `samples`; zero for no samples.
pub fn mean_of(samples: &Vec<Fixed>) -> (r: Fixed)
    ensures
        r == mean_spec(samples@),
{
    let n: usize = samples.len();
    if n == 0 {
        return 0;
    }
    let mut sum: i128 = 0;
    let mut i: usize = 0;
    while i < n
        invariant
            i <= n,
            n == samples@.len(),
            sum == seq_sum(samples@.take(i as int)),
            -0x8000_0000_0000_0000 * i <= sum <= 0x8000_0000_0000_0000 * i,
        decreases n - i,
    {
        proof {
            assert(samples@.take(i as int + 1).drop_last() =~= samples@.take(i as int));
            lemma_sum_bound(sum as int, i as int, samples@[i as int] as int);
        }
        sum = sum + samples[i] as i128;
        i += 1;
    }
    proof {
        assert(samples@.take(n as int) =~= samples@);
    }
    divide_sum(sum, n)
}

/// The nearest fixed-point number to `sum / n`.
pub fn divide_sum(sum: i128, n: usize) -> (r: Fixed)
    requires
        n > 0,
        -0x8000_0000_0000_0000 * n <= sum <= 0x8000_0000_0000_0000 * n,
    ensures
        r == clamp(round_ratio(sum as int, n as int)),
{
    let negative: bool = sum < 0;
    let mag: u128 = if negative {
        (-sum) as u128
    } else {
        sum as u128
    };
    round_ratio_saturating(negative, mag, n as u128)
}

/// The fixed-point number `a` divided by the count `n`.
pub fn divide_count(a: Fixed, n: usize) -> (r: Fixed)
    ensures
        r == fx_div_int_spec(a as int, n as int),
{
    if n == 0 {
        if a > 0 {
            FIXED_MAX
        } else if a < 0 {
            FIXED_MIN
        } else {
            0
        }
    } else {
        round_ratio_saturating(a < 0, crate::fixed::magnitude(a), n as u128)
    }
}

/// The mean squared distance of `samples` from their mean; zero for no
/// samples.
pub fn variance_of(samples: &Vec<Fixed>) -> (r: Fixed)
    ensures
        r == variance_spec(samples@),
{
    let n: usize = samples.len();
    let mean: Fixed = mean_of(samples);
    let mut squares: Vec<i128> = Vec::new();
    let mut i: usize = 0;
    while i < n
        invariant
            i <= n,
            n == samples@.len(),
            squares@.len() == i,
            forall|k: int|
                0 <= k < i ==> in_wide_range(#[trigger] squares@[k] as int) && squares@[k]
                    == wide_mul_spec(samples@[k] - mean, samples@[k] - mean),
        decreases n - i,
    {
        let d: i128 = samples[i] as i128 - mean as i128;
        squares.push(wide_mul(d, d));
        i += 1;
    }
    proof {
        assert(as_ints(squares@) =~= squared_deviations(samples@, mean as int));
    }
    saturate(wide_mean(&squares))
}

/// The normal distribution with a given mean and a positive variance.
#[derive(Clone, Copy, Debug)]
pub struct NormalDistribution {
    mean: Fixed,
    variance: Fixed,
}

/// The square root of `2 pi` times the variance, in units of `10^-15`. The
/// product is held as a wide number, so that no variance of the number
/// range is too large for it.
pub open spec fn normal_root_spec(variance: int) -> int {
    fx_sqrt_spec(round_ratio(TWO_PI * variance, ONE as int))
}

/// The exponent of the normal density at `x`: minus the squared distance
/// from the mean over twice the variance. The square is taken exactly and
/// the quotient rounded once; only the result is brought into the number
/// range.
pub open spec fn normal_exponent_spec(mean: int, variance: int, x: int) -> int {
    clamp(-round_ratio((x - mean) * (x - mean), 2 * variance))
}

/// The normal density at `x` without its normalising constant.
pub open spec fn normal_height_spec(mean: int, variance: int, x: int) -> int {
    fx_exp_spec(normal_exponent_spec(mean, variance, x))
}

/// The normal density with the given parameters at `x`: the exponential of
/// [`normal_exponent_spec`] over the root of [`normal_root_spec`].
pub open spec fn normal_pdf_spec(mean: int, variance: int, x: int) -> int {
    wide_quotient_spec(normal_height_spec(mean, variance, x) * ONE, normal_root_spec(variance))
}

/// The `i`-th of the [`NUM_STEPS`] left edges of the rectangles that cover
/// the interval from `lo` to `hi`.
pub open spec fn normal_grid_point(lo: int, hi: int, i: int) -> int {
    lo + round_ratio(i * (hi - lo), NUM_STEPS as int)
}

/// Sum of the heights of the first `k` rectangles.
pub open spec fn normal_height_sum(mean: int, variance: int, lo: int, hi: int, k: nat) -> int
    decreases k,
{
    if k == 0 {
        0
    } else {
        normal_height_sum(mean, variance, lo, hi, (k - 1) as nat) + normal_height_spec(
            mean,
            variance,
            normal_grid_point(lo, hi, k - 1),
        )
    }
}

/// The measure that the normal distribution gives the interval from `lo` to
/// `hi`: the density integrated by the rectangle rule in [`NUM_STEPS`]
/// steps, each rectangle as high as the density at its left edge. It is
/// the mean height of the rectangles, times the length of the interval,
/// over the root of [`normal_root_spec`]. Nothing on the way is cut to the
/// number range: the exponents are exact whatever the interval, which is
/// what the substitution `g = (x - mean) / (hi - lo)` serves in floating
/// point. See [`NUM_STEPS`] for how far this lies from the integral. The
/// ends may be wide numbers.
pub open spec fn normal_measure_spec(mean: int, variance: int, lo: int, hi: int) -> int {
    if lo >= hi {
        0
    } else {
        let mean_height = round_ratio(
            normal_height_sum(mean, variance, lo, hi, NUM_STEPS as nat),
            NUM_STEPS as int,
        );
        wide_quotient_spec(mean_height * (hi - lo), normal_root_spec(variance))
    }
}

/// Five standard deviations below the mean, where the cumulative
/// distribution starts to integrate; it may lie below the number range.
pub open spec fn normal_lower_spec(mean: int, variance: int) -> int {
    mean - 5 * fx_sqrt_spec(variance)
}

/// The largest magnitude of the ends of an interval that the normal
/// measure takes: `2^70` units, about a million.
pub const NORMAL_WIDE_MAX: i128 = 0x40_0000_0000_0000_0000;

/// The square root of `2 pi` times the variance.
pub fn normal_root(variance: Fixed) -> (r: u128)
    requires
        variance > 0,
    ensures
        r == normal_root_spec(variance as int),
        r <= 0xffff_ffff_ffff_ffff,
{
    assert(0 <= TWO_PI * variance <= 6_283_185_307_179_586 * 0x8000_0000_0000_0000)
        by (nonlinear_arith)
        requires
            0 < variance <= 0x8000_0000_0000_0000,
            TWO_PI == 6_283_185_307_179_586,
    ;
    let product: u128 = TWO_PI as u128 * variance as u128;
    let wide: u128 = round_ratio_wide(product, ONE as u128);
    proof {
        lemma_round_ratio_nearest(product as int, ONE as int);
    }
    fx_sqrt_wide(wide)
}

/// The normal density at the wide number `x` without its normalising
/// constant.
pub fn normal_height(mean: Fixed, variance: Fixed, x: i128) -> (h: Fixed)
    requires
        variance > 0,
        -NORMAL_WIDE_MAX <= x <= NORMAL_WIDE_MAX,
    ensures
        h == normal_height_spec(mean as int, variance as int, x as int),
        0 <= h <= ONE,
{
    let d: i128 = x - mean as i128;
    let mag: u128 = if d < 0 {
        (-d) as u128
    } else {
        d as u128
    };
    let ghost square: int = (x - mean) * (x - mean);
    proof {
        assert(square == mag * mag) by (nonlinear_arith)
            requires
                square == (x - mean) * (x - mean),
                mag == if x - mean < 0 { -(x - mean) } else { x - mean },
        ;
        lemma_round_ratio_nearest(square, 2 * variance);
        crate::fixed_exp::lemma_exp_of_zero();
        crate::fixed_exp::lemma_exp_nonnegative(
            normal_exponent_spec(mean as int, variance as int, x as int),
        );
        crate::fixed_exp::law_exp_is_monotone(
            normal_exponent_spec(mean as int, variance as int, x as int),
            0,
        );
    }
    if mag >= 0x8000_0000_0000_0000 {
        proof {
            let q = round_ratio(square, 2 * variance);
            assert(square >= 0x8000_0000_0000_0000 * 0x8000_0000_0000_0000) by (nonlinear_arith)
                requires
                    square == mag * mag,
                    mag >= 0x8000_0000_0000_0000,
            ;
            assert(q >= 0x1000_0000_0000_0000) by (nonlinear_arith)
                requires
                    -(2 * variance) <= 2 * (square - (2 * variance) * q) <= 2 * variance,
                    square >= 0x8000_0000_0000_0000 * 0x8000_0000_0000_0000,
                    0 < variance <= 0x8000_0000_0000_0000,
            ;
        }
        return 0;
    }
    assert(mag * mag <= 0x8000_0000_0000_0000 * 0x8000_0000_0000_0000) by (nonlinear_arith)
        requires
            mag <= 0x8000_0000_0000_0000,
    ;
    let exponent: Fixed = round_ratio_saturating(true, mag * mag, 2 * (variance as u128));
    fx_exp(exponent)
}

impl NormalDistribution {
    #[verifier::type_invariant]
    spec fn inv(&self) -> bool {
        self.variance > 0
    }

    /// The mean.
    pub closed spec fn spec_mean(&self) -> int {
        self.mean as int
    }

    /// The variance.
    pub closed spec fn spec_variance(&self) -> int {
        self.variance as int
    }

    /// The invariant of the type, for values that exist only in proofs.
    pub open spec fn valid(&self) -> bool {
        self.spec_variance() > 0
    }

    /// The normal distribution with the given parameters, for use in
    /// specifications.
    pub closed spec fn spec_new(mean: int, variance: int) -> Self {
        NormalDistribution { mean: mean as i64, variance: variance as i64 }
    }

    /// The normal distribution with the given mean and variance; the
    /// variance must be positive.
    pub fn new(mean: Fixed, variance: Fixed) -> (r: Result<Self, DistributionError>)
        ensures
            match r {
                Ok(dist) => variance > 0 && dist.valid() && dist.spec_mean() == mean
                    && dist.spec_variance() == variance && dist == Self::spec_new(
                    mean as int,
                    variance as int,
                ),
                Err(e) => variance <= 0 && e == DistributionError::DegenerateParameter,
            },
    {
        if variance > 0 {
            Ok(NormalDistribution { mean, variance })
        } else {
            Err(DistributionError::DegenerateParameter)
        }
    }

    /// The mean.
    pub fn mean(&self) -> (r: Fixed)
        ensures
            r == self.spec_mean(),
    {
        self.mean
    }

    /// The variance.
    pub fn variance(&self) -> (r: Fixed)
        ensures
            r == self.spec_variance(),
            r > 0,
    {
        proof {
            use_type_invariant(self);
        }
        self.variance
    }

    /// The normal distribution fitted to `samples` by the method of moments:
    /// their mean, and their mean squared distance from it. Fails where that
    /// variance is not positive, as for no samples or equal ones.
    pub fn estimate(samples: &Vec<Fixed>) -> (r: Result<Self, DistributionError>)
        ensures
            match r {
                Ok(dist) => {
                    &&& variance_spec(samples@) > 0
                    &&& dist.valid()
                    &&& dist.spec_mean() == mean_spec(samples@)
                    &&& dist.spec_variance() == variance_spec(samples@)
                    &&& dist == Self::spec_new(mean_spec(samples@), variance_spec(samples@))
                },
                Err(e) => variance_spec(samples@) <= 0 && e
                    == DistributionError::DegenerateParameter,
            },
    {
        let mean: Fixed = mean_of(samples);
        let variance: Fixed = variance_of(samples);
        Self::new(mean, variance)
    }
}

impl ContinuousProbabilityDistribution for NormalDistribution {
    open spec fn spec_domain(&self) -> (int, int) {
        (FIXED_MIN as int, FIXED_MAX as int)
    }

    open spec fn spec_range(&self) -> (int, int) {
        (0, FIXED_MAX as int)
    }

    open spec fn spec_pdf(&self, x: int) -> int {
        normal_pdf_spec(self.spec_mean(), self.spec_variance(), x)
    }

    open spec fn spec_measure(&self, lo: int, hi: int) -> int {
        normal_measure_spec(self.spec_mean(), self.spec_variance(), lo, hi)
    }

    open spec fn spec_cdf(&self, x: int) -> int {
        normal_measure_spec(
            self.spec_mean(),
            self.spec_variance(),
            normal_lower_spec(self.spec_mean(), self.spec_variance()),
            x,
        )
    }

    open spec fn spec_sample(&self, variates: Variates) -> int {
        clamp(
            self.spec_mean() + round_ratio(
                fx_sqrt_spec(self.spec_variance()) * variates.standard_normal,
                ONE as int,
            ),
        )
    }

    fn domain(&self) -> (r: (Fixed, Fixed)) {
        (FIXED_MIN, FIXED_MAX)
    }

    fn range(&self) -> (r: (Fixed, Fixed)) {
        (0, FIXED_MAX)
    }

    fn pdf(&self, x: Fixed) -> (r: Fixed) {
        self.pdf_wide(x as i128)
    }

    fn measure(&self, domain: &(Fixed, Fixed)) -> (r: Fixed) {
        self.measure_between(domain.0 as i128, domain.1 as i128)
    }

    fn cdf(&self, x: Fixed) -> (r: Fixed) {
        proof {
            use_type_invariant(self);
        }
        let sigma: Fixed = fx_sqrt(self.variance);
        let lower: i128 = self.mean as i128 - 5 * sigma as i128;
        if lower < x as i128 {
            self.measure_between(lower, x as i128)
        } else {
            0
        }
    }

    fn sample(&self, variates: Variates) -> (r: Fixed) {
        let sigma: Fixed = fx_sqrt(self.variance);
        let z: Fixed = variates.standard_normal;
        assert(sigma * abs_int(z as int) <= 0x8000_0000_0000_0000 * 0x8000_0000_0000_0000)
            by (nonlinear_arith)
            requires
                0 <= sigma <= 0x8000_0000_0000_0000,
                0 <= abs_int(z as int) <= 0x8000_0000_0000_0000,
        ;
        let mag: u128 = sigma as u128 * magnitude(z);
        let step: u128 = round_ratio_wide(mag, ONE as u128);
        proof {
            lemma_round_ratio_nearest(mag as int, ONE as int);
            lemma_round_ratio_nearest(sigma * z, ONE as int);
            assert(sigma * z == if z < 0 {
                -(mag as int)
            } else {
                mag as int
            }) by (nonlinear_arith)
                requires
                    mag == sigma * abs_int(z as int),
            ;
            assert(step <= mag);
        }
        let wide: i128 = if z < 0 {
            self.mean as i128 - step as i128
        } else {
            self.mean as i128 + step as i128
        };
        if wide > FIXED_MAX as i128 {
            FIXED_MAX
        } else if wide < FIXED_MIN as i128 {
            FIXED_MIN
        } else {
            wide as i64
        }
    }
}

impl NormalDistribution {
    /// The density at the wide number `x`, of at most [`NORMAL_WIDE_MAX`] in
    /// magnitude.
    pub fn pdf_wide(&self, x: i128) -> (r: Fixed)
        requires
            -NORMAL_WIDE_MAX <= x <= NORMAL_WIDE_MAX,
        ensures
            r == normal_pdf_spec(self.spec_mean(), self.spec_variance(), x as int),
            r >= 0,
    {
        proof {
            use_type_invariant(self);
        }
        let height: Fixed = normal_height(self.mean, self.variance, x);
        assert(height * ONE <= 1_000_000_000_000_000 * 1_000_000_000_000_000) by (nonlinear_arith)
            requires
                0 <= height <= ONE,
                ONE == 1_000_000_000_000_000,
        ;
        let root: u128 = normal_root(self.variance);
        proof {
            if root > 0 {
                lemma_round_ratio_nearest(height * ONE, root as int);
            }
        }
        wide_quotient(false, height as u128 * ONE as u128, root)
    }

    /// The probability of the interval from `lo` to `hi`, two wide numbers
    /// of at most [`NORMAL_WIDE_MAX`] in magnitude with `lo` below `hi`.
    pub fn measure_between(&self, lo: i128, hi: i128) -> (r: Fixed)
        requires
            -NORMAL_WIDE_MAX <= lo < hi <= NORMAL_WIDE_MAX,
        ensures
            r == normal_measure_spec(
                self.spec_mean(),
                self.spec_variance(),
                lo as int,
                hi as int,
            ),
    {
        proof {
            use_type_invariant(self);
        }
        let length: u128 = (hi - lo) as u128;
        let mut sum: u128 = 0;
        let mut i: usize = 0;
        while i < NUM_STEPS
            invariant
                i <= NUM_STEPS,
                self.variance > 0,
                -NORMAL_WIDE_MAX <= lo < hi <= NORMAL_WIDE_MAX,
                length == hi - lo,
                sum == normal_height_sum(
                    self.mean as int,
                    self.variance as int,
                    lo as int,
                    hi as int,
                    i as nat,
                ),
                sum <= i * ONE,
            decreases NUM_STEPS - i,
        {
            assert(0 <= i * length <= 10000 * 0x80_0000_0000_0000_0000)
                by (nonlinear_arith)
                requires
                    0 <= i <= 10000,
                    0 <= length <= 0x80_0000_0000_0000_0000,
            ;
            let travelled: u128 = i as u128 * length;
            let offset: u128 = round_ratio_wide(travelled, NUM_STEPS as u128);
            proof {
                let full: int = length * NUM_STEPS;
                assert(travelled <= full) by (nonlinear_arith)
                    requires
                        travelled == i * length,
                        full == length * NUM_STEPS,
                        i <= NUM_STEPS,
                        length >= 0,
                ;
                lemma_round_ratio_monotone(travelled as int, full, NUM_STEPS as int);
                lemma_round_ratio_exact(length as int, NUM_STEPS as int);
                assert(offset <= length);
                assert(i * (hi - lo) == travelled);
            }
            let x: i128 = lo + offset as i128;
            let height: Fixed = normal_height(self.mean, self.variance, x);
            assert((i + 1) * ONE == i * ONE + ONE) by (nonlinear_arith);
            sum = sum + height as u128;
            i += 1;
        }
        let mean_height: u128 = round_ratio_wide(sum, NUM_STEPS as u128);
        proof {
            let full: int = ONE * NUM_STEPS;
            assert(sum <= full) by (nonlinear_arith)
                requires
                    sum <= i * ONE,
                    i == NUM_STEPS,
                    full == ONE * NUM_STEPS,
            ;
            lemma_round_ratio_monotone(sum as int, full, NUM_STEPS as int);
            lemma_round_ratio_exact(ONE as int, NUM_STEPS as int);
            assert(mean_height <= ONE);
        }
        assert(mean_height * length <= 1_000_000_000_000_000
            * 0x80_0000_0000_0000_0000) by (nonlinear_arith)
            requires
                mean_height <= 1_000_000_000_000_000,
                length <= 0x80_0000_0000_0000_0000,
        ;
        wide_quotient(false, mean_height * length, normal_root(self.variance))
    }
}

/// The least entry of `s`; the upper bound of the number range for an empty
/// `s`.
pub open spec fn min_spec(s: Seq<i64>) -> int
    decreases s.len(),
{
    if s.len() == 0 {
        FIXED_MAX as int
    } else if s.last() < min_spec(s.drop_last()) {
        s.last() as int
    } else {
        min_spec(s.drop_last())
    }
}

/// The greatest entry of `s`; the lower bound of the number range for an
/// empty `s`.
pub open spec fn max_spec(s: Seq<i64>) -> int
    decreases s.len(),
{
    if s.len() == 0 {
        FIXED_MIN as int
    } else if s.last() > max_spec(s.drop_last()) {
        s.last() as int
    } else {
        max_spec(s.drop_last())
    }
}

/// The least entry of `samples`.
pub fn min_of(samples: &Vec<Fixed>) -> (r: Fixed)
    ensures
        r == min_spec(samples@),
{
    let n: usize = samples.len();
    let mut least: Fixed = FIXED_MAX;
    let mut i: usize = 0;
    assert(samples@.take(0) =~= Seq::<i64>::empty());
    while i < n
        invariant
            i <= n,
            n == samples@.len(),
            least == min_spec(samples@.take(i as int)),
        decreases n - i,
    {
        proof {
            assert(samples@.take(i as int + 1).drop_last() =~= samples@.take(i as int));
        }
        if samples[i] < least {
            least = samples[i];
        }
        i += 1;
    }
    proof {
        assert(samples@.take(n as int) =~= samples@);
    }
    least
}

/// The greatest entry of `samples`.
pub fn max_of(samples: &Vec<Fixed>) -> (r: Fixed)
    ensures
        r == max_spec(samples@),
{
    let n: usize = samples.len();
    let mut greatest: Fixed = FIXED_MIN;
    let mut i: usize = 0;
    assert(samples@.take(0) =~= Seq::<i64>::empty());
    while i < n
        invariant
            i <= n,
            n == samples@.len(),
            greatest == max_spec(samples@.take(i as int)),
        decreases n - i,
    {
        proof {
            assert(samples@.take(i as int + 1).drop_last() =~= samples@.take(i as int));
        }
        if samples[i] > greatest {
            greatest = samples[i];
        }
        i += 1;
    }
    proof {
        assert(samples@.take(n as int) =~= samples@);
    }
    greatest
}

/// Sum over `s` of the natural logarithm of each entry divided by `base`.
pub open spec fn log_ratio_sum(s: Seq<i64>, base: int) -> int
    decreases s.len(),
{
    if s.len() == 0 {
        0
    } else {
        log_ratio_sum(s.drop_last(), base) + fx_sub_spec(
            fx_ln_spec(s.last() as int),
            fx_ln_spec(base),
        )
    }
}

/// The exponent that the Hill estimator gives for `samples`: one plus the
/// inverse of the mean logarithm of the samples over their minimum.
pub open spec fn hill_exponent_spec(samples: Seq<i64>) -> int {
    let mean_log = clamp(
        round_ratio(log_ratio_sum(samples, min_spec(samples)), samples.len() as int),
    );
    fx_add_spec(ONE as int, fx_div_spec(ONE as int, mean_log))
}

/// The factor of the power-law density: `(exponent - 1)` times
/// `(min_x - shift)` to the power `exponent - 1`. It is a wide number, and
/// so is the power in it.
pub open spec fn power_law_factor_spec(shift: int, exponent: int, min_x: int) -> int {
    wide_mul_spec(exponent - ONE, wide_pow_spec(min_x - shift, exponent - ONE))
}

/// The power-law density with the given parameters at `x`: the factor
/// times `x` to the power `-exponent`. Factor, power and product are wide
/// numbers; only the density itself is brought into the number range. The
/// argument may be a wide number.
pub open spec fn power_law_pdf_spec(shift: int, exponent: int, min_x: int, x: int) -> int {
    clamp(wide_mul_spec(power_law_factor_spec(shift, exponent, min_x), wide_pow_spec(x, -exponent)))
}

/// The measure that the power law gives the interval from `lo` to `hi`,
/// by the antiderivative of the density: the factor, times the difference
/// of `lo - shift` and `hi - shift`, each raised to the power
/// `1 - exponent`, over `exponent - 1`. Factor, powers and product are
/// wide numbers; only the quotient is brought into the number range. The
/// ends may be wide numbers.
pub open spec fn power_law_measure_spec(
    factor: int,
    shift: int,
    exponent: int,
    lo: int,
    hi: int,
) -> int {
    let power = ONE - exponent;
    wide_div_spec(
        wide_mul_spec(
            factor,
            wide_pow_spec(lo - shift, power) - wide_pow_spec(hi - shift, power),
        ),
        exponent - ONE,
    )
}

/// The probability that the power law gives a value of at most `x`: zero
/// up to the least value, and the measure from the least value to `x`
/// above it.
pub open spec fn power_law_cdf_spec(
    factor: int,
    shift: int,
    exponent: int,
    min_x: int,
    x: int,
) -> int {
    if x <= min_x {
        0
    } else {
        power_law_measure_spec(factor, shift, exponent, min_x, x)
    }
}

/// The power-law distribution with a shift, an exponent above one, and a
/// least value above the shift.
#[derive(Clone, Copy, Debug)]
pub struct PowerLawDistribution {
    factor: i128,
    shift: Fixed,
    exponent: Fixed,
    min_x: Fixed,
}

impl PowerLawDistribution {
    #[verifier::type_invariant]
    spec fn inv(&self) -> bool {
        &&& self.exponent > ONE
        &&& self.shift < self.min_x
        &&& self.factor == power_law_factor_spec(
            self.shift as int,
            self.exponent as int,
            self.min_x as int,
        )
    }

    /// The shift.
    pub closed spec fn spec_shift(&self) -> int {
        self.shift as int
    }

    /// The exponent.
    pub closed spec fn spec_exponent(&self) -> int {
        self.exponent as int
    }

    /// The least value of the support.
    pub closed spec fn spec_min_x(&self) -> int {
        self.min_x as int
    }

    /// The factor of the density.
    pub open spec fn spec_factor(&self) -> int {
        power_law_factor_spec(self.spec_shift(), self.spec_exponent(), self.spec_min_x())
    }

    /// The invariant of the type, for values that exist only in proofs.
    pub open spec fn valid(&self) -> bool {
        self.spec_exponent() > ONE && self.spec_shift() < self.spec_min_x()
    }

    /// The power law with the given parameters, for use in specifications.
    pub closed spec fn spec_new(shift: int, exponent: int, min_x: int) -> Self {
        PowerLawDistribution {
            factor: power_law_factor_spec(shift, exponent, min_x) as i128,
            shift: shift as i64,
            exponent: exponent as i64,
            min_x: min_x as i64,
        }
    }

    /// The power law with the given parameters; the exponent must exceed one
    /// and the least value must exceed the shift.
    pub fn new(shift: Fixed, exponent: Fixed, min_x: Fixed) -> (r: Result<
        Self,
        DistributionError,
    >)
        ensures
            match r {
                Ok(dist) => {
                    &&& exponent > ONE && shift < min_x
                    &&& dist.valid()
                    &&& dist.spec_shift() == shift
                    &&& dist.spec_exponent() == exponent
                    &&& dist.spec_min_x() == min_x
                    &&& dist == Self::spec_new(shift as int, exponent as int, min_x as int)
                },
                Err(e) => (exponent <= ONE || shift >= min_x) && e
                    == DistributionError::DegenerateParameter,
            },
    {
        if exponent <= ONE || shift >= min_x {
            return Err(DistributionError::DegenerateParameter);
        }
        let reduced: Fixed = exponent - ONE;
        let spread: i128 = min_x as i128 - shift as i128;
        let factor: i128 = wide_mul(reduced as i128, wide_pow(spread, reduced));
        Ok(PowerLawDistribution { factor, shift, exponent, min_x })
    }

    /// The shift.
    pub fn shift(&self) -> (r: Fixed)
        ensures
            r == self.spec_shift(),
    {
        self.shift
    }

    /// The exponent.
    pub fn exponent(&self) -> (r: Fixed)
        ensures
            r == self.spec_exponent(),
            r > ONE,
    {
        proof {
            use_type_invariant(self);
        }
        self.exponent
    }

    /// The least value of the support.
    pub fn min_x(&self) -> (r: Fixed)
        ensures
            r == self.spec_min_x(),
            r > self.spec_shift(),
    {
        proof {
            use_type_invariant(self);
        }
        self.min_x
    }

    /// The power law fitted to `samples` by the Hill estimator: the least
    /// sample as least value, one less as shift, and the exponent of
    /// [`hill_exponent_spec`]. Fails for no samples and where that exponent
    /// does not exceed one.
    pub fn estimate(samples: &Vec<Fixed>) -> (r: Result<Self, DistributionError>)
        ensures
            match r {
                Ok(dist) => {
                    &&& samples@.len() > 0
                    &&& dist.valid()
                    &&& dist.spec_min_x() == min_spec(samples@)
                    &&& dist.spec_shift() == fx_sub_spec(min_spec(samples@), ONE as int)
                    &&& dist.spec_exponent() == hill_exponent_spec(samples@)
                    &&& dist == Self::spec_new(
                        fx_sub_spec(min_spec(samples@), ONE as int),
                        hill_exponent_spec(samples@),
                        min_spec(samples@),
                    )
                },
                Err(e) => {
                    &&& e == DistributionError::DegenerateParameter
                    &&& (samples@.len() == 0 || hill_exponent_spec(samples@) <= ONE || fx_sub_spec(
                        min_spec(samples@),
                        ONE as int,
                    ) >= min_spec(samples@))
                },
            },
    {
        let n: usize = samples.len();
        if n == 0 {
            return Err(DistributionError::DegenerateParameter);
        }
        let min_x: Fixed = min_of(samples);
        let shift: Fixed = fx_sub(min_x, ONE);
        let low: Fixed = fx_ln(min_x);
        let mut sum: i128 = 0;
        let mut i: usize = 0;
        while i < n
            invariant
                i <= n,
                n == samples@.len(),
                low == fx_ln_spec(min_x as int),
                sum == log_ratio_sum(samples@.take(i as int), min_x as int),
                -0x8000_0000_0000_0000 * i <= sum <= 0x8000_0000_0000_0000 * i,
            decreases n - i,
        {
            let term: Fixed = fx_sub(fx_ln(samples[i]), low);
            proof {
                assert(samples@.take(i as int + 1).drop_last() =~= samples@.take(i as int));
                lemma_sum_bound(sum as int, i as int, term as int);
            }
            sum = sum + term as i128;
            i += 1;
        }
        proof {
            assert(samples@.take(n as int) =~= samples@);
        }
        let mean_log: Fixed = divide_sum(sum, n);
        let exponent: Fixed = fx_add(ONE, fx_div(ONE, mean_log));
        Self::new(shift, exponent, min_x)
    }
}

/// The distance of the wide number `x` from `shift`, as far as the power
/// of it depends on it: exact where it lies within the range of wide
/// numbers, and beyond that range on the same side.
pub fn wide_distance(x: i128, shift: Fixed) -> (d: i128)
    ensures
        d <= 0 <==> x - shift <= 0,
        d > 0 ==> (if x - shift > WIDE_MAX {
            d > WIDE_MAX
        } else {
            d == x - shift
        }),
{
    let bound: i128 = 2 * WIDE_MAX;
    let near: i128 = if x > bound {
        bound
    } else if x < -bound {
        -bound
    } else {
        x
    };
    near - shift as i128
}

impl PowerLawDistribution {
    /// The density at the wide number `x`, which counts units of `10^-15`.
    pub fn pdf_wide(&self, x: i128) -> (r: Fixed)
        ensures
            r == power_law_pdf_spec(
                self.spec_shift(),
                self.spec_exponent(),
                self.spec_min_x(),
                x as int,
            ),
    {
        proof {
            use_type_invariant(self);
        }
        saturate(wide_mul(self.factor, wide_pow(x, -self.exponent)))
    }

    /// The probability of the interval from `lo` to `hi`, two wide numbers
    /// with `lo` below `hi`.
    pub fn measure_wide(&self, lo: i128, hi: i128) -> (r: Fixed)
        requires
            lo < hi,
        ensures
            r == power_law_measure_spec(
                self.spec_factor(),
                self.spec_shift(),
                self.spec_exponent(),
                lo as int,
                hi as int,
            ),
    {
        proof {
            use_type_invariant(self);
        }
        let power: Fixed = ONE - self.exponent;
        let low: i128 = wide_pow(wide_distance(lo, self.shift), power);
        let high: i128 = wide_pow(wide_distance(hi, self.shift), power);
        wide_div(wide_mul(self.factor, low - high), (self.exponent - ONE) as i128)
    }

    /// The probability of a value of at most the wide number `x`.
    pub fn cdf_wide(&self, x: i128) -> (r: Fixed)
        ensures
            r == power_law_cdf_spec(
                self.spec_factor(),
                self.spec_shift(),
                self.spec_exponent(),
                self.spec_min_x(),
                x as int,
            ),
    {
        if x <= self.min_x as i128 {
            0
        } else {
            self.measure_wide(self.min_x as i128, x)
        }
    }
}

impl ContinuousProbabilityDistribution for PowerLawDistribution {
    open spec fn spec_domain(&self) -> (int, int) {
        (self.spec_min_x(), FIXED_MAX as int)
    }

    open spec fn spec_range(&self) -> (int, int) {
        (0, FIXED_MAX as int)
    }

    open spec fn spec_pdf(&self, x: int) -> int {
        power_law_pdf_spec(self.spec_shift(), self.spec_exponent(), self.spec_min_x(), x)
    }

    open spec fn spec_measure(&self, lo: int, hi: int) -> int {
        power_law_measure_spec(self.spec_factor(), self.spec_shift(), self.spec_exponent(), lo, hi)
    }

    open spec fn spec_cdf(&self, x: int) -> int {
        power_law_cdf_spec(
            self.spec_factor(),
            self.spec_shift(),
            self.spec_exponent(),
            self.spec_min_x(),
            x,
        )
    }

    open spec fn spec_sample(&self, variates: Variates) -> int {
        clamp(
            wide_mul_spec(
                self.spec_min_x() - self.spec_shift(),
                wide_pow_spec(
                    fx_sub_spec(ONE as int, variates.uniform as int),
                    fx_div_spec(ONE as int, ONE - self.spec_exponent()),
                ),
            ) + self.spec_shift(),
        )
    }

    fn domain(&self) -> (r: (Fixed, Fixed)) {
        (self.min_x, FIXED_MAX)
    }

    fn range(&self) -> (r: (Fixed, Fixed)) {
        (0, FIXED_MAX)
    }

    fn pdf(&self, x: Fixed) -> (r: Fixed) {
        self.pdf_wide(x as i128)
    }

    fn measure(&self, domain: &(Fixed, Fixed)) -> (r: Fixed) {
        self.measure_wide(domain.0 as i128, domain.1 as i128)
    }

    fn cdf(&self, x: Fixed) -> (r: Fixed) {
        self.cdf_wide(x as i128)
    }

    fn sample(&self, variates: Variates) -> (r: Fixed) {
        proof {
            use_type_invariant(self);
        }
        let spread: i128 = self.min_x as i128 - self.shift as i128;
        let base: Fixed = fx_sub(ONE, variates.uniform);
        let power: Fixed = fx_div(ONE, ONE - self.exponent);
        saturate(wide_mul(spread, wide_pow(base as i128, power)) + self.shift as i128)
    }
}

} // verus!
