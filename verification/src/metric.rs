//! Distances between distributions of the same kind: the root of the
//! summed, or integrated, squared difference of their mass or density
//! functions.
//!
//! Differences, squares and their sums are wide numbers; only the root is
//! brought into the fixed-point range.

use crate::continuous_distribution::{normal_pdf_spec, NormalDistribution, RECTANGLE_STEP};
use crate::discrete_distribution::{
    outcome_union, pmf_in, union_outcomes, DiscreteProbabilityDistribution,
};
use crate::fixed::{clamp, Fixed, FIXED_MAX};
use crate::fixed_sqrt::{fx_sqrt, fx_sqrt_spec};
use crate::wide::{
    as_ints, in_wide_range, lemma_sqrt_of_large, wide_mul, wide_mul_spec, wide_root,
    wide_root_of_total, wide_sum,
};
use vstd::prelude::*;

verus! {

/// The square of the difference of `p` and `q`, as a wide number.
pub open spec fn squared_difference(p: int, q: int) -> int {
    wide_mul_spec(p - q, p - q)
}

/// For each of `points` the squared difference of the probabilities that
/// the two distributions give it.
pub open spec fn squared_differences(
    xo: Seq<i32>,
    xp: Seq<i64>,
    yo: Seq<i32>,
    yp: Seq<i64>,
    points: Seq<i32>,
) -> Seq<int> {
    Seq::new(
        points.len(),
        |i: int| squared_difference(pmf_in(xo, xp, points[i]), pmf_in(yo, yp, points[i])),
    )
}

/// The distance of the distributions with the given outcomes and
/// probabilities.
pub open spec fn discrete_metric_spec(
    xo: Seq<i32>,
    xp: Seq<i64>,
    yo: Seq<i32>,
    yp: Seq<i64>,
) -> int {
    clamp(fx_sqrt_spec(wide_sum(squared_differences(xo, xp, yo, yp, union_outcomes(xo, yo)))))
}

/// The distance of two discrete distributions: the square root of the sum,
/// over the outcomes of either, of the squared difference of the
/// probabilities that the two give the outcome.
pub fn discrete_distribution_metric(
    dist_x: &DiscreteProbabilityDistribution<i32>,
    dist_y: &DiscreteProbabilityDistribution<i32>,
) -> (r: Fixed)
    ensures
        ({
            let xo = dist_x.spec_outcomes();
            let xp = dist_x.spec_probabilities();
            let yo = dist_y.spec_outcomes();
            let yp = dist_y.spec_probabilities();
            r == discrete_metric_spec(xo, xp, yo, yp)
        }),
{
    let ghost xo = dist_x.spec_outcomes();
    let ghost xp = dist_x.spec_probabilities();
    let ghost yo = dist_y.spec_outcomes();
    let ghost yp = dist_y.spec_probabilities();
    let points: Vec<i32> = outcome_union(dist_x, dist_y);
    let n: usize = points.len();
    let mut squares: Vec<i128> = Vec::new();
    let mut i: usize = 0;
    while i < n
        invariant
            i <= n,
            n == points@.len(),
            xo == dist_x.spec_outcomes(),
            xp == dist_x.spec_probabilities(),
            yo == dist_y.spec_outcomes(),
            yp == dist_y.spec_probabilities(),
            squares@.len() == i,
            forall|k: int|
                0 <= k < i ==> in_wide_range(#[trigger] squares@[k] as int) && squares@[k]
                    == squared_difference(pmf_in(xo, xp, points@[k]), pmf_in(yo, yp, points@[k])),
        decreases n - i,
    {
        let d: i128 = dist_x.pmf(&points[i]) as i128 - dist_y.pmf(&points[i]) as i128;
        squares.push(wide_mul(d, d));
        i += 1;
    }
    proof {
        assert(as_ints(squares@) =~= squared_differences(xo, xp, yo, yp, points@));
    }
    wide_root_of_total(&squares)
}

/// The squared difference of two normal densities at `x`.
pub open spec fn normal_squared_difference(
    mean_x: int,
    variance_x: int,
    mean_y: int,
    variance_y: int,
    x: int,
) -> int {
    squared_difference(
        normal_pdf_spec(mean_x, variance_x, x),
        normal_pdf_spec(mean_y, variance_y, x),
    )
}

/// The squared difference of two normal densities, integrated from `x` to
/// `hi` by rectangles of width [`RECTANGLE_STEP`], the last one narrower where
/// the interval is no whole number of steps.
pub open spec fn normal_difference_integral(
    mean_x: int,
    variance_x: int,
    mean_y: int,
    variance_y: int,
    x: int,
    hi: int,
) -> int
    decreases hi - x,
{
    if x >= hi {
        0
    } else if x + RECTANGLE_STEP < hi {
        wide_mul_spec(
            RECTANGLE_STEP as int,
            normal_squared_difference(mean_x, variance_x, mean_y, variance_y, x),
        ) + normal_difference_integral(
            mean_x,
            variance_x,
            mean_y,
            variance_y,
            x + RECTANGLE_STEP,
            hi,
        )
    } else {
        wide_mul_spec(hi - x, normal_squared_difference(mean_x, variance_x, mean_y, variance_y, x))
    }
}

/// The area of one rectangle under the squared difference of the two
/// densities: its width times the squared difference at `x`.
pub fn difference_rectangle(
    normal_x: &NormalDistribution,
    normal_y: &NormalDistribution,
    x: i128,
    width: i128,
) -> (area: i128)
    requires
        -SPAN_MAX <= x <= SPAN_MAX,
        0 <= width <= RECTANGLE_STEP,
    ensures
        area == wide_mul_spec(
            width as int,
            normal_squared_difference(
                normal_x.spec_mean(),
                normal_x.spec_variance(),
                normal_y.spec_mean(),
                normal_y.spec_variance(),
                x as int,
            ),
        ),
        0 <= area,
        in_wide_range(area as int),
{
    let d: i128 = normal_x.pdf_wide(x) as i128 - normal_y.pdf_wide(x) as i128;
    wide_mul(width, wide_mul(d, d))
}

/// Five standard deviations from the mean, downward for a negative
/// `direction` and upward otherwise: a wide number.
pub open spec fn five_sigma_spec(mean: int, variance: int, direction: int) -> int {
    if direction < 0 {
        mean - 5 * fx_sqrt_spec(variance)
    } else {
        mean + 5 * fx_sqrt_spec(variance)
    }
}

/// The lower of two numbers.
pub open spec fn lower(a: int, b: int) -> int {
    if a < b {
        a
    } else {
        b
    }
}

/// The higher of two numbers.
pub open spec fn higher(a: int, b: int) -> int {
    if a > b {
        a
    } else {
        b
    }
}

/// No end of an interval of integration lies farther from zero than this.
pub const SPAN_MAX: i128 = 0x8_0000_0000_0000_0000;

/// The sum from which on the root of an integral lies beyond the number
/// range whatever is added.
pub const FULL_SUM: i128 = 0x4000_0000_0000_0000_0000_0000_0000;

/// The distance of two normal distributions: the square root of the
/// integral of the squared difference of their densities, over the interval
/// that reaches five standard deviations beyond both means on either side.
pub fn normal_distribution_metric(normal_x: &NormalDistribution, normal_y: &NormalDistribution) -> (r:
    Fixed)
    ensures
        ({
            let mx = normal_x.spec_mean();
            let vx = normal_x.spec_variance();
            let my = normal_y.spec_mean();
            let vy = normal_y.spec_variance();
            let lo = lower(five_sigma_spec(mx, vx, -1), five_sigma_spec(my, vy, -1));
            let hi = higher(five_sigma_spec(mx, vx, 1), five_sigma_spec(my, vy, 1));
            r == clamp(fx_sqrt_spec(normal_difference_integral(mx, vx, my, vy, lo, hi)))
        }),
{
    let reach_x: i128 = 5 * (fx_sqrt(normal_x.variance()) as i128);
    let reach_y: i128 = 5 * (fx_sqrt(normal_y.variance()) as i128);
    let low_x: i128 = normal_x.mean() as i128 - reach_x;
    let low_y: i128 = normal_y.mean() as i128 - reach_y;
    let high_x: i128 = normal_x.mean() as i128 + reach_x;
    let high_y: i128 = normal_y.mean() as i128 + reach_y;
    let lo: i128 = if low_x < low_y {
        low_x
    } else {
        low_y
    };
    let hi: i128 = if high_x > high_y {
        high_x
    } else {
        high_y
    };
    let ghost mx = normal_x.spec_mean();
    let ghost vx = normal_x.spec_variance();
    let ghost my = normal_y.spec_mean();
    let ghost vy = normal_y.spec_variance();
    let ghost whole = normal_difference_integral(mx, vx, my, vy, lo as int, hi as int);
    let ghost done: int = 0;
    let mut sum: i128 = 0;
    let mut x: i128 = lo;
    if lo < hi {
        loop
            invariant_except_break
                lo <= x < hi,
                done + normal_difference_integral(mx, vx, my, vy, x as int, hi as int) == whole,
            invariant
                -SPAN_MAX <= lo < hi <= SPAN_MAX,
                mx == normal_x.spec_mean(),
                vx == normal_x.spec_variance(),
                my == normal_y.spec_mean(),
                vy == normal_y.spec_variance(),
                0 <= sum <= done,
                sum <= FULL_SUM,
                sum < FULL_SUM ==> sum == done,
            ensures
                done == whole,
            decreases hi - x,
        {
            let last: bool = x + (RECTANGLE_STEP as i128) >= hi;
            let width: i128 = if last {
                hi - x
            } else {
                RECTANGLE_STEP as i128
            };
            let term: i128 = difference_rectangle(normal_x, normal_y, x, width);
            proof {
                done = done + term;
            }
            sum = if sum + term >= FULL_SUM {
                FULL_SUM
            } else {
                sum + term
            };
            if last {
                break ;
            }
            x = x + RECTANGLE_STEP as i128;
        }
    }
    if sum >= FULL_SUM {
        proof {
            lemma_sqrt_of_large(whole);
        }
        FIXED_MAX
    } else {
        wide_root(sum as u128)
    }
}

} // verus!
