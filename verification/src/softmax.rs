//! The softmax function.

use crate::discrete_distribution::{seq_sum, valid_probabilities};
use crate::fixed::{
    clamp, lemma_round_ratio_nearest, round_ratio, round_ratio_saturating, Fixed, FIXED_MIN, ONE,
};
use crate::fixed_exp::{fx_exp, fx_exp_spec, lemma_exp_nonnegative, lemma_exp_of_zero};
use vstd::prelude::*;

verus! {

/// The greatest entry of `x`; zero for an empty `x`.
pub open spec fn greatest_spec(x: Seq<i128>) -> int
    decreases x.len(),
{
    if x.len() == 0 {
        0
    } else if x.len() == 1 || x.last() > greatest_spec(x.drop_last()) {
        x.last() as int
    } else {
        greatest_spec(x.drop_last())
    }
}

/// The exponential of `v` less the greatest entry of `x`. The difference
/// is taken exactly and only then brought into the number range.
pub open spec fn shifted_exp(x: Seq<i128>, v: int) -> int {
    fx_exp_spec(clamp(v - greatest_spec(x)))
}

/// Sum of [`shifted_exp`] over the first `k` entries of `x`.
pub open spec fn shifted_exp_sum(x: Seq<i128>, k: nat) -> int
    decreases k,
{
    if k == 0 {
        0
    } else {
        shifted_exp_sum(x, (k - 1) as nat) + shifted_exp(x, x[k - 1] as int)
    }
}

/// The softmax of the wide numbers `x`: the exponential of each entry less
/// the greatest, divided by the sum of those exponentials.
pub open spec fn softmax_wide_spec(x: Seq<i128>) -> Seq<i64> {
    Seq::new(
        x.len(),
        |i: int|
            clamp(round_ratio(shifted_exp(x, x[i] as int) * ONE, shifted_exp_sum(x, x.len())))
                as i64,
    )
}

/// The entries of `x` as wide numbers.
pub open spec fn widened(x: Seq<i64>) -> Seq<i128> {
    Seq::new(x.len(), |i: int| x[i] as i128)
}

/// The softmax of `x`.
pub open spec fn softmax_spec(x: Seq<i64>) -> Seq<i64> {
    softmax_wide_spec(widened(x))
}

/// The greatest of one or more entries is one of them and at least each.
pub proof fn lemma_greatest(x: Seq<i128>)
    requires
        x.len() > 0,
    ensures
        exists|a: int| 0 <= a < x.len() && #[trigger] x[a] == greatest_spec(x),
        forall|k: int| 0 <= k < x.len() ==> #[trigger] x[k] <= greatest_spec(x),
    decreases x.len(),
{
    let n = x.len() - 1;
    let rest = x.drop_last();
    assert(x.last() == x[n]);
    if x.len() > 1 {
        lemma_greatest(rest);
        let a = choose|a: int| 0 <= a < rest.len() && #[trigger] rest[a] == greatest_spec(rest);
        assert(x[a] == rest[a]);
        assert forall|k: int| 0 <= k < x.len() implies #[trigger] x[k] <= greatest_spec(x) by {
            if k < n {
                assert(rest[k] == x[k]);
            }
        }
    }
}

/// The greatest entry of `x`; zero for an empty `x`.
pub fn greatest_of(x: &Vec<i128>) -> (g: i128)
    ensures
        g == greatest_spec(x@),
{
    let n: usize = x.len();
    if n == 0 {
        return 0;
    }
    let mut g: i128 = x[0];
    let mut i: usize = 1;
    assert(x@.take(1).drop_last().len() == 0);
    assert(x@.take(1).last() == x@[0]);
    while i < n
        invariant
            1 <= i <= n,
            n == x@.len(),
            g == greatest_spec(x@.take(i as int)),
        decreases n - i,
    {
        proof {
            assert(x@.take(i as int + 1).drop_last() =~= x@.take(i as int));
            assert(x@.take(i as int + 1).last() == x@[i as int]);
        }
        if x[i] > g {
            g = x[i];
        }
        i += 1;
    }
    proof {
        assert(x@.take(n as int) =~= x@);
    }
    g
}

/// The difference `v - greatest` of two wide numbers with `v <= greatest`,
/// brought into the number range.
pub fn shifted(v: i128, greatest: i128) -> (d: Fixed)
    requires
        v <= greatest,
    ensures
        d == clamp(v - greatest),
{
    if greatest >= 0 {
        if v < greatest + (FIXED_MIN as i128) {
            FIXED_MIN
        } else {
            (v - greatest) as i64
        }
    } else {
        let wide: i128 = v - greatest;
        if wide < FIXED_MIN as i128 {
            FIXED_MIN
        } else {
            wide as i64
        }
    }
}

/// The softmax of `x`. The greatest entry is taken off every entry before
/// the exponential, so that no exponential exceeds one.
pub fn softmax(x: &Vec<Fixed>) -> (y: Vec<Fixed>)
    ensures
        y@ == softmax_spec(x@),
{
    let mut wide: Vec<i128> = Vec::new();
    let mut i: usize = 0;
    while i < x.len()
        invariant
            i <= x@.len(),
            wide@.len() == i,
            forall|k: int| 0 <= k < i ==> #[trigger] wide@[k] == x@[k] as i128,
        decreases x@.len() - i,
    {
        wide.push(x[i] as i128);
        i += 1;
    }
    assert(wide@ =~= widened(x@));
    softmax_wide(&wide)
}

/// The softmax of the wide numbers `x`, which count units of `10^-15`.
/// Differences from the greatest entry are taken exactly, so that entries
/// far beyond the number range are still told apart.
pub fn softmax_wide(x: &Vec<i128>) -> (y: Vec<Fixed>)
    ensures
        y@ == softmax_wide_spec(x@),
{
    let n: usize = x.len();
    let mut y: Vec<Fixed> = Vec::new();
    if n == 0 {
        assert(y@ =~= softmax_wide_spec(x@));
        return y;
    }
    let greatest: i128 = greatest_of(x);
    let mut exps: Vec<Fixed> = Vec::new();
    let mut sum: u128 = 0;
    let mut i: usize = 0;
    proof {
        lemma_greatest(x@);
        lemma_exp_of_zero();
    }
    let ghost at: int = choose|a: int| 0 <= a < x@.len() && #[trigger] x@[a] == greatest_spec(x@);
    while i < n
        invariant
            i <= n,
            n == x@.len(),
            greatest == greatest_spec(x@),
            forall|k: int| 0 <= k < x@.len() ==> #[trigger] x@[k] <= greatest_spec(x@),
            0 <= at < n,
            x@[at] == greatest,
            fx_exp_spec(0) == ONE,
            exps@.len() == i,
            forall|k: int| 0 <= k < i ==> #[trigger] exps@[k] == shifted_exp(x@, x@[k] as int),
            forall|k: int| 0 <= k < i ==> #[trigger] exps@[k] >= 0,
            sum == shifted_exp_sum(x@, i as nat),
            sum <= 0x8000_0000_0000_0000 * i,
            i > at ==> sum >= ONE,
        decreases n - i,
    {
        let e: Fixed = fx_exp(shifted(x[i], greatest));
        exps.push(e);
        sum = sum + e as u128;
        i += 1;
    }
    let mut j: usize = 0;
    while j < n
        invariant
            j <= n,
            n == x@.len(),
            exps@.len() == n,
            forall|k: int| 0 <= k < n ==> #[trigger] exps@[k] == shifted_exp(x@, x@[k] as int),
            forall|k: int| 0 <= k < n ==> #[trigger] exps@[k] >= 0,
            sum == shifted_exp_sum(x@, n as nat),
            ONE <= sum <= 0x8000_0000_0000_0000 * n,
            y@.len() == j,
            forall|k: int| 0 <= k < j ==> #[trigger] y@[k] == softmax_wide_spec(x@)[k],
        decreases n - j,
    {
        let e: Fixed = exps[j];
        assert(e * ONE <= 0x8000_0000_0000_0000 * 1_000_000_000_000_000) by (nonlinear_arith)
            requires
                0 <= e <= 0x8000_0000_0000_0000,
                ONE == 1_000_000_000_000_000,
        ;
        y.push(round_ratio_saturating(false, e as u128 * ONE as u128, sum));
        j += 1;
    }
    assert(y@ =~= softmax_wide_spec(x@));
    y
}

/// The exponentials of the shifted entries are not negative, and they sum
/// to at least one once the greatest entry is among them.
pub proof fn lemma_shifted_exp_sum(x: Seq<i128>, k: nat, at: int)
    requires
        k <= x.len(),
        0 <= at < x.len(),
        x[at] == greatest_spec(x),
    ensures
        0 <= shifted_exp_sum(x, k),
        at < k ==> shifted_exp_sum(x, k) >= ONE,
        forall|i: int| 0 <= i < k ==> 0 <= shifted_exp(x, #[trigger] x[i] as int) <= shifted_exp_sum(
            x,
            k,
        ),
    decreases k,
{
    if k > 0 {
        lemma_shifted_exp_sum(x, (k - 1) as nat, at);
        lemma_exp_nonnegative(clamp(x[k - 1] - greatest_spec(x)));
        if at == k - 1 {
            lemma_exp_of_zero();
        }
    }
}

/// The first `k` entries of the softmax are not negative and at most one,
/// and their sum differs from the share of the first `k` exponentials in
/// the sum of all by at most half a unit for each entry.
pub proof fn lemma_softmax_prefix(x: Seq<i128>, k: nat, at: int)
    requires
        k <= x.len(),
        0 <= at < x.len(),
        x[at] == greatest_spec(x),
    ensures
        ({
            let y = softmax_wide_spec(x);
            let total = shifted_exp_sum(x, x.len());
            &&& forall|i: int| 0 <= i < k ==> 0 <= #[trigger] y[i] <= ONE
            &&& -(k * total) <= 2 * total * seq_sum(y.take(k as int)) - 2 * ONE * shifted_exp_sum(
                x,
                k,
            ) <= k * total
        }),
    decreases k,
{
    let y = softmax_wide_spec(x);
    let total = shifted_exp_sum(x, x.len());
    lemma_shifted_exp_sum(x, x.len(), at);
    if k == 0 {
        assert(y.take(0).len() == 0);
        assert(2 * total * 0 == 0);
        assert(2 * ONE * 0 == 0);
        assert(0 * total == 0);
    } else {
        lemma_softmax_prefix(x, (k - 1) as nat, at);
        let e = shifted_exp(x, x[k - 1] as int);
        assert(0 <= e <= total);
        let q = round_ratio(e * ONE, total);
        assert(e * ONE >= 0) by (nonlinear_arith)
            requires
                e >= 0,
                ONE == 1_000_000_000_000_000,
        ;
        lemma_round_ratio_nearest(e * ONE, total);
        assert(0 <= q <= ONE) by (nonlinear_arith)
            requires
                -total <= 2 * (e * ONE - total * q) <= total,
                0 <= e <= total,
                total >= ONE,
                q >= 0,
                ONE == 1_000_000_000_000_000,
        ;
        assert(y[k - 1] == q);
        assert(y.take(k as int).drop_last() =~= y.take(k - 1));
        assert(y.take(k as int).last() == y[k - 1]);
        let before = seq_sum(y.take(k - 1));
        let sum_before = shifted_exp_sum(x, (k - 1) as nat);
        assert(seq_sum(y.take(k as int)) == before + q);
        assert(shifted_exp_sum(x, k) == sum_before + e);
        let gap_before = 2 * total * before - 2 * ONE * sum_before;
        let gap = 2 * total * (before + q) - 2 * ONE * (sum_before + e);
        let step = 2 * (e * ONE - total * q);
        assert(gap == gap_before - step) by (nonlinear_arith)
            requires
                gap == 2 * total * (before + q) - 2 * ONE * (sum_before + e),
                gap_before == 2 * total * before - 2 * ONE * sum_before,
                step == 2 * (e * ONE - total * q),
        ;
        let bound_before = (k - 1) * total;
        let bound = k * total;
        assert(bound_before + total == bound) by (nonlinear_arith)
            requires
                bound_before == (k - 1) * total,
                bound == k * total,
        ;
        assert(-bound_before <= gap_before <= bound_before);
        assert(-total <= step <= total);
        assert(-bound <= gap <= bound);
        assert forall|i: int| 0 <= i < k implies 0 <= #[trigger] y[i] <= ONE by {
            if i == k - 1 {
            }
        }
    }
}

/// The softmax of at least one and fewer than two hundred thousand entries
/// is a valid list of probabilities: no entry is negative, and the entries
/// sum to one within `10^-10`.
pub proof fn law_softmax_is_a_distribution(x: Seq<i128>)
    requires
        0 < x.len() < 200_000,
    ensures
        valid_probabilities(softmax_wide_spec(x)),
        forall|i: int| 0 <= i < x.len() ==> 0 <= #[trigger] softmax_wide_spec(x)[i] <= ONE,
{
    let y = softmax_wide_spec(x);
    let n = x.len();
    lemma_greatest(x);
    let at: int = choose|a: int| 0 <= a < x.len() && #[trigger] x[a] == greatest_spec(x);
    lemma_softmax_prefix(x, n, at);
    lemma_shifted_exp_sum(x, n, at);
    let total = shifted_exp_sum(x, n);
    assert(y.take(n as int) =~= y);
    let sum = seq_sum(y);
    assert(-(n * total) <= 2 * total * (sum - ONE) <= n * total) by (nonlinear_arith)
        requires
            -(n * total) <= 2 * total * sum - 2 * ONE * total <= n * total,
    ;
    assert(-n <= 2 * (sum - ONE) <= n) by (nonlinear_arith)
        requires
            -(n * total) <= 2 * total * (sum - ONE) <= n * total,
            total >= 1,
    ;
}

} // verus!
