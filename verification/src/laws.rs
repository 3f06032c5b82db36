//! Laws that relate the operations of the library to one another, each
//! stated and proved over the specifications of the operations involved.

use crate::cartesian_product::{
    lemma_mixed_radix_injective, lemma_radix_digit_range, lemma_radix_floor_zero, product_len,
    product_tuple, radix_digit, radix_floor, sizes_of,
};
use crate::discrete_distribution::{
    average_probabilities, average_probability, first_occurrences, has_duplicates, measure_in,
    occurs_in, pmf_in, sample_index_spec, sample_walk, seq_sum, union_outcomes,
    DiscreteProbabilityDistribution, TOLERANCE,
};
use crate::discrete_information::{
    divergence_finite, divergence_spec, divergence_sum, divergence_term, entropy_spec, entropy_sum,
    entropy_term, jensen_shannon_spec,
};
use crate::fixed::{
    fx_add_spec, fx_div_spec, fx_mul_spec, fx_sub_spec, lemma_round_ratio_exact,
    lemma_round_ratio_nearest, ONE,
};
use crate::fixed_log::{fx_log2_spec, lemma_log2_of_binary_fraction};
use crate::joint_distribution::{
    joint_len, joint_probabilities, outcome_lists, probability_lists, product_of,
};
use vstd::arithmetic::power2::{lemma2_to64, pow2};
use vstd::prelude::*;
use vstd::std_specs::cmp::PartialEqSpec;

verus! {

/// The probabilities of a valid distribution sum to one within `10^-10`,
/// and an outcome that the distribution does not list has probability zero.
pub proof fn law_valid_distribution<T: PartialEq>(dist: DiscreteProbabilityDistribution<T>, x: T)
    requires
        dist.valid(),
    ensures
        -TOLERANCE < seq_sum(dist.spec_probabilities()) - ONE < TOLERANCE,
        !occurs_in(dist.spec_outcomes(), x) ==> dist.spec_pmf(x) == 0,
{
    if !occurs_in(dist.spec_outcomes(), x) {
        crate::discrete_distribution::lemma_pmf_absent(
            dist.spec_outcomes(),
            dist.spec_probabilities(),
            x,
        );
    }
}

/// Where no two outcomes are equal, the mass function gives each outcome
/// the probability listed with it.
pub proof fn lemma_pmf_of_distinct<T: PartialEq>(
    outcomes: Seq<T>,
    probabilities: Seq<i64>,
    i: int,
    from: int,
)
    requires
        outcomes.len() == probabilities.len(),
        !has_duplicates(outcomes),
        forall|x: T| #[trigger] x.eq_spec(&x),
        0 <= from <= i < outcomes.len(),
    ensures
        pmf_in(outcomes.skip(from), probabilities.skip(from), outcomes[i]) == probabilities[i],
    decreases i - from,
{
    crate::discrete_distribution::lemma_pmf_in_skip(outcomes, probabilities, outcomes[i], from);
    if from < i {
        assert(!outcomes[from].eq_spec(&outcomes[i]));
        lemma_pmf_of_distinct(outcomes, probabilities, i, from + 1);
    } else {
        assert(outcomes[i].eq_spec(&outcomes[i]));
    }
}

/// Where no two outcomes are equal, the measure of the first `k` outcomes
/// is the sum of the first `k` probabilities.
pub proof fn lemma_measure_of_prefix<T: PartialEq>(
    outcomes: Seq<T>,
    probabilities: Seq<i64>,
    k: int,
)
    requires
        outcomes.len() == probabilities.len(),
        !has_duplicates(outcomes),
        forall|x: T| #[trigger] x.eq_spec(&x),
        0 <= k <= outcomes.len(),
    ensures
        measure_in(outcomes, probabilities, outcomes.take(k)) == seq_sum(probabilities.take(k)),
    decreases k,
{
    if k > 0 {
        lemma_measure_of_prefix(outcomes, probabilities, k - 1);
        assert(outcomes.take(k).drop_last() =~= outcomes.take(k - 1));
        assert(probabilities.take(k).drop_last() =~= probabilities.take(k - 1));
        assert(outcomes.take(k).last() == outcomes[k - 1]);
        assert(probabilities.take(k).last() == probabilities[k - 1]);
        lemma_pmf_of_distinct(outcomes, probabilities, k - 1, 0);
        assert(outcomes.skip(0) =~= outcomes);
        assert(probabilities.skip(0) =~= probabilities);
    } else {
        assert(outcomes.take(0).len() == 0);
        assert(probabilities.take(0).len() == 0);
    }
}

/// The measure of all outcomes of a valid distribution is one within
/// `10^-10`, provided that no outcome is listed twice. This holds of every
/// distribution, and so of every joint distribution of independent
/// variables.
pub proof fn law_total_measure_is_one<T: PartialEq>(dist: DiscreteProbabilityDistribution<T>)
    requires
        dist.valid(),
        !has_duplicates(dist.spec_outcomes()),
        forall|x: T| #[trigger] x.eq_spec(&x),
    ensures
        -TOLERANCE < dist.spec_measure(dist.spec_outcomes()) - ONE < TOLERANCE,
{
    let outcomes = dist.spec_outcomes();
    let probabilities = dist.spec_probabilities();
    lemma_measure_of_prefix(outcomes, probabilities, outcomes.len() as int);
    assert(outcomes.take(outcomes.len() as int) =~= outcomes);
    assert(probabilities.take(probabilities.len() as int) =~= probabilities);
}

/// The entropy of a distribution whose probabilities do not exceed one is
/// not negative.
pub proof fn law_entropy_is_not_negative(probabilities: Seq<i64>)
    requires
        forall|i: int| 0 <= i < probabilities.len() ==> #[trigger] probabilities[i] <= ONE,
    ensures
        entropy_spec(probabilities) >= 0,
    decreases probabilities.len(),
{
    lemma_entropy_sum_is_not_positive(probabilities);
}

/// Every probability of at most one adds a term that is not positive.
pub proof fn lemma_entropy_sum_is_not_positive(probabilities: Seq<i64>)
    requires
        forall|i: int| 0 <= i < probabilities.len() ==> #[trigger] probabilities[i] <= ONE,
    ensures
        entropy_sum(probabilities) <= 0,
    decreases probabilities.len(),
{
    if probabilities.len() > 0 {
        let rest = probabilities.drop_last();
        assert forall|i: int| 0 <= i < rest.len() implies #[trigger] rest[i] <= ONE by {
            assert(rest[i] == probabilities[i]);
        }
        lemma_entropy_sum_is_not_positive(rest);
        let p = probabilities.last() as int;
        assert(p == probabilities[probabilities.len() - 1]);
        if p > 0 {
            if p == ONE {
                lemma2_to64();
                lemma_log2_of_binary_fraction(p, 0);
            } else {
                crate::fixed_log::lemma_log2_sign(p);
            }
            let log = fx_log2_spec(p);
            assert(p * log <= 0) by (nonlinear_arith)
                requires
                    p > 0,
                    log <= 0,
            ;
            lemma_round_ratio_nearest(p * log, ONE as int);
        }
    }
}

/// An outcome that has the same probability under both distributions adds
/// nothing to their divergence.
pub proof fn lemma_divergence_term_of_equal(p: int)
    ensures
        divergence_term(p, p) == 0,
{
    if p > 0 {
        assert(p * 0 == 0);
        lemma_round_ratio_nearest(0, ONE as int);
        assert(fx_mul_spec(p, 0) == 0);
    }
}

/// The divergence sum of a distribution from itself is zero over any
/// points, and finite.
pub proof fn lemma_self_divergence_sum(xo: Seq<i32>, xp: Seq<i64>, points: Seq<i32>)
    ensures
        divergence_sum(xo, xp, xo, xp, points) == 0,
        divergence_finite(xo, xp, xo, xp, points),
    decreases points.len(),
{
    if points.len() > 0 {
        lemma_self_divergence_sum(xo, xp, points.drop_last());
        lemma_divergence_term_of_equal(pmf_in(xo, xp, points.last()));
    }
}

/// The Kullback-Leibler divergence of a distribution from itself is zero.
pub proof fn law_self_divergence_is_zero(dist: DiscreteProbabilityDistribution<i32>)
    requires
        dist.valid(),
    ensures
        divergence_spec(
            dist.spec_outcomes(),
            dist.spec_probabilities(),
            dist.spec_outcomes(),
            dist.spec_probabilities(),
        ) == Some(0int),
{
    let xo = dist.spec_outcomes();
    let xp = dist.spec_probabilities();
    lemma_self_divergence_sum(xo, xp, union_outcomes(xo, xo));
}

/// A list without repeats is its own list of first occurrences, also when
/// it is followed by entries that it already holds.
pub proof fn lemma_first_occurrences_of_distinct(s: Seq<i32>, more: Seq<i32>)
    requires
        !has_duplicates(s),
        forall|k: int| 0 <= k < more.len() ==> occurs_in(s, #[trigger] more[k]),
    ensures
        first_occurrences(s + more) == s,
    decreases s.len() + more.len(),
{
    if more.len() > 0 {
        let all = s + more;
        assert(all.drop_last() =~= s + more.drop_last());
        assert(all.last() == more.last());
        assert forall|k: int| 0 <= k < more.drop_last().len() implies occurs_in(
            s,
            #[trigger] more.drop_last()[k],
        ) by {
            assert(more.drop_last()[k] == more[k]);
        }
        lemma_first_occurrences_of_distinct(s, more.drop_last());
        assert(occurs_in(s, more[more.len() - 1]));
    } else if s.len() > 0 {
        assert(s + more =~= s);
        let rest = s.drop_last();
        assert forall|i: int, j: int|
            #![trigger rest[i], rest[j]]
            0 <= i < j < rest.len() implies !rest[i].eq_spec(&rest[j]) by {
            assert(rest[i] == s[i] && rest[j] == s[j]);
        }
        lemma_first_occurrences_of_distinct(rest, Seq::<i32>::empty());
        assert(rest + Seq::<i32>::empty() =~= rest);
        if occurs_in(rest, s.last()) {
            let i = choose|i: int| 0 <= i < rest.len() && (#[trigger] rest[i]).eq_spec(&s.last());
            assert(rest[i] == s[i]);
            assert(s[i].eq_spec(&s[s.len() - 1]));
        }
        assert(rest.push(s.last()) =~= s);
    } else {
        assert(s + more =~= Seq::<i32>::empty());
    }
}

/// The mean of a probability with itself is that probability.
pub proof fn lemma_average_of_equal(p: int)
    requires
        -0x8000_0000_0000_0000 <= p <= 0x7fff_ffff_ffff_ffff,
    ensures
        average_probability(p, p) == p,
{
    assert(p + p == p * 2);
    lemma_round_ratio_exact(p, 2);
}

/// The Jensen-Shannon divergence of a distribution from itself is zero,
/// provided that no outcome is listed twice.
pub proof fn law_self_jensen_shannon_is_zero(dist: DiscreteProbabilityDistribution<i32>)
    requires
        dist.valid(),
        !has_duplicates(dist.spec_outcomes()),
    ensures
        jensen_shannon_spec(
            dist.spec_outcomes(),
            dist.spec_probabilities(),
            dist.spec_outcomes(),
            dist.spec_probabilities(),
        ) == Some(0int),
{
    let xo = dist.spec_outcomes();
    let xp = dist.spec_probabilities();
    assert forall|k: int| 0 <= k < xo.len() implies occurs_in(xo, #[trigger] xo[k]) by {
        assert(xo[k].eq_spec(&xo[k]));
    }
    lemma_first_occurrences_of_distinct(xo, xo);
    let mo = union_outcomes(xo, xo);
    assert(mo == xo);
    let mp = average_probabilities(xo, xp, xo, xp);
    assert forall|i: int| 0 <= i < xo.len() implies #[trigger] mp[i] == xp[i] by {
        lemma_pmf_of_distinct(xo, xp, i, 0);
        assert(xo.skip(0) =~= xo);
        assert(xp.skip(0) =~= xp);
        lemma_average_of_equal(xp[i] as int);
    }
    assert(mp =~= xp);
    lemma_self_divergence_sum(xo, xp, union_outcomes(xo, mo));
    lemma_round_ratio_nearest(0, 2 * ONE);
    assert(0 * ONE == 0);
}

/// Sum of [`entropy_term`] over probabilities that all equal `p`.
pub proof fn lemma_entropy_sum_of_equal(probabilities: Seq<i64>, p: int)
    requires
        forall|i: int| 0 <= i < probabilities.len() ==> #[trigger] probabilities[i] == p,
    ensures
        entropy_sum(probabilities) == probabilities.len() * entropy_term(p),
    decreases probabilities.len(),
{
    if probabilities.len() > 0 {
        let rest = probabilities.drop_last();
        assert forall|i: int| 0 <= i < rest.len() implies #[trigger] rest[i] == p by {
            assert(rest[i] == probabilities[i]);
        }
        lemma_entropy_sum_of_equal(rest, p);
        assert(probabilities.last() == probabilities[probabilities.len() - 1]);
        assert((probabilities.len() - 1) * entropy_term(p) + entropy_term(p) == probabilities.len()
            * entropy_term(p)) by (nonlinear_arith);
    } else {
        assert(0 * entropy_term(p) == 0);
    }
}

/// The entropy of the uniform distribution over two to the power `k`
/// outcomes is exactly `k` bits, for every `k` whose power of two divides
/// the unit: `k` up to fifteen.
pub proof fn law_uniform_entropy(probabilities: Seq<i64>, k: nat)
    requires
        k <= 15,
        probabilities.len() == pow2(k),
        forall|i: int|
            0 <= i < probabilities.len() ==> (#[trigger] probabilities[i]) * pow2(k) == ONE,
    ensures
        entropy_spec(probabilities) == k * ONE,
{
    lemma2_to64();
    let n: int = pow2(k) as int;
    let p: int = probabilities[0] as int;
    assert(1 <= n <= 32768) by {
        if k < 15 {
            vstd::arithmetic::power2::lemma_pow2_strictly_increases(k, 15);
        }
        vstd::arithmetic::power2::lemma_pow2_pos(k);
    }
    assert forall|i: int| 0 <= i < probabilities.len() implies #[trigger] probabilities[i]
        == p by {
        assert(probabilities[i] * n == p * n);
        assert(probabilities[i] == p) by (nonlinear_arith)
            requires
                probabilities[i] * n == p * n,
                n >= 1,
        ;
    }
    lemma_entropy_sum_of_equal(probabilities, p);
    assert(p > 0) by (nonlinear_arith)
        requires
            p * n == ONE,
            n >= 1,
            ONE == 1_000_000_000_000_000,
    ;
    lemma_log2_of_binary_fraction(p, k);
    let log = -k * 1_000_000_000_000_000;
    assert(fx_log2_spec(p) == log);
    assert(p * log == (-k * p) * ONE) by (nonlinear_arith)
        requires
            log == -k * 1_000_000_000_000_000,
            ONE == 1_000_000_000_000_000,
    ;
    lemma_round_ratio_exact(-k * p, ONE as int);
    assert(-15 * ONE <= -k * p <= 0) by (nonlinear_arith)
        requires
            0 <= k <= 15,
            0 < p,
            p * n == ONE,
            n >= 1,
    ;
    assert(entropy_term(p) == -k * p);
    assert(n * (-k * p) == -(k * ONE)) by (nonlinear_arith)
        requires
            p * n == ONE,
    ;
    assert(0 <= k * ONE <= 15 * ONE) by (nonlinear_arith)
        requires
            0 <= k <= 15,
            ONE == 1_000_000_000_000_000,
    ;
}

/// The tuples of the cartesian product of lists without repeats are
/// themselves without repeats, where equality of entries is symmetric.
pub proof fn lemma_product_tuples_distinct<T: PartialEq>(lists: Seq<Seq<T>>, joint: Seq<Vec<T>>)
    requires
        forall|a: T, b: T| #[trigger] a.eq_spec(&b) ==> b.eq_spec(&a),
        forall|j: int| 0 <= j < lists.len() ==> !has_duplicates(#[trigger] lists[j]),
        joint.len() == product_len(sizes_of(lists)),
        forall|i: int| 0 <= i < joint.len() ==> (#[trigger] joint[i])@ == product_tuple(lists, i),
    ensures
        !has_duplicates(joint),
{
    let sizes = sizes_of(lists);
    assert forall|a: int, b: int|
        #![trigger joint[a], joint[b]]
        0 <= a < b < joint.len() implies !joint[a].eq_spec(&joint[b]) by {
        assert forall|m: int| 0 <= m < sizes.len() implies sizes[m] >= 1 by {
            if sizes[m] == 0 {
                lemma_radix_floor_zero(sizes, m, sizes.len() as int);
            }
        }
        if joint[a].eq_spec(&joint[b]) {
            assert(joint[a]@ == product_tuple(lists, a));
            assert(joint[b]@ == product_tuple(lists, b));
            assert forall|j: int| 0 <= j < sizes.len() implies radix_digit(sizes, a, j)
                == radix_digit(sizes, b, j) by {
                lemma_radix_digit_range(sizes, a, j);
                lemma_radix_digit_range(sizes, b, j);
                let da = radix_digit(sizes, a, j);
                let db = radix_digit(sizes, b, j);
                assert(joint[a]@[j] == lists[j][da]);
                assert(joint[b]@[j] == lists[j][db]);
                assert(joint[a][j].eq_spec(&joint[b][j]));
                assert(!has_duplicates(lists[j]));
                if da < db {
                    assert(!lists[j][da].eq_spec(&lists[j][db]));
                } else if db < da {
                    assert(lists[j][db].eq_spec(&lists[j][da]));
                    assert(!lists[j][db].eq_spec(&lists[j][da]));
                }
            }
            lemma_mixed_radix_injective(sizes, a, b, sizes.len() as int);
        }
    }
}

/// The measure of all outcomes of a joint distribution of independent
/// variables is one within `10^-10`, provided that none of the variables
/// lists an outcome twice. This holds for every type of outcome on which
/// equality is reflexive and symmetric.
pub proof fn law_joint_measure_is_one<T: PartialEq>(
    dists: Seq<DiscreteProbabilityDistribution<T>>,
    joint: DiscreteProbabilityDistribution<Vec<T>>,
)
    requires
        forall|x: T| #[trigger] x.eq_spec(&x),
        forall|a: T, b: T| #[trigger] a.eq_spec(&b) ==> b.eq_spec(&a),
        forall|j: int|
            0 <= j < dists.len() ==> !has_duplicates((#[trigger] dists[j]).spec_outcomes()),
        joint.valid(),
        joint.spec_outcomes().len() == joint_len(dists),
        forall|i: int|
            0 <= i < joint_len(dists) ==> (#[trigger] joint.spec_outcomes()[i])@ == product_tuple(
                outcome_lists(dists),
                i,
            ),
    ensures
        !has_duplicates(joint.spec_outcomes()),
        -TOLERANCE < joint.spec_measure(joint.spec_outcomes()) - ONE < TOLERANCE,
{
    let lists = outcome_lists(dists);
    assert forall|j: int| 0 <= j < lists.len() implies !has_duplicates(#[trigger] lists[j]) by {
        assert(lists[j] == dists[j].spec_outcomes());
    }
    lemma_product_tuples_distinct(lists, joint.spec_outcomes());
    assert forall|x: Vec<T>| #[trigger] x.eq_spec(&x) by {
        assert forall|i: int| 0 <= i < x.len() implies x[i].eq_spec(&x[i]) by {}
    }
    law_total_measure_is_one(joint);
}

/// The walk that starts at position `from` with what is left of `u` after
/// the probabilities before `from` stops at the first position from there
/// on at which the probabilities so far reach `u`.
pub proof fn lemma_sample_walk_crossing(probabilities: Seq<i64>, u: int, from: int)
    requires
        0 <= from < probabilities.len(),
    ensures
        ({
            let k = sample_walk(probabilities, u - seq_sum(probabilities.take(from)), from);
            &&& from <= k < probabilities.len()
            &&& forall|i: int| from <= i < k ==> seq_sum(#[trigger] probabilities.take(i + 1)) < u
            &&& k < probabilities.len() - 1 ==> seq_sum(probabilities.take(k + 1)) >= u
        }),
    decreases probabilities.len() - from,
{
    let remainder = u - seq_sum(probabilities.take(from));
    assert(probabilities.take(from + 1).drop_last() =~= probabilities.take(from));
    assert(probabilities.take(from + 1).last() == probabilities[from]);
    if from >= probabilities.len() - 1 {
    } else if remainder - probabilities[from] <= 0 {
    } else {
        lemma_sample_walk_crossing(probabilities, u, from + 1);
    }
}

/// Sampling selects the first outcome at which the cumulative probability
/// reaches the uniform variate, and the last outcome if none does.
pub proof fn law_sample_is_first_crossing<T>(dist: DiscreteProbabilityDistribution<T>, u: int)
    requires
        dist.valid(),
    ensures
        ({
            let probabilities = dist.spec_probabilities();
            let k = sample_index_spec(probabilities, u);
            &&& 0 <= k < probabilities.len()
            &&& forall|i: int| 0 <= i < k ==> seq_sum(#[trigger] probabilities.take(i + 1)) < u
            &&& k < probabilities.len() - 1 ==> seq_sum(probabilities.take(k + 1)) >= u
        }),
{
    let probabilities = dist.spec_probabilities();
    crate::discrete_distribution::lemma_sum_not_empty(probabilities);
    assert(probabilities.take(0).len() == 0);
    lemma_sample_walk_crossing(probabilities, u, 0);
}

/// Whether every probability is one over two to the power listed with it,
/// a power of at most fifteen.
pub open spec fn binary_fractions(probabilities: Seq<i64>, exponents: Seq<nat>) -> bool {
    &&& exponents.len() == probabilities.len()
    &&& forall|i: int|
        #![trigger exponents[i]]
        0 <= i < probabilities.len() ==> exponents[i] <= 15 && probabilities[i] * pow2(
            exponents[i],
        ) == ONE
}

/// The entropy term of one over two to the power `k` is `-k` times that
/// probability, exactly.
pub proof fn lemma_entropy_term_of_binary_fraction(p: int, k: nat)
    requires
        k <= 15,
        p * pow2(k) == ONE,
    ensures
        entropy_term(p) == -k * p,
        0 < p <= ONE,
{
    vstd::arithmetic::power2::lemma_pow2_pos(k);
    let n: int = pow2(k) as int;
    assert(0 < p <= ONE) by (nonlinear_arith)
        requires
            p * n == ONE,
            n >= 1,
            ONE == 1_000_000_000_000_000,
    ;
    lemma_log2_of_binary_fraction(p, k);
    let log = -k * 1_000_000_000_000_000;
    assert(p * log == (-k * p) * ONE) by (nonlinear_arith)
        requires
            log == -k * 1_000_000_000_000_000,
            ONE == 1_000_000_000_000_000,
    ;
    lemma_round_ratio_exact(-k * p, ONE as int);
    assert(-15 * ONE <= -k * p <= 0) by (nonlinear_arith)
        requires
            0 <= k <= 15,
            0 < p <= ONE,
    ;
}

/// One over two to the power `k`, which is a whole number of units for
/// every `k` up to fifteen.
pub proof fn lemma_one_over_power_of_two(k: nat) -> (r: int)
    requires
        k <= 15,
    ensures
        r * pow2(k) == ONE,
        0 < r <= ONE,
{
    lemma2_to64();
    let r: int = if k == 0 {
        1_000_000_000_000_000
    } else if k == 1 {
        500_000_000_000_000
    } else if k == 2 {
        250_000_000_000_000
    } else if k == 3 {
        125_000_000_000_000
    } else if k == 4 {
        62_500_000_000_000
    } else if k == 5 {
        31_250_000_000_000
    } else if k == 6 {
        15_625_000_000_000
    } else if k == 7 {
        7_812_500_000_000
    } else if k == 8 {
        3_906_250_000_000
    } else if k == 9 {
        1_953_125_000_000
    } else if k == 10 {
        976_562_500_000
    } else if k == 11 {
        488_281_250_000
    } else if k == 12 {
        244_140_625_000
    } else if k == 13 {
        122_070_312_500
    } else if k == 14 {
        61_035_156_250
    } else {
        30_517_578_125
    };
    r
}

/// The product of two binary fractions whose powers sum to at most fifteen
/// is the binary fraction of the summed power, without rounding.
pub proof fn lemma_product_of_binary_fractions(p: int, a: nat, q: int, b: nat)
    requires
        a + b <= 15,
        p * pow2(a) == ONE,
        q * pow2(b) == ONE,
    ensures
        ({
            let r = fx_mul_spec(fx_mul_spec(ONE as int, p), q);
            r * pow2(a + b) == ONE && r * ONE == p * q
        }),
{
    vstd::arithmetic::power2::lemma_pow2_pos(a);
    vstd::arithmetic::power2::lemma_pow2_pos(b);
    vstd::arithmetic::power2::lemma_pow2_pos(a + b);
    vstd::arithmetic::power2::lemma_pow2_adds(a, b);
    let ta: int = pow2(a) as int;
    let tb: int = pow2(b) as int;
    let tab: int = pow2(a + b) as int;
    assert(0 < p <= ONE) by (nonlinear_arith)
        requires
            p * ta == ONE,
            ta >= 1,
            ONE == 1_000_000_000_000_000,
    ;
    assert(0 < q <= ONE) by (nonlinear_arith)
        requires
            q * tb == ONE,
            tb >= 1,
            ONE == 1_000_000_000_000_000,
    ;
    assert(ONE * p == p * ONE) by (nonlinear_arith);
    lemma_round_ratio_exact(p, ONE as int);
    assert(fx_mul_spec(ONE as int, p) == p);
    let r0 = lemma_one_over_power_of_two(a + b);
    assert((p * q) * tab == ONE * ONE) by (nonlinear_arith)
        requires
            p * ta == ONE,
            q * tb == ONE,
            tab == ta * tb,
    ;
    assert(p * q == r0 * ONE) by (nonlinear_arith)
        requires
            (p * q) * tab == ONE * ONE,
            r0 * tab == ONE,
            tab >= 1,
    ;
    lemma_round_ratio_exact(r0, ONE as int);
    assert(fx_mul_spec(p, q) == r0);
}

/// The entropy sum of binary fractions lies between zero and minus fifteen
/// times their sum.
pub proof fn lemma_entropy_sum_of_binary_fractions(probabilities: Seq<i64>, exponents: Seq<nat>)
    requires
        binary_fractions(probabilities, exponents),
    ensures
        -15 * seq_sum(probabilities) <= entropy_sum(probabilities) <= 0,
        0 <= seq_sum(probabilities),
    decreases probabilities.len(),
{
    if probabilities.len() > 0 {
        let n = probabilities.len() - 1;
        let rest = probabilities.drop_last();
        let rest_exponents = exponents.drop_last();
        assert forall|i: int| #![trigger rest_exponents[i]] 0 <= i < rest.len() implies rest_exponents[i]
            <= 15 && rest[i] * pow2(rest_exponents[i]) == ONE by {
            assert(rest[i] == probabilities[i]);
            assert(rest_exponents[i] == exponents[i]);
        }
        lemma_entropy_sum_of_binary_fractions(rest, rest_exponents);
        assert(probabilities.last() == probabilities[n]);
        let k = exponents[n];
        lemma_entropy_term_of_binary_fraction(probabilities[n] as int, k);
        let p = probabilities[n] as int;
        assert(-15 * p <= -k * p <= 0) by (nonlinear_arith)
            requires
                0 <= k <= 15,
                0 < p,
        ;
    }
}

/// The probability that the joint distribution of two variables gives the
/// outcome at index `j * n + i`, where the first variable has `n` outcomes.
pub proof fn lemma_joint_probability_of_two(
    a: DiscreteProbabilityDistribution<i32>,
    b: DiscreteProbabilityDistribution<i32>,
    i: int,
    j: int,
)
    requires
        a.valid(),
        b.valid(),
        0 <= i < a.spec_probabilities().len(),
        0 <= j < b.spec_probabilities().len(),
    ensures
        ({
            let n = a.spec_probabilities().len() as int;
            let m = b.spec_probabilities().len() as int;
            let joint = joint_probabilities(seq![a, b]);
            &&& joint.len() == n * m
            &&& 0 <= j * n + i < n * m
            &&& joint[j * n + i] == fx_mul_spec(
                fx_mul_spec(ONE as int, a.spec_probabilities()[i] as int),
                b.spec_probabilities()[j] as int,
            )
        }),
{
    let dists = seq![a, b];
    let n = a.spec_probabilities().len() as int;
    let m = b.spec_probabilities().len() as int;
    let x = j * n + i;
    let lists = probability_lists(dists);
    let sizes = sizes_of(lists);
    let outcome_sizes = sizes_of(outcome_lists(dists));
    assert(dists[0] == a && dists[1] == b);
    assert(sizes =~= outcome_sizes);
    assert(sizes[0] == n && sizes[1] == m);
    assert(radix_floor(sizes, 0) == 1);
    assert(radix_floor(sizes, 1) == radix_floor(sizes, 0) * sizes[0]);
    assert(radix_floor(sizes, 1) == n);
    assert(radix_floor(sizes, 2) == radix_floor(sizes, 1) * sizes[1]);
    assert(radix_floor(sizes, 2) == n * m);
    assert(joint_len(dists) == n * m);
    assert(0 <= x < n * m) by (nonlinear_arith)
        requires
            x == j * n + i,
            0 <= i < n,
            0 <= j < m,
    ;
    vstd::arithmetic::div_mod::lemma_fundamental_div_mod_converse(x, n, j, i);
    vstd::arithmetic::div_mod::lemma_small_mod(j as nat, m as nat);
    assert(radix_digit(sizes, x, 0) == i);
    assert(radix_digit(sizes, x, 1) == j);
    let tuple = product_tuple(lists, x);
    assert(tuple.len() == 2);
    assert(tuple[0] == a.spec_probabilities()[i]);
    assert(tuple[1] == b.spec_probabilities()[j]);
    assert(tuple.drop_last().len() == 1);
    assert(tuple.drop_last().drop_last().len() == 0);
    assert(tuple.last() == tuple[1]);
    assert(tuple.drop_last().last() == tuple[0]);
    assert(product_of(tuple.drop_last().drop_last()) == ONE);
    assert(product_of(tuple.drop_last()) == fx_mul_spec(ONE as int, tuple[0] as int));
    assert(product_of(tuple) == fx_mul_spec(product_of(tuple.drop_last()), tuple[1] as int));
}

/// The entropy sum of the joint probabilities of two variables with binary
/// fractions as probabilities, up to index `j * n + i`, times one.
pub proof fn lemma_joint_entropy_block(
    a: DiscreteProbabilityDistribution<i32>,
    b: DiscreteProbabilityDistribution<i32>,
    ea: Seq<nat>,
    eb: Seq<nat>,
    i: int,
    j: int,
)
    requires
        a.valid(),
        b.valid(),
        binary_fractions(a.spec_probabilities(), ea),
        binary_fractions(b.spec_probabilities(), eb),
        forall|x: int, y: int|
            #![trigger ea[x], eb[y]]
            0 <= x < ea.len() && 0 <= y < eb.len() ==> ea[x] + eb[y] <= 15,
        seq_sum(a.spec_probabilities()) == ONE,
        0 <= i <= a.spec_probabilities().len(),
        0 <= j < b.spec_probabilities().len(),
    ensures
        ({
            let p = a.spec_probabilities();
            let q = b.spec_probabilities();
            let n = p.len() as int;
            let joint = joint_probabilities(seq![a, b]);
            ONE * entropy_sum(joint.take(j * n + i)) == entropy_sum(p) * seq_sum(q.take(j)) + ONE
                * entropy_sum(q.take(j)) + q[j] * entropy_sum(p.take(i)) + entropy_term(q[j] as int)
                * seq_sum(p.take(i))
        }),
    decreases j, i,
{
    let p = a.spec_probabilities();
    let q = b.spec_probabilities();
    let n = p.len() as int;
    let m = q.len() as int;
    let joint = joint_probabilities(seq![a, b]);
    lemma_joint_probability_of_two(a, b, 0, j);
    assert(n >= 1) by {
        crate::discrete_distribution::lemma_sum_not_empty(p);
    }
    if i == 0 {
        assert(p.take(0).len() == 0);
        assert(q[j] * 0 == 0);
        assert(entropy_term(q[j] as int) * 0 == 0);
        if j == 0 {
            assert(q.take(0).len() == 0);
            assert(0 * n + 0 == 0);
            assert(joint.take(0).len() == 0);
            assert(entropy_sum(p) * 0 == 0);
            assert(ONE * 0 == 0);
        } else {
            // the block before this one, taken to its end
            lemma_joint_entropy_block(a, b, ea, eb, n, j - 1);
            assert((j - 1) * n + n == j * n + 0) by (nonlinear_arith);
            assert(p.take(n) =~= p);
            assert(q.take(j).drop_last() =~= q.take(j - 1));
            assert(q.take(j).last() == q[j - 1]);
            let before = q[j - 1] as int;
            let es = entropy_sum(p);
            let sq = seq_sum(q.take(j - 1));
            let eq = entropy_sum(q.take(j - 1));
            let term = entropy_term(before);
            assert(es * (sq + before) + ONE * (eq + term) == es * sq + ONE * eq + before * es
                + term * ONE) by (nonlinear_arith);
        }
    } else {
        lemma_joint_entropy_block(a, b, ea, eb, i - 1, j);
        lemma_joint_probability_of_two(a, b, i - 1, j);
        let x = j * n + (i - 1);
        assert(j * n + i == x + 1);
        assert(joint.take(x + 1).drop_last() =~= joint.take(x));
        assert(joint.take(x + 1).last() == joint[x]);
        assert(p.take(i).drop_last() =~= p.take(i - 1));
        assert(p.take(i).last() == p[i - 1]);
        let pi = p[i - 1] as int;
        let qj = q[j] as int;
        let ka = ea[i - 1];
        let kb = eb[j];
        assert(ka + kb <= 15);
        assert(ka <= 15 && pi * pow2(ka) == ONE);
        assert(kb <= 15 && qj * pow2(kb) == ONE);
        lemma_product_of_binary_fractions(pi, ka, qj, kb);
        let r = joint[x] as int;
        assert(r == fx_mul_spec(fx_mul_spec(ONE as int, pi), qj));
        lemma_entropy_term_of_binary_fraction(r, ka + kb);
        lemma_entropy_term_of_binary_fraction(pi, ka);
        lemma_entropy_term_of_binary_fraction(qj, kb);
        let tr = entropy_term(r);
        let tp = entropy_term(pi);
        let tq = entropy_term(qj);
        assert(ONE * tr == qj * tp + tq * pi) by (nonlinear_arith)
            requires
                tr == -(ka + kb) * r,
                tp == -ka * pi,
                tq == -kb * qj,
                r * ONE == pi * qj,
        ;
        let ej = entropy_sum(joint.take(x));
        let ep = entropy_sum(p.take(i - 1));
        let sp = seq_sum(p.take(i - 1));
        assert(ONE * (ej + tr) == ONE * ej + ONE * tr) by (nonlinear_arith);
        assert(qj * (ep + tp) + tq * (sp + pi) == qj * ep + tq * sp + (qj * tp + tq * pi))
            by (nonlinear_arith);
    }
}

/// The mutual information of two independent variables, computed from
/// their joint distribution, is exactly zero where all their probabilities
/// are binary fractions that sum to exactly one and whose products are
/// again whole numbers of units.
pub proof fn law_mutual_information_of_binary_fractions(
    a: DiscreteProbabilityDistribution<i32>,
    b: DiscreteProbabilityDistribution<i32>,
    ea: Seq<nat>,
    eb: Seq<nat>,
)
    requires
        a.valid(),
        b.valid(),
        binary_fractions(a.spec_probabilities(), ea),
        binary_fractions(b.spec_probabilities(), eb),
        forall|x: int, y: int|
            #![trigger ea[x], eb[y]]
            0 <= x < ea.len() && 0 <= y < eb.len() ==> ea[x] + eb[y] <= 15,
        seq_sum(a.spec_probabilities()) == ONE,
        seq_sum(b.spec_probabilities()) == ONE,
    ensures
        ({
            let joint = joint_probabilities(seq![a, b]);
            &&& entropy_sum(joint) == entropy_sum(a.spec_probabilities()) + entropy_sum(
                b.spec_probabilities(),
            )
            &&& fx_sub_spec(
                fx_add_spec(
                    entropy_spec(a.spec_probabilities()),
                    entropy_spec(b.spec_probabilities()),
                ),
                entropy_spec(joint),
            ) == 0
        }),
{
    let p = a.spec_probabilities();
    let q = b.spec_probabilities();
    let n = p.len() as int;
    let m = q.len() as int;
    let joint = joint_probabilities(seq![a, b]);
    crate::discrete_distribution::lemma_sum_not_empty(p);
    crate::discrete_distribution::lemma_sum_not_empty(q);
    lemma_joint_entropy_block(a, b, ea, eb, n, m - 1);
    lemma_joint_probability_of_two(a, b, n - 1, m - 1);
    assert((m - 1) * n + n == n * m) by (nonlinear_arith);
    assert(joint.take(n * m) =~= joint);
    assert(p.take(n) =~= p);
    assert(q.take(m).drop_last() =~= q.take(m - 1));
    assert(q.take(m).last() == q[m - 1]);
    assert(q.take(m) =~= q);
    let last = q[m - 1] as int;
    let es = entropy_sum(p);
    let sq = seq_sum(q.take(m - 1));
    let eq = entropy_sum(q.take(m - 1));
    let term = entropy_term(last);
    assert(sq + last == ONE);
    assert(eq + term == entropy_sum(q));
    assert(ONE * entropy_sum(joint) == ONE * (es + entropy_sum(q))) by (nonlinear_arith)
        requires
            ONE * entropy_sum(joint) == es * sq + ONE * eq + last * es + term * ONE,
            sq + last == ONE,
            eq + term == entropy_sum(q),
    ;
    assert(entropy_sum(joint) == es + entropy_sum(q)) by (nonlinear_arith)
        requires
            ONE * entropy_sum(joint) == ONE * (es + entropy_sum(q)),
            ONE == 1_000_000_000_000_000,
    ;
    lemma_entropy_sum_of_binary_fractions(p, ea);
    lemma_entropy_sum_of_binary_fractions(q, eb);
}

/// Equal points have the same probability, where equality of outcomes is
/// symmetric and transitive.
pub proof fn lemma_pmf_of_equal_points<T: PartialEq>(
    outcomes: Seq<T>,
    probabilities: Seq<i64>,
    x: T,
    y: T,
)
    requires
        x.eq_spec(&y),
        forall|a: T, b: T| #[trigger] a.eq_spec(&b) ==> b.eq_spec(&a),
        forall|a: T, b: T, c: T| #[trigger] a.eq_spec(&b) && #[trigger] b.eq_spec(&c) ==> a.eq_spec(&c),
    ensures
        pmf_in(outcomes, probabilities, x) == pmf_in(outcomes, probabilities, y),
    decreases outcomes.len(),
{
    if outcomes.len() == 0 || probabilities.len() == 0 {
    } else {
        let first = outcomes.first();
        assert(y.eq_spec(&x));
        if first.eq_spec(&x) {
            assert(first.eq_spec(&y));
        }
        if first.eq_spec(&y) {
            assert(first.eq_spec(&x));
        }
        lemma_pmf_of_equal_points(outcomes.drop_first(), probabilities.drop_first(), x, y);
    }
}

/// The measure of a list of points is the measure of any list of points
/// equal to them one by one, and one of the two lists repeats a point only
/// if the other does.
pub proof fn lemma_measure_of_equal_points<T: PartialEq>(
    outcomes: Seq<T>,
    probabilities: Seq<i64>,
    points: Seq<T>,
    others: Seq<T>,
)
    requires
        points.len() == others.len(),
        forall|i: int| 0 <= i < points.len() ==> (#[trigger] points[i]).eq_spec(&others[i]),
        forall|a: T, b: T| #[trigger] a.eq_spec(&b) ==> b.eq_spec(&a),
        forall|a: T, b: T, c: T| #[trigger] a.eq_spec(&b) && #[trigger] b.eq_spec(&c) ==> a.eq_spec(&c),
    ensures
        measure_in(outcomes, probabilities, points) == measure_in(outcomes, probabilities, others),
        has_duplicates(points) == has_duplicates(others),
    decreases points.len(),
{
    if points.len() > 0 {
        let n = points.len() - 1;
        assert(points.last() == points[n]);
        assert(others.last() == others[n]);
        assert forall|i: int| 0 <= i < points.drop_last().len() implies (
        #[trigger] points.drop_last()[i]).eq_spec(&others.drop_last()[i]) by {
            assert(points.drop_last()[i] == points[i]);
            assert(others.drop_last()[i] == others[i]);
        }
        lemma_measure_of_equal_points(
            outcomes,
            probabilities,
            points.drop_last(),
            others.drop_last(),
        );
        lemma_pmf_of_equal_points(outcomes, probabilities, points[n], others[n]);
    }
    if has_duplicates(points) {
        let (i, j) = choose|i: int, j: int|
            #![trigger points[i], points[j]]
            0 <= i < j < points.len() && points[i].eq_spec(&points[j]);
        assert(points[i].eq_spec(&others[i]));
        assert(others[i].eq_spec(&points[i]));
        assert(points[j].eq_spec(&others[j]));
        assert(others[i].eq_spec(&points[j]));
        assert(others[i].eq_spec(&others[j]));
    }
    if has_duplicates(others) {
        let (i, j) = choose|i: int, j: int|
            #![trigger others[i], others[j]]
            0 <= i < j < others.len() && others[i].eq_spec(&others[j]);
        assert(points[i].eq_spec(&others[i]));
        assert(points[j].eq_spec(&others[j]));
        assert(others[j].eq_spec(&points[j]));
        assert(points[i].eq_spec(&others[j]));
        assert(points[i].eq_spec(&points[j]));
    }
}

/// The measure of a copy of all outcomes of a joint distribution of
/// independent variables is one within `10^-10`, and the copy repeats no
/// outcome, provided that none of the variables lists an outcome twice. A
/// copy is a list of tuples with the same entries as the outcomes, as
/// `outcomes()` returns it. This holds for every type of outcome on which
/// equality is reflexive, symmetric and transitive.
pub proof fn law_joint_measure_of_copied_outcomes<T: PartialEq>(
    dists: Seq<DiscreteProbabilityDistribution<T>>,
    joint: DiscreteProbabilityDistribution<Vec<T>>,
    copy: Seq<Vec<T>>,
)
    requires
        forall|x: T| #[trigger] x.eq_spec(&x),
        forall|a: T, b: T| #[trigger] a.eq_spec(&b) ==> b.eq_spec(&a),
        forall|a: T, b: T, c: T| #[trigger]
            a.eq_spec(&b) && #[trigger] b.eq_spec(&c) ==> a.eq_spec(&c),
        forall|j: int|
            0 <= j < dists.len() ==> !has_duplicates((#[trigger] dists[j]).spec_outcomes()),
        joint.valid(),
        joint.spec_outcomes().len() == joint_len(dists),
        forall|i: int|
            0 <= i < joint_len(dists) ==> (#[trigger] joint.spec_outcomes()[i])@ == product_tuple(
                outcome_lists(dists),
                i,
            ),
        copy.len() == joint.spec_outcomes().len(),
        forall|i: int| 0 <= i < copy.len() ==> (#[trigger] copy[i])@ == joint.spec_outcomes()[i]@,
    ensures
        !has_duplicates(copy),
        -TOLERANCE < joint.spec_measure(copy) - ONE < TOLERANCE,
{
    law_joint_measure_is_one(dists, joint);
    let outcomes = joint.spec_outcomes();
    assert forall|i: int| 0 <= i < outcomes.len() implies (#[trigger] outcomes[i]).eq_spec(
        &copy[i],
    ) by {
        assert(copy[i]@ == outcomes[i]@);
        assert forall|k: int| 0 <= k < outcomes[i].len() implies outcomes[i][k].eq_spec(
            &copy[i][k],
        ) by {
            assert(outcomes[i]@[k] == copy[i]@[k]);
        }
    }
    assert forall|a: Vec<T>, b: Vec<T>| #[trigger] a.eq_spec(&b) implies b.eq_spec(&a) by {
        assert forall|k: int| 0 <= k < b.len() implies b[k].eq_spec(&a[k]) by {
            assert(a[k].eq_spec(&b[k]));
        }
    }
    assert forall|a: Vec<T>, b: Vec<T>, c: Vec<T>| #[trigger]
        a.eq_spec(&b) && #[trigger] b.eq_spec(&c) implies a.eq_spec(&c) by {
        assert forall|k: int| 0 <= k < a.len() implies a[k].eq_spec(&c[k]) by {
            assert(a[k].eq_spec(&b[k]));
            assert(b[k].eq_spec(&c[k]));
        }
    }
    lemma_measure_of_equal_points(outcomes, joint.spec_probabilities(), outcomes, copy);
}

/// The uniform variate zero gives the least value of a power law as its
/// sample.
pub proof fn law_power_law_sample_starts_at_least_value(
    dist: crate::continuous_distribution::PowerLawDistribution,
    variates: crate::continuous_distribution::Variates,
)
    requires
        dist.valid(),
        variates.uniform == 0,
        -0x8000_0000_0000_0000 <= dist.spec_shift() < dist.spec_min_x() <= 0x7fff_ffff_ffff_ffff,
    ensures
        crate::continuous_distribution::ContinuousProbabilityDistribution::spec_sample(
            &dist,
            variates,
        ) == dist.spec_min_x(),
{
    let power = fx_div_spec(ONE as int, ONE - dist.spec_exponent());
    lemma2_to64();
    lemma_log2_of_binary_fraction(ONE as int, 0);
    assert(fx_log2_spec(ONE as int) == 0);
    lemma_round_ratio_nearest(0, ONE as int);
    assert(0 * crate::fixed_log::LN_2 == 0);
    assert(fx_mul_spec(0, crate::fixed_log::LN_2 as int) == 0);
    assert(crate::fixed_log::fx_ln_wide_spec(ONE as int) == 0);
    assert(power * 0 == 0);
    assert(fx_mul_spec(power, 0) == 0);
    crate::fixed_exp::lemma_exp_of_zero();
    assert(crate::fixed_exp::fx_exp_wide_spec(0) == ONE);
    assert(fx_sub_spec(ONE as int, variates.uniform as int) == ONE);
    assert(crate::fixed_exp::wide_pow_spec(ONE as int, power) == ONE);
    let spread = dist.spec_min_x() - dist.spec_shift();
    lemma_round_ratio_exact(spread, ONE as int);
    assert(crate::wide::wide_mul_spec(spread, ONE as int) == spread);
}

} // verus!
