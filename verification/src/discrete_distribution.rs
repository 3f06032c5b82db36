//! Discrete probability distributions: a list of outcomes, each paired with
//! a fixed-point probability.

use crate::fixed::{
    clamp, fx_sub, fx_sub_spec, round_ratio, round_ratio_saturating, Fixed, ONE,
};
use std::collections::HashSet;
use vstd::prelude::*;
use vstd::std_specs::cmp::PartialEqSpec;

verus! {

broadcast use vstd::std_specs::hash::group_hash_axioms;

/// The tolerance, `10^-10`, within which probabilities must sum to one, and
/// below zero by which a single probability may fall.
pub const TOLERANCE: i64 = 100_000;

/// The largest number of outcomes that can be counted from zero in the
/// outcome type `i32`.
pub const MAX_COUNTED_OUTCOMES: usize = 0x7fff_ffff;

/// Why a distribution, or a query on one, was rejected.
#[derive(Clone, Copy, Debug, PartialEq, Eq, Structural)]
pub enum DistributionError {
    /// Outcomes and probabilities differ in number.
    DimensionMismatch,
    /// A probability lies below `-10^-10`, or the probabilities do not sum to
    /// one within `10^-10`.
    InvalidProbability,
    /// A parameter of a named family lies outside its domain.
    DegenerateParameter,
    /// A set of outcomes handed to `measure` names an outcome twice.
    DuplicateOutcome,
    /// The result has more outcomes than the machine can count, or a sum on
    /// the way to it does not fit the widest integer.
    TooLarge,
}

impl DistributionError {
    /// What went wrong, in words.
    pub open spec fn spec_message(&self) -> Seq<char> {
        match self {
            DistributionError::DimensionMismatch =>
                "outcomes and probabilities must have the same length"@,
            DistributionError::InvalidProbability =>
                "probabilities must be non-negative and sum to 1"@,
            DistributionError::DegenerateParameter => "a parameter lies outside its domain"@,
            DistributionError::DuplicateOutcome => "the outcomes must differ from one another"@,
            DistributionError::TooLarge => "the result is too large for this machine"@,
        }
    }

    /// What went wrong, in words.
    pub fn message(&self) -> (text: &'static str)
        ensures
            text@ == self.spec_message(),
    {
        match self {
            DistributionError::DimensionMismatch => {
                "outcomes and probabilities must have the same length"
            },
            DistributionError::InvalidProbability => {
                "probabilities must be non-negative and sum to 1"
            },
            DistributionError::DegenerateParameter => "a parameter lies outside its domain",
            DistributionError::DuplicateOutcome => "the outcomes must differ from one another",
            DistributionError::TooLarge => "the result is too large for this machine",
        }
    }
}

/// Sum of the entries of `s`.
pub open spec fn seq_sum(s: Seq<i64>) -> int
    decreases s.len(),
{
    if s.len() == 0 {
        0
    } else {
        seq_sum(s.drop_last()) + s.last()
    }
}

/// No entry lies below `-10^-10`.
pub open spec fn none_negative(probabilities: Seq<i64>) -> bool {
    forall|i: int| 0 <= i < probabilities.len() ==> probabilities[i] >= -TOLERANCE
}

/// The entries sum to one within `10^-10`.
pub open spec fn sums_to_one(probabilities: Seq<i64>) -> bool {
    ONE - TOLERANCE < seq_sum(probabilities) < ONE + TOLERANCE
}

/// What makes a list of numbers the probabilities of a distribution.
pub open spec fn valid_probabilities(probabilities: Seq<i64>) -> bool {
    &&& none_negative(probabilities)
    &&& sums_to_one(probabilities)
}

/// The probability paired with the first entry of `outcomes` equal to `x`,
/// or zero where no entry equals `x`.
pub open spec fn pmf_in<T: PartialEq>(outcomes: Seq<T>, probabilities: Seq<i64>, x: T) -> int
    decreases outcomes.len(),
{
    if outcomes.len() == 0 || probabilities.len() == 0 {
        0
    } else if outcomes.first().eq_spec(&x) {
        probabilities.first() as int
    } else {
        pmf_in(outcomes.drop_first(), probabilities.drop_first(), x)
    }
}

/// Some entry of `outcomes` equals `x`.
pub open spec fn occurs_in<T: PartialEq>(outcomes: Seq<T>, x: T) -> bool {
    exists|i: int| 0 <= i < outcomes.len() && (#[trigger] outcomes[i]).eq_spec(&x)
}

/// Two entries of `s` at different positions are equal.
pub open spec fn has_duplicates<T: PartialEq>(s: Seq<T>) -> bool {
    exists|i: int, j: int| #![trigger s[i], s[j]] 0 <= i < j < s.len() && s[i].eq_spec(&s[j])
}

/// The entries of `s` in order, each kept only where it first occurs.
pub open spec fn first_occurrences<S: PartialEq>(s: Seq<S>) -> Seq<S>
    decreases s.len(),
{
    if s.len() == 0 {
        Seq::empty()
    } else if occurs_in(first_occurrences(s.drop_last()), s.last()) {
        first_occurrences(s.drop_last())
    } else {
        first_occurrences(s.drop_last()).push(s.last())
    }
}

/// The entries of `v` in order, each kept only where it first occurs.
pub fn first_occurrences_of<S: Copy + PartialEq>(v: &Vec<S>) -> (r: Vec<S>)
    ensures
        S::obeys_eq_spec() ==> r@ == first_occurrences(v@),
        r@.len() <= v@.len(),
{
    let n: usize = v.len();
    let mut r: Vec<S> = Vec::new();
    let mut k: usize = 0;
    assert(v@.take(0) =~= Seq::<S>::empty());
    while k < n
        invariant
            k <= n,
            n == v@.len(),
            r@.len() <= k,
            S::obeys_eq_spec() ==> r@ == first_occurrences(v@.take(k as int)),
        decreases n - k,
    {
        let y: S = v[k];
        let mut seen: bool = false;
        let mut m: usize = 0;
        while m < r.len()
            invariant
                m <= r@.len(),
                S::obeys_eq_spec() ==> (seen <==> exists|a: int|
                    0 <= a < m && (#[trigger] r@[a]).eq_spec(&y)),
            decreases r@.len() - m,
        {
            if r[m] == y {
                seen = true;
            }
            m += 1;
        }
        proof {
            assert(v@.take(k as int + 1).drop_last() =~= v@.take(k as int));
        }
        if !seen {
            r.push(y);
        }
        k += 1;
    }
    proof {
        assert(v@.take(n as int) =~= v@);
    }
    r
}

/// Sum of [`pmf_in`] over the entries of `domain`.
pub open spec fn measure_in<T: PartialEq>(
    outcomes: Seq<T>,
    probabilities: Seq<i64>,
    domain: Seq<T>,
) -> int
    decreases domain.len(),
{
    if domain.len() == 0 {
        0
    } else {
        measure_in(outcomes, probabilities, domain.drop_last()) + pmf_in(
            outcomes,
            probabilities,
            domain.last(),
        )
    }
}

/// An outcome that does not occur has probability zero.
pub proof fn lemma_pmf_absent<T: PartialEq>(outcomes: Seq<T>, probabilities: Seq<i64>, x: T)
    requires
        !occurs_in(outcomes, x),
    ensures
        pmf_in(outcomes, probabilities, x) == 0,
    decreases outcomes.len(),
{
    if outcomes.len() == 0 || probabilities.len() == 0 {
    } else {
        assert(outcomes[0] == outcomes.first());
        assert(!outcomes[0].eq_spec(&x));
        assert forall|i: int| 0 <= i < outcomes.drop_first().len() implies !(
        #[trigger] outcomes.drop_first()[i]).eq_spec(&x) by {
            assert(outcomes.drop_first()[i] == outcomes[i + 1]);
        }
        lemma_pmf_absent(outcomes.drop_first(), probabilities.drop_first(), x);
    }
}

/// The probability of `x` when the search for it starts at position `from`.
pub proof fn lemma_pmf_in_skip<T: PartialEq>(
    outcomes: Seq<T>,
    probabilities: Seq<i64>,
    x: T,
    from: int,
)
    requires
        0 <= from < outcomes.len(),
        outcomes.len() == probabilities.len(),
    ensures
        pmf_in(outcomes.skip(from), probabilities.skip(from), x) == if outcomes[from].eq_spec(&x) {
            probabilities[from] as int
        } else {
            pmf_in(outcomes.skip(from + 1), probabilities.skip(from + 1), x)
        },
{
    assert(outcomes.skip(from).drop_first() =~= outcomes.skip(from + 1));
    assert(probabilities.skip(from).drop_first() =~= probabilities.skip(from + 1));
}

/// A discrete probability distribution over outcomes of type `T`.
///
/// A value of this type always holds as many probabilities as outcomes,
/// none below `-10^-10`, summing to one within `10^-10`. Outcomes may repeat; a query by outcome then sees the first.
#[derive(Debug)]
pub struct DiscreteProbabilityDistribution<T> {
    outcomes: Vec<T>,
    probabilities: Vec<Fixed>,
}

impl<T> DiscreteProbabilityDistribution<T> {
    #[verifier::type_invariant]
    spec fn inv(&self) -> bool {
        &&& self.outcomes@.len() == self.probabilities@.len()
        &&& valid_probabilities(self.probabilities@)
    }

    /// The outcomes, in order.
    pub closed spec fn spec_outcomes(&self) -> Seq<T> {
        self.outcomes@
    }

    /// The probabilities, in the order of the outcomes.
    pub closed spec fn spec_probabilities(&self) -> Seq<i64> {
        self.probabilities@
    }

    /// The invariant of the type, for values that exist only in proofs.
    pub open spec fn valid(&self) -> bool {
        &&& self.spec_outcomes().len() == self.spec_probabilities().len()
        &&& valid_probabilities(self.spec_probabilities())
    }

    /// Builds a distribution from outcomes and their probabilities, after
    /// checking that the two lists match and that the probabilities are
    /// valid.
    pub fn new(outcomes: Vec<T>, probabilities: Vec<Fixed>) -> (r: Result<Self, DistributionError>)
        ensures
            match r {
                Ok(dist) => {
                    &&& dist.valid()
                    &&& dist.spec_outcomes() == outcomes@
                    &&& dist.spec_probabilities() == probabilities@
                },
                Err(DistributionError::DimensionMismatch) => outcomes@.len()
                    != probabilities@.len(),
                Err(DistributionError::InvalidProbability) => {
                    &&& outcomes@.len() == probabilities@.len()
                    &&& !valid_probabilities(probabilities@)
                },
                Err(_) => false,
            },
    {
        if outcomes.len() != probabilities.len() {
            return Err(DistributionError::DimensionMismatch);
        }
        let n: usize = probabilities.len();
        let mut sum: i128 = 0;
        let mut i: usize = 0;
        while i < n
            invariant
                i <= n,
                n == probabilities@.len(),
                n == outcomes@.len(),
                sum == seq_sum(probabilities@.take(i as int)),
                -0x8000_0000_0000_0000 * i <= sum <= 0x8000_0000_0000_0000 * i,
                forall|k: int| 0 <= k < i ==> probabilities@[k] >= -TOLERANCE,
            decreases n - i,
        {
            let p: i64 = probabilities[i];
            if p < -TOLERANCE {
                assert(probabilities@[i as int] < -TOLERANCE);
                return Err(DistributionError::InvalidProbability);
            }
            proof {
                assert(probabilities@.take(i as int + 1).drop_last() =~= probabilities@.take(
                    i as int,
                ));
            }
            sum = sum + p as i128;
            i += 1;
        }
        proof {
            assert(probabilities@.take(n as int) =~= probabilities@);
        }
        if sum <= (ONE - TOLERANCE) as i128 || sum >= (ONE + TOLERANCE) as i128 {
            return Err(DistributionError::InvalidProbability);
        }
        Ok(DiscreteProbabilityDistribution { outcomes, probabilities })
    }

    /// The number of outcomes.
    pub fn len(&self) -> (n: usize)
        ensures
            n == self.spec_outcomes().len(),
            n == self.spec_probabilities().len(),
    {
        proof {
            use_type_invariant(self);
        }
        self.outcomes.len()
    }

    /// The probabilities, borrowed.
    pub fn probabilities_ref(&self) -> (r: &Vec<Fixed>)
        ensures
            r@ == self.spec_probabilities(),
            self.valid(),
    {
        proof {
            use_type_invariant(self);
        }
        &self.probabilities
    }

    /// The outcomes, borrowed.
    pub fn outcomes_ref(&self) -> (r: &Vec<T>)
        ensures
            r@ == self.spec_outcomes(),
            self.valid(),
    {
        proof {
            use_type_invariant(self);
        }
        &self.outcomes
    }

    /// A copy of the probabilities.
    pub fn probabilities(&self) -> (r: Vec<Fixed>)
        ensures
            r@ == self.spec_probabilities(),
    {
        let r = self.probabilities.clone();
        assert(r@ =~= self.probabilities@);
        r
    }
}

impl<T: Clone> Clone for DiscreteProbabilityDistribution<T> {
    /// A distribution with the same probabilities and with clones of the
    /// outcomes.
    fn clone(&self) -> (r: Self)
        ensures
            r.valid(),
            r.spec_probabilities() == self.spec_probabilities(),
            r.spec_outcomes().len() == self.spec_outcomes().len(),
            forall|i: int|
                0 <= i < r.spec_outcomes().len() ==> cloned::<T>(
                    self.spec_outcomes()[i],
                    #[trigger] r.spec_outcomes()[i],
                ),
    {
        proof {
            use_type_invariant(self);
        }
        let outcomes: Vec<T> = self.outcomes.clone();
        let probabilities: Vec<Fixed> = self.probabilities.clone();
        assert(probabilities@ =~= self.probabilities@);
        DiscreteProbabilityDistribution { outcomes, probabilities }
    }
}

impl<T: Clone> DiscreteProbabilityDistribution<T> {
    /// A copy of the outcomes.
    pub fn outcomes(&self) -> (r: Vec<T>)
        ensures
            r@.len() == self.spec_outcomes().len(),
            forall|i: int| 0 <= i < r@.len() ==> cloned::<T>(self.spec_outcomes()[i], #[trigger] r@[i]),
    {
        self.outcomes.clone()
    }
}

/// The position that sampling selects for the uniform variate `u`, by a
/// walk that starts at position `from` with `u` less the probabilities
/// before it as `remainder`: the first position whose probability brings the
/// remainder to zero or below, and the last position if none does.
pub open spec fn sample_walk(probabilities: Seq<i64>, remainder: int, from: int) -> int
    decreases probabilities.len() - from,
{
    if from >= probabilities.len() - 1 {
        probabilities.len() - 1
    } else if remainder - probabilities[from] <= 0 {
        from
    } else {
        sample_walk(probabilities, remainder - probabilities[from], from + 1)
    }
}

/// The position that sampling selects for the uniform variate `u`.
pub open spec fn sample_index_spec(probabilities: Seq<i64>, u: int) -> int {
    sample_walk(probabilities, u, 0)
}

/// The walk ends at a position of the list.
pub proof fn lemma_sample_index_range(probabilities: Seq<i64>, remainder: int, from: int)
    requires
        0 <= from < probabilities.len(),
    ensures
        from <= sample_walk(probabilities, remainder, from) < probabilities.len(),
    decreases probabilities.len() - from,
{
    if from >= probabilities.len() - 1 {
    } else if remainder - probabilities[from] <= 0 {
    } else {
        lemma_sample_index_range(probabilities, remainder - probabilities[from], from + 1);
    }
}

impl<T> DiscreteProbabilityDistribution<T> {
    /// The position of the outcome that sampling selects for the uniform
    /// variate `u`: the outcomes are walked in order, each probability is
    /// taken off `u`, and the walk stops where the remainder reaches zero or
    /// less, at the latest at the last outcome.
    pub fn sample_index(&self, u: Fixed) -> (index: usize)
        ensures
            index == sample_index_spec(self.spec_probabilities(), u as int),
            index < self.spec_outcomes().len(),
    {
        proof {
            use_type_invariant(self);
            lemma_sum_not_empty(self.probabilities@);
            lemma_sample_index_range(self.probabilities@, u as int, 0);
        }
        let n: usize = self.probabilities.len();
        let mut remainder: i128 = u as i128;
        let mut i: usize = 0;
        while i < n - 1
            invariant
                i < n,
                n == self.probabilities@.len(),
                n == self.outcomes@.len(),
                sample_walk(self.probabilities@, remainder as int, i as int) == sample_index_spec(
                    self.probabilities@,
                    u as int,
                ),
                -0x8000_0000_0000_0000 * (i + 1) <= remainder <= 0x8000_0000_0000_0000 * (i + 1),
            decreases n - i,
        {
            remainder = remainder - self.probabilities[i] as i128;
            if remainder <= 0 {
                return i;
            }
            i += 1;
        }
        i
    }
}

impl<T: Clone> DiscreteProbabilityDistribution<T> {
    /// The outcome that sampling selects for the uniform variate `u`.
    pub fn sample_at(&self, u: Fixed) -> (r: T)
        ensures
            cloned::<T>(
                self.spec_outcomes()[sample_index_spec(self.spec_probabilities(), u as int)],
                r,
            ),
    {
        let index: usize = self.sample_index(u);
        proof {
            use_type_invariant(self);
        }
        self.outcomes[index].clone()
    }
}

/// Probabilities that sum to one within the tolerance are at least one in
/// number.
pub proof fn lemma_sum_not_empty(probabilities: Seq<i64>)
    requires
        sums_to_one(probabilities),
    ensures
        probabilities.len() > 0,
{
}

impl<T: PartialEq> DiscreteProbabilityDistribution<T> {
    /// The probability of `x`.
    pub open spec fn spec_pmf(&self, x: T) -> int {
        pmf_in(self.spec_outcomes(), self.spec_probabilities(), x)
    }

    /// The total probability of the outcomes listed in `domain`.
    pub open spec fn spec_measure(&self, domain: Seq<T>) -> int {
        measure_in(self.spec_outcomes(), self.spec_probabilities(), domain)
    }

    /// The probability of the outcome `x`: that of its first occurrence among
    /// the outcomes, and zero if it does not occur.
    pub fn pmf(&self, x: &T) -> (p: Fixed)
        ensures
            T::obeys_eq_spec() ==> p == self.spec_pmf(*x),
            T::obeys_eq_spec() && !occurs_in(self.spec_outcomes(), *x) ==> p == 0,
    {
        proof {
            use_type_invariant(self);
        }
        let n: usize = self.outcomes.len();
        let mut i: usize = 0;
        assert(self.outcomes@.skip(0) =~= self.outcomes@);
        assert(self.probabilities@.skip(0) =~= self.probabilities@);
        while i < n
            invariant
                i <= n,
                n == self.outcomes@.len(),
                n == self.probabilities@.len(),
                T::obeys_eq_spec() ==> pmf_in(self.outcomes@, self.probabilities@, *x) == pmf_in(
                    self.outcomes@.skip(i as int),
                    self.probabilities@.skip(i as int),
                    *x,
                ),
            decreases n - i,
        {
            proof {
                lemma_pmf_in_skip(self.outcomes@, self.probabilities@, *x, i as int);
            }
            if self.outcomes[i] == *x {
                proof {
                    if T::obeys_eq_spec() && !occurs_in(self.spec_outcomes(), *x) {
                        assert(self.outcomes@[i as int].eq_spec(x));
                    }
                }
                return self.probabilities[i];
            }
            i += 1;
        }
        proof {
            if T::obeys_eq_spec() && !occurs_in(self.spec_outcomes(), *x) {
                lemma_pmf_absent(self.outcomes@, self.probabilities@, *x);
            }
        }
        0
    }

    /// The measure of a set of outcomes, given as a list without repeats: the
    /// sum of their probabilities.
    pub fn measure(&self, domain: &Vec<T>) -> (r: Result<Fixed, DistributionError>)
        ensures
            T::obeys_eq_spec() ==> match r {
                Ok(m) => !has_duplicates(domain@) && m == clamp(self.spec_measure(domain@)),
                Err(e) => e == DistributionError::DuplicateOutcome && has_duplicates(domain@),
            },
    {
        let k: usize = domain.len();
        let mut j: usize = 0;
        while j < k
            invariant
                j <= k,
                k == domain@.len(),
                T::obeys_eq_spec() ==> forall|a: int, b: int|
                    #![trigger domain@[a], domain@[b]]
                    0 <= a < b < j ==> !domain@[a].eq_spec(&domain@[b]),
            decreases k - j,
        {
            let mut i: usize = 0;
            while i < j
                invariant
                    i <= j < k,
                    k == domain@.len(),
                    T::obeys_eq_spec() ==> forall|a: int|
                        0 <= a < i ==> !(#[trigger] domain@[a]).eq_spec(&domain@[j as int]),
                decreases j - i,
            {
                if domain[i] == domain[j] {
                    proof {
                        if T::obeys_eq_spec() {
                            assert(domain@[i as int].eq_spec(&domain@[j as int]));
                        }
                    }
                    return Err(DistributionError::DuplicateOutcome);
                }
                i += 1;
            }
            j += 1;
        }
        let mut sum: i128 = 0;
        let mut j: usize = 0;
        while j < k
            invariant
                j <= k,
                k == domain@.len(),
                T::obeys_eq_spec() ==> sum == self.spec_measure(domain@.take(j as int)),
                -0x8000_0000_0000_0000 * j <= sum <= 0x8000_0000_0000_0000 * j,
            decreases k - j,
        {
            let p: i64 = self.pmf(&domain[j]);
            proof {
                assert(domain@.take(j as int + 1).drop_last() =~= domain@.take(j as int));
            }
            sum = sum + p as i128;
            j += 1;
        }
        proof {
            assert(domain@.take(k as int) =~= domain@);
        }
        let m: i64 = if sum > 0x7fff_ffff_ffff_ffff {
            0x7fff_ffff_ffff_ffff
        } else if sum < -0x8000_0000_0000_0000 {
            -0x8000_0000_0000_0000
        } else {
            sum as i64
        };
        Ok(m)
    }
}

impl DiscreteProbabilityDistribution<i32> {
    /// The distribution over the outcomes `0, 1, ..., n - 1` with the given
    /// `n` probabilities, of which there can be at most as many as the
    /// outcome type counts.
    pub fn multinomial(probabilities: Vec<Fixed>) -> (r: Result<Self, DistributionError>)
        ensures
            match r {
                Ok(dist) => {
                    &&& probabilities@.len() <= MAX_COUNTED_OUTCOMES
                    &&& dist.valid()
                    &&& dist.spec_probabilities() == probabilities@
                    &&& dist.spec_outcomes() == Seq::new(probabilities@.len(), |i: int| i as i32)
                },
                Err(DistributionError::TooLarge) => probabilities@.len()
                    > MAX_COUNTED_OUTCOMES,
                Err(DistributionError::InvalidProbability) => {
                    &&& probabilities@.len() <= MAX_COUNTED_OUTCOMES
                    &&& !valid_probabilities(probabilities@)
                },
                Err(_) => false,
            },
    {
        let n: usize = probabilities.len();
        if n > MAX_COUNTED_OUTCOMES {
            return Err(DistributionError::TooLarge);
        }
        let mut outcomes: Vec<i32> = Vec::new();
        let mut i: usize = 0;
        while i < n
            invariant
                i <= n <= MAX_COUNTED_OUTCOMES,
                outcomes@.len() == i,
                forall|k: int| 0 <= k < i ==> outcomes@[k] == k as i32,
            decreases n - i,
        {
            outcomes.push(i as i32);
            i += 1;
        }
        assert(outcomes@ =~= Seq::new(probabilities@.len(), |i: int| i as i32));
        Self::new(outcomes, probabilities)
    }

    /// The two-outcome distribution that gives outcome `1` the probability
    /// `p` and outcome `0` the rest.
    pub fn binomial(p: Fixed) -> (r: Result<Self, DistributionError>)
        ensures
            match r {
                Ok(dist) => {
                    &&& dist.valid()
                    &&& dist.spec_probabilities() == seq![fx_sub_spec(ONE as int, p as int) as i64, p]
                    &&& dist.spec_outcomes() == seq![0i32, 1i32]
                },
                Err(e) => {
                    &&& e == DistributionError::InvalidProbability
                    &&& !valid_probabilities(seq![fx_sub_spec(ONE as int, p as int) as i64, p])
                },
            },
            -TOLERANCE <= p <= ONE + TOLERANCE <==> r is Ok,
    {
        let q: Fixed = fx_sub(ONE, p);
        let mut probabilities: Vec<Fixed> = Vec::new();
        probabilities.push(q);
        probabilities.push(p);
        proof {
            let s = seq![q, p];
            assert(probabilities@ =~= s);
            assert(s.drop_last() =~= seq![q]);
            assert(seq![q].drop_last() =~= Seq::<i64>::empty());
            assert(seq_sum(Seq::<i64>::empty()) == 0);
            assert(seq_sum(seq![q]) == q);
            assert(seq_sum(s) == q + p);
            assert(Seq::new(2, |i: int| i as i32) =~= seq![0i32, 1i32]);
            if -TOLERANCE <= p <= ONE + TOLERANCE {
                assert(q == ONE - p);
                assert forall|i: int| 0 <= i < s.len() implies s[i] >= -TOLERANCE by {
                    if i == 0 {
                    } else {
                    }
                }
            } else {
                if p < -TOLERANCE {
                    assert(s[1] < -TOLERANCE);
                } else {
                    assert(s[0] < -TOLERANCE);
                }
            }
        }
        Self::multinomial(probabilities)
    }
}

/// The outcomes of two distributions together, each listed once, in the
/// order of first occurrence.
pub open spec fn union_outcomes(xo: Seq<i32>, yo: Seq<i32>) -> Seq<i32> {
    first_occurrences(xo + yo)
}

/// The mean of two probabilities, rounded to the nearest unit.
pub open spec fn average_probability(px: int, py: int) -> int {
    clamp(round_ratio(px + py, 2))
}

/// For each outcome of the union the mean of the probabilities that the
/// two distributions give it.
pub open spec fn average_probabilities(
    xo: Seq<i32>,
    xp: Seq<i64>,
    yo: Seq<i32>,
    yp: Seq<i64>,
) -> Seq<i64> {
    let union = union_outcomes(xo, yo);
    Seq::new(
        union.len(),
        |i: int| average_probability(pmf_in(xo, xp, union[i]), pmf_in(yo, yp, union[i])) as i64,
    )
}

/// The integers of `v` in order, each kept only where it first occurs. A
/// hash set remembers the integers met so far.
pub fn distinct_integers(v: &Vec<i32>) -> (r: Vec<i32>)
    ensures
        r@ == first_occurrences(v@),
{
    let n: usize = v.len();
    let mut seen: HashSet<i32> = HashSet::new();
    let mut r: Vec<i32> = Vec::new();
    let mut k: usize = 0;
    assert(v@.take(0) =~= Seq::<i32>::empty());
    while k < n
        invariant
            k <= n,
            n == v@.len(),
            r@ == first_occurrences(v@.take(k as int)),
            forall|x: i32| seen@.contains(x) <==> occurs_in(r@, x),
        decreases n - k,
    {
        let x: i32 = v[k];
        let ghost before = r@;
        proof {
            assert(v@.take(k as int + 1).drop_last() =~= v@.take(k as int));
            assert(v@.take(k as int + 1).last() == x);
        }
        let fresh: bool = seen.insert(x);
        if fresh {
            r.push(x);
        }
        proof {
            assert forall|y: i32| seen@.contains(y) <==> occurs_in(r@, y) by {
                if occurs_in(r@, y) {
                    let i = choose|i: int| 0 <= i < r@.len() && (#[trigger] r@[i]).eq_spec(&y);
                    if i < before.len() {
                        assert(before[i].eq_spec(&y));
                    }
                }
                if occurs_in(before, y) {
                    let i = choose|i: int|
                        0 <= i < before.len() && (#[trigger] before[i]).eq_spec(&y);
                    assert(r@[i].eq_spec(&y));
                }
                if fresh && y == x {
                    assert(r@[r@.len() - 1].eq_spec(&y));
                }
            }
        }
        k += 1;
    }
    proof {
        assert(v@.take(n as int) =~= v@);
    }
    r
}

/// The outcomes of `dist_x` followed by those of `dist_y`, each listed
/// once.
pub fn outcome_union(
    dist_x: &DiscreteProbabilityDistribution<i32>,
    dist_y: &DiscreteProbabilityDistribution<i32>,
) -> (r: Vec<i32>)
    ensures
        r@ == union_outcomes(dist_x.spec_outcomes(), dist_y.spec_outcomes()),
{
    let xs: &Vec<i32> = dist_x.outcomes_ref();
    let ys: &Vec<i32> = dist_y.outcomes_ref();
    let mut all: Vec<i32> = Vec::new();
    let mut i: usize = 0;
    while i < xs.len()
        invariant
            i <= xs@.len(),
            all@ == xs@.take(i as int),
        decreases xs@.len() - i,
    {
        all.push(xs[i]);
        proof {
            assert(all@ =~= xs@.take(i as int + 1));
        }
        i += 1;
    }
    let mut j: usize = 0;
    proof {
        assert(xs@.take(xs@.len() as int) =~= xs@);
        assert(all@ =~= xs@ + ys@.take(0));
    }
    while j < ys.len()
        invariant
            j <= ys@.len(),
            all@ == xs@ + ys@.take(j as int),
        decreases ys@.len() - j,
    {
        all.push(ys[j]);
        proof {
            assert(all@ =~= xs@ + ys@.take(j as int + 1));
        }
        j += 1;
    }
    proof {
        assert(ys@.take(ys@.len() as int) =~= ys@);
    }
    distinct_integers(&all)
}

/// The distribution that gives each outcome of either distribution the
/// mean of the probabilities that the two give it.
pub fn discrete_average_distributions(
    dist_x: &DiscreteProbabilityDistribution<i32>,
    dist_y: &DiscreteProbabilityDistribution<i32>,
) -> (r: Result<DiscreteProbabilityDistribution<i32>, DistributionError>)
    ensures
        ({
            let xo = dist_x.spec_outcomes();
            let xp = dist_x.spec_probabilities();
            let yo = dist_y.spec_outcomes();
            let yp = dist_y.spec_probabilities();
            let outcomes = union_outcomes(xo, yo);
            let probabilities = average_probabilities(xo, xp, yo, yp);
            match r {
                Ok(dist) => {
                    &&& dist.valid()
                    &&& dist.spec_outcomes() == outcomes
                    &&& dist.spec_probabilities() == probabilities
                },
                Err(e) => e == DistributionError::InvalidProbability && !valid_probabilities(
                    probabilities,
                ),
            }
        }),
{
    let outcomes: Vec<i32> = outcome_union(dist_x, dist_y);
    let n: usize = outcomes.len();
    let mut probabilities: Vec<Fixed> = Vec::new();
    let mut i: usize = 0;
    while i < n
        invariant
            i <= n,
            n == outcomes@.len(),
            probabilities@.len() == i,
            forall|k: int|
                0 <= k < i ==> #[trigger] probabilities@[k] == average_probability(
                    dist_x.spec_pmf(outcomes@[k]),
                    dist_y.spec_pmf(outcomes@[k]),
                ),
        decreases n - i,
    {
        let px: Fixed = dist_x.pmf(&outcomes[i]);
        let py: Fixed = dist_y.pmf(&outcomes[i]);
        let sum: i128 = px as i128 + py as i128;
        let negative: bool = sum < 0;
        let mag: u128 = if negative {
            (-sum) as u128
        } else {
            sum as u128
        };
        probabilities.push(round_ratio_saturating(negative, mag, 2));
        i += 1;
    }
    proof {
        assert(probabilities@ =~= average_probabilities(
            dist_x.spec_outcomes(),
            dist_x.spec_probabilities(),
            dist_y.spec_outcomes(),
            dist_y.spec_probabilities(),
        ));
    }
    DiscreteProbabilityDistribution::new(outcomes, probabilities)
}

} // verus!
