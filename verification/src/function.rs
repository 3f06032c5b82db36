//! Functions on finite sets, held as tables.

use crate::discrete_distribution::{
    first_occurrences, first_occurrences_of, has_duplicates, occurs_in, DistributionError,
};
use crate::fixed::{clamp, fx_mul, fx_mul_spec, Fixed};
use vstd::pervasive::unreached;
use vstd::prelude::*;
use vstd::std_specs::cmp::PartialEqSpec;

verus! {

/// A function from `T` to `S` with a listed domain.
pub trait Function<T, S> {
    /// The points at which the function is defined.
    spec fn spec_domain(&self) -> Seq<T>;

    /// The values that the function takes, each listed once.
    spec fn spec_range(&self) -> Seq<S>;

    /// The value of the function at `x`.
    spec fn spec_eval(&self, x: T) -> S;

    /// The sum of the function over the points of `domain`.
    spec fn spec_measure(&self, domain: Seq<T>) -> S;

    /// Whether the function may be evaluated at `x`.
    spec fn defined_at(&self, x: T) -> bool;

    /// Whether the function may be summed over `domain`.
    spec fn measurable(&self, domain: Seq<T>) -> bool;

    /// A copy of the domain.
    fn domain(&self) -> (r: Vec<T>)
        ensures
            r@ == self.spec_domain(),
    ;

    /// A copy of the range.
    fn range(&self) -> (r: Vec<S>)
        ensures
            r@ == self.spec_range(),
    ;

    /// The value of the function at a point of its domain.
    fn eval(&self, x: &T) -> (y: S)
        requires
            self.defined_at(*x),
        ensures
            y == self.spec_eval(*x),
    ;

    /// The sum of the function over a set of points of its domain.
    fn measure(&self, domain: &Vec<T>) -> (m: S)
        requires
            self.measurable(domain@),
        ensures
            m == self.spec_measure(domain@),
    ;
}

/// The value that the table `values` over `domain` holds for `x`: that at
/// the first position where `domain` equals `x`.
pub open spec fn table_value<T: PartialEq, S>(domain: Seq<T>, values: Seq<S>, x: T) -> S
    decreases domain.len(),
{
    if domain.len() == 0 || values.len() == 0 {
        arbitrary()
    } else if domain.first().eq_spec(&x) {
        values.first()
    } else {
        table_value(domain.drop_first(), values.drop_first(), x)
    }
}

/// A function on a finite set of points, tabulated when it is built.
pub struct DiscreteFunction<T: Copy + PartialEq, S: Copy + PartialEq> {
    domain: Vec<T>,
    range: Vec<S>,
    values: Vec<S>,
}

impl<T: Copy + PartialEq, S: Copy + PartialEq> DiscreteFunction<T, S> {
    #[verifier::type_invariant]
    spec fn inv(&self) -> bool {
        &&& self.domain@.len() == self.values@.len()
        &&& (T::obeys_eq_spec() ==> !has_duplicates(self.domain@))
        &&& (S::obeys_eq_spec() ==> self.range@ == first_occurrences(self.values@))
    }

    /// The points of the domain, in order.
    pub closed spec fn domain_points(&self) -> Seq<T> {
        self.domain@
    }

    /// The value at each point of the domain, in the same order.
    pub closed spec fn domain_values(&self) -> Seq<S> {
        self.values@
    }

    /// The values taken, each once, in the order of first occurrence.
    pub closed spec fn range_values(&self) -> Seq<S> {
        self.range@
    }

    /// The function that takes at each point of `domain` the value that
    /// `func` returns for it. The points must differ from one another.
    pub fn new<F: Fn(&T) -> S>(domain: Vec<T>, func: F) -> (r: Result<Self, DistributionError>)
        requires
            forall|i: int| 0 <= i < domain@.len() ==> call_requires(func, (&#[trigger] domain@[i],)),
        ensures
            T::obeys_eq_spec() && S::obeys_eq_spec() ==> match r {
                Ok(f) => {
                    &&& !has_duplicates(domain@)
                    &&& f.domain_points() == domain@
                    &&& f.domain_values().len() == domain@.len()
                    &&& forall|i: int|
                        0 <= i < domain@.len() ==> call_ensures(
                            func,
                            (&domain@[i],),
                            #[trigger] f.domain_values()[i],
                        )
                    &&& f.range_values() == first_occurrences(f.domain_values())
                },
                Err(e) => e == DistributionError::DuplicateOutcome && has_duplicates(domain@),
            },
    {
        let n: usize = domain.len();
        let mut j: usize = 0;
        while j < n
            invariant
                j <= n,
                n == domain@.len(),
                T::obeys_eq_spec() ==> forall|a: int, b: int|
                    #![trigger domain@[a], domain@[b]]
                    0 <= a < b < j ==> !domain@[a].eq_spec(&domain@[b]),
            decreases n - j,
        {
            let mut i: usize = 0;
            while i < j
                invariant
                    i <= j < n,
                    n == domain@.len(),
                    T::obeys_eq_spec() ==> forall|a: int|
                        0 <= a < i ==> !(#[trigger] domain@[a]).eq_spec(&domain@[j as int]),
                decreases j - i,
            {
                if domain[i] == domain[j] {
                    proof {
                        if T::obeys_eq_spec() {
                            assert(domain@[i as int].eq_spec(&domain@[j as int]));
                        }
                    }
                    return Err(DistributionError::DuplicateOutcome);
                }
                i += 1;
            }
            j += 1;
        }
        let mut values: Vec<S> = Vec::new();
        let mut k: usize = 0;
        while k < n
            invariant
                k <= n,
                n == domain@.len(),
                values@.len() == k,
                forall|i: int| 0 <= i < n ==> call_requires(func, (&#[trigger] domain@[i],)),
                forall|i: int|
                    0 <= i < k ==> call_ensures(func, (&domain@[i],), #[trigger] values@[i]),
            decreases n - k,
        {
            let y: S = func(&domain[k]);
            values.push(y);
            k += 1;
        }
        let range: Vec<S> = first_occurrences_of(&values);
        Ok(DiscreteFunction { domain, range, values })
    }
}

/// Sum over `points` of the table's value at each.
pub open spec fn table_sum<T: PartialEq>(domain: Seq<T>, values: Seq<i64>, points: Seq<T>) -> int
    decreases points.len(),
{
    if points.len() == 0 {
        0
    } else {
        table_sum(domain, values, points.drop_last()) + table_value(domain, values, points.last())
    }
}

/// A copy of `v`.
pub fn copy_of<A: Copy>(v: &Vec<A>) -> (r: Vec<A>)
    ensures
        r@ == v@,
{
    let mut r: Vec<A> = Vec::new();
    let mut i: usize = 0;
    while i < v.len()
        invariant
            i <= v@.len(),
            r@ == v@.take(i as int),
        decreases v@.len() - i,
    {
        r.push(v[i]);
        proof {
            assert(r@ =~= v@.take(i as int + 1));
        }
        i += 1;
    }
    proof {
        assert(v@.take(v@.len() as int) =~= v@);
    }
    r
}

impl<T: Copy + PartialEq, S: Copy + PartialEq> DiscreteFunction<T, S> {
    /// A copy of the domain, whatever the type of the values.
    pub fn points(&self) -> (r: Vec<T>)
        ensures
            r@ == self.domain_points(),
    {
        copy_of(&self.domain)
    }

    /// A copy of the range, whatever the type of the values.
    pub fn values_taken(&self) -> (r: Vec<S>)
        ensures
            r@ == self.range_values(),
    {
        copy_of(&self.range)
    }

    /// The value of the function at a point of its domain, whatever the
    /// type of the values.
    pub fn value_at(&self, x: &T) -> (y: S)
        requires
            T::obeys_eq_spec(),
            occurs_in(self.domain_points(), *x),
        ensures
            y == table_value(self.domain_points(), self.domain_values(), *x),
    {
        proof {
            use_type_invariant(self);
        }
        let n: usize = self.domain.len();
        let mut i: usize = 0;
        assert(self.domain@.skip(0) =~= self.domain@);
        assert(self.values@.skip(0) =~= self.values@);
        while i < n
            invariant
                i <= n,
                n == self.domain@.len(),
                n == self.values@.len(),
                T::obeys_eq_spec(),
                forall|a: int| 0 <= a < i ==> !(#[trigger] self.domain@[a]).eq_spec(x),
                table_value(self.domain@, self.values@, *x) == table_value(
                    self.domain@.skip(i as int),
                    self.values@.skip(i as int),
                    *x,
                ),
            decreases n - i,
        {
            proof {
                assert(self.domain@.skip(i as int).drop_first() =~= self.domain@.skip(i as int + 1));
                assert(self.values@.skip(i as int).drop_first() =~= self.values@.skip(i as int + 1));
            }
            if self.domain[i] == *x {
                return self.values[i];
            }
            i += 1;
        }
        unreached()
    }
}

impl<T: Copy + PartialEq> Function<T, i64> for DiscreteFunction<T, i64> {
    open spec fn spec_domain(&self) -> Seq<T> {
        self.domain_points()
    }

    open spec fn spec_range(&self) -> Seq<i64> {
        self.range_values()
    }

    open spec fn spec_eval(&self, x: T) -> i64 {
        table_value(self.domain_points(), self.domain_values(), x)
    }

    open spec fn spec_measure(&self, domain: Seq<T>) -> i64 {
        clamp(table_sum(self.domain_points(), self.domain_values(), domain)) as i64
    }

    open spec fn defined_at(&self, x: T) -> bool {
        T::obeys_eq_spec() && occurs_in(self.domain_points(), x)
    }

    open spec fn measurable(&self, domain: Seq<T>) -> bool {
        &&& T::obeys_eq_spec()
        &&& !has_duplicates(domain)
        &&& forall|k: int| 0 <= k < domain.len() ==> occurs_in(self.domain_points(), #[trigger] domain[k])
    }

    fn domain(&self) -> (r: Vec<T>) {
        self.points()
    }

    fn range(&self) -> (r: Vec<i64>) {
        self.values_taken()
    }

    fn eval(&self, x: &T) -> (y: i64) {
        self.value_at(x)
    }

    fn measure(&self, domain: &Vec<T>) -> (m: i64) {
        let k: usize = domain.len();
        let mut sum: i128 = 0;
        let mut j: usize = 0;
        assert(domain@.take(0) =~= Seq::<T>::empty());
        while j < k
            invariant
                j <= k,
                k == domain@.len(),
                self.measurable(domain@),
                sum == table_sum(self.domain_points(), self.domain_values(), domain@.take(j as int)),
                -0x8000_0000_0000_0000 * j <= sum <= 0x8000_0000_0000_0000 * j,
            decreases k - j,
        {
            let y: i64 = self.eval(&domain[j]);
            proof {
                assert(domain@.take(j as int + 1).drop_last() =~= domain@.take(j as int));
            }
            sum = sum + y as i128;
            j += 1;
        }
        proof {
            assert(domain@.take(k as int) =~= domain@);
        }
        if sum > 0x7fff_ffff_ffff_ffff {
            0x7fff_ffff_ffff_ffff
        } else if sum < -0x8000_0000_0000_0000 {
            -0x8000_0000_0000_0000
        } else {
            sum as i64
        }
    }
}

/// The default width of the rectangles by which a function is integrated:
/// `10^-6`.
pub const DEFAULT_STEP_SIZE: i64 = 1_000_000_000;

/// A function on an interval of fixed-point numbers, with a step size for
/// its numerical integration.
///
/// The function must accept every point of the interval, and must return
/// the same value whenever it is given the same point.
pub struct ContinuousFunction<F: Fn(&Fixed) -> Fixed> {
    domain: Vec<Fixed>,
    range: Vec<Fixed>,
    func: F,
    step_size: Fixed,
}

/// What a function must satisfy on the interval from `lo` to `hi`: it
/// accepts every point, and it has one value at each.
pub open spec fn well_behaved<F: Fn(&Fixed) -> Fixed>(func: F, lo: int, hi: int) -> bool {
    &&& forall|x: i64| lo <= x <= hi ==> #[trigger] call_requires(func, (&x,))
    &&& forall|x: i64, y: i64, z: i64|
        #![trigger call_ensures(func, (&x,), y), call_ensures(func, (&x,), z)]
        call_ensures(func, (&x,), y) && call_ensures(func, (&x,), z) ==> y == z
}

/// The value of `func` at `x`.
pub open spec fn value_of<F: Fn(&Fixed) -> Fixed>(func: F, x: int) -> int {
    (choose|y: i64| #[trigger] call_ensures(func, (&(x as i64),), y)) as int
}

/// The integral of `func` from `x` to `hi` by rectangles of width `step`,
/// each as high as the function at its left edge; the last rectangle
/// reaches to `hi` and is as high as the function there.
pub open spec fn rectangle_sum<F: Fn(&Fixed) -> Fixed>(func: F, step: int, x: int, hi: int) -> int
    decreases hi - x,
{
    if x >= hi || step <= 0 {
        0
    } else if x + step < hi {
        fx_mul_spec(step, value_of(func, x)) + rectangle_sum(func, step, x + step, hi)
    } else {
        fx_mul_spec(hi - x, value_of(func, hi))
    }
}

impl<F: Fn(&Fixed) -> Fixed> ContinuousFunction<F> {
    #[verifier::type_invariant]
    spec fn inv(&self) -> bool {
        &&& self.domain@.len() == 2
        &&& self.range@.len() == 2
        &&& self.step_size > 0
        &&& well_behaved(self.func, self.domain@[0] as int, self.domain@[1] as int)
    }

    /// The two ends of the interval on which the function is defined.
    pub closed spec fn interval(&self) -> Seq<i64> {
        self.domain@
    }

    /// The two ends of the interval in which the function takes its
    /// values, as given when the function was built.
    pub closed spec fn values_interval(&self) -> Seq<i64> {
        self.range@
    }

    /// The function itself.
    pub closed spec fn spec_func(&self) -> F {
        self.func
    }

    /// The width of the rectangles of the numerical integration.
    pub closed spec fn spec_step_size(&self) -> int {
        self.step_size as int
    }

    /// The invariant of the type, for values that exist only in proofs.
    pub open spec fn valid(&self) -> bool {
        &&& self.interval().len() == 2
        &&& self.values_interval().len() == 2
        &&& self.spec_step_size() > 0
        &&& well_behaved(self.spec_func(), self.interval()[0] as int, self.interval()[1] as int)
    }

    /// The function `func` on the interval `domain` with values in the
    /// interval `range`; both intervals are given by their two ends. The
    /// step size starts as [`DEFAULT_STEP_SIZE`].
    pub fn new(domain: Vec<Fixed>, range: Vec<Fixed>, func: F) -> (r: Self)
        requires
            domain@.len() == 2,
            range@.len() == 2,
            well_behaved(func, domain@[0] as int, domain@[1] as int),
        ensures
            r.valid(),
            r.interval() == domain@,
            r.values_interval() == range@,
            r.spec_func() == func,
            r.spec_step_size() == DEFAULT_STEP_SIZE,
    {
        ContinuousFunction { domain, range, func, step_size: DEFAULT_STEP_SIZE }
    }

    /// The same function with another step size.
    pub fn with_set_step_size(self, step_size: Fixed) -> (r: Self)
        requires
            step_size > 0,
        ensures
            r.valid(),
            r.interval() == self.interval(),
            r.values_interval() == self.values_interval(),
            r.spec_func() == self.spec_func(),
            r.spec_step_size() == step_size,
    {
        proof {
            use_type_invariant(&self);
        }
        ContinuousFunction {
            domain: self.domain,
            range: self.range,
            func: self.func,
            step_size,
        }
    }
}

impl<F: Fn(&Fixed) -> Fixed> Function<Fixed, Fixed> for ContinuousFunction<F> {
    open spec fn spec_domain(&self) -> Seq<Fixed> {
        self.interval()
    }

    open spec fn spec_range(&self) -> Seq<Fixed> {
        self.values_interval()
    }

    open spec fn spec_eval(&self, x: Fixed) -> Fixed {
        value_of(self.spec_func(), x as int) as i64
    }

    open spec fn spec_measure(&self, domain: Seq<Fixed>) -> Fixed {
        clamp(
            rectangle_sum(
                self.spec_func(),
                self.spec_step_size(),
                domain[0] as int,
                domain[1] as int,
            ),
        ) as i64
    }

    open spec fn defined_at(&self, x: Fixed) -> bool {
        self.interval()[0] <= x <= self.interval()[1]
    }

    open spec fn measurable(&self, domain: Seq<Fixed>) -> bool {
        &&& domain.len() == 2
        &&& self.interval()[0] <= domain[0] < domain[1] <= self.interval()[1]
    }

    fn domain(&self) -> (r: Vec<Fixed>) {
        copy_of(&self.domain)
    }

    fn range(&self) -> (r: Vec<Fixed>) {
        copy_of(&self.range)
    }

    fn eval(&self, x: &Fixed) -> (y: Fixed) {
        proof {
            use_type_invariant(self);
        }
        let y: Fixed = (self.func)(x);
        proof {
            let chosen = value_of(self.func, *x as int) as i64;
            assert(call_ensures(self.func, (&*x,), y));
            assert(call_ensures(self.func, (&*x,), chosen));
        }
        y
    }

    fn measure(&self, domain: &Vec<Fixed>) -> (m: Fixed) {
        proof {
            use_type_invariant(self);
        }
        let lo: Fixed = domain[0];
        let hi: Fixed = domain[1];
        let step: Fixed = self.step_size;
        let mut sum: i128 = 0;
        let mut x: Fixed = lo;
        loop
            invariant_except_break
                lo <= x < hi,
                sum + rectangle_sum(self.spec_func(), step as int, x as int, hi as int)
                    == rectangle_sum(self.spec_func(), step as int, lo as int, hi as int),
                -(x - lo) * 0x8000_0000_0000_0000 <= sum * step <= (x - lo) * 0x8000_0000_0000_0000,
            invariant
                step == self.spec_step_size(),
                step > 0,
                self.interval()[0] <= lo,
                hi <= self.interval()[1],
            ensures
                sum == rectangle_sum(self.spec_func(), step as int, lo as int, hi as int),
            decreases hi - x,
        {
            if (x as i128) + (step as i128) < hi as i128 {
                let term: Fixed = fx_mul(step, self.eval(&x));
                proof {
                    lemma_sum_step(sum as int, term as int, step as int, x - lo);
                }
                sum = sum + term as i128;
                x = x + step;
            } else {
                let term: Fixed = fx_mul(hi - x, self.eval(&hi));
                proof {
                    lemma_sum_step(sum as int, term as int, step as int, x - lo);
                }
                sum = sum + term as i128;
                break ;
            }
        }
        if sum > 0x7fff_ffff_ffff_ffff {
            0x7fff_ffff_ffff_ffff
        } else if sum < -0x8000_0000_0000_0000 {
            -0x8000_0000_0000_0000
        } else {
            sum as i64
        }
    }
}

/// A sum that grows by at most one number per step of positive width stays
/// within 128 bits while the steps stay within 64.
proof fn lemma_sum_step(sum: int, term: int, step: int, reach: int)
    requires
        step >= 1,
        0 <= reach <= 0xffff_ffff_ffff_fffe,
        -0x8000_0000_0000_0000 <= term <= 0x8000_0000_0000_0000,
        -reach * 0x8000_0000_0000_0000 <= sum * step <= reach * 0x8000_0000_0000_0000,
    ensures
        -(reach + step) * 0x8000_0000_0000_0000 <= (sum + term) * step <= (reach + step)
            * 0x8000_0000_0000_0000,
        -0x7fff_ffff_ffff_ffff_ffff_ffff_ffff_ffff <= sum + term
            <= 0x7fff_ffff_ffff_ffff_ffff_ffff_ffff_ffff,
{
    assert((sum + term) * step == sum * step + term * step) by (nonlinear_arith);
    assert(-0x8000_0000_0000_0000 * step <= term * step <= 0x8000_0000_0000_0000 * step)
        by (nonlinear_arith)
        requires
            step >= 1,
            -0x8000_0000_0000_0000 <= term <= 0x8000_0000_0000_0000,
    ;
    assert(-reach * 0x8000_0000_0000_0000 <= sum <= reach * 0x8000_0000_0000_0000)
        by (nonlinear_arith)
        requires
            step >= 1,
            reach >= 0,
            -reach * 0x8000_0000_0000_0000 <= sum * step <= reach * 0x8000_0000_0000_0000,
    ;
}

} // verus!
