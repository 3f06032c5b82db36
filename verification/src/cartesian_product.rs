//! Cartesian product of a list of sequences, enumerated in mixed-radix order.
//!
//! Index `i` of the product holds, at position `j`, the element of the `j`-th
//! sequence whose index is the `j`-th mixed-radix digit of `i`; the first
//! sequence varies fastest.

use vstd::prelude::*;

verus! {

/// Product of the first `j` entries of `sizes`: the weight of the `j`-th
/// mixed-radix digit.
pub open spec fn radix_floor(sizes: Seq<int>, j: int) -> int
    decreases j,
{
    if j <= 0 {
        1
    } else {
        radix_floor(sizes, j - 1) * sizes[j - 1]
    }
}

/// Number of tuples in the product of sequences with the given sizes.
pub open spec fn product_len(sizes: Seq<int>) -> int {
    radix_floor(sizes, sizes.len() as int)
}

/// The `j`-th mixed-radix digit of `i`.
pub open spec fn radix_digit(sizes: Seq<int>, i: int, j: int) -> int {
    (i / radix_floor(sizes, j)) % sizes[j]
}

/// The given vectors as sequences.
pub open spec fn views<T>(vectors: Seq<Vec<T>>) -> Seq<Seq<T>> {
    Seq::new(vectors.len(), |j: int| vectors[j]@)
}

/// The lengths of the given sequences, in order.
pub open spec fn sizes_of<T>(sequences: Seq<Seq<T>>) -> Seq<int> {
    Seq::new(sequences.len(), |j: int| sequences[j].len() as int)
}

/// The tuple found at index `i` of the product of `sequences`.
pub open spec fn product_tuple<T>(sequences: Seq<Seq<T>>, i: int) -> Seq<T> {
    Seq::new(sequences.len(), |j: int| sequences[j][radix_digit(sizes_of(sequences), i, j)])
}

/// With positive sizes the digit weights never decrease.
pub proof fn lemma_radix_floor_monotone(sizes: Seq<int>, j: int, k: int)
    requires
        0 <= j <= k <= sizes.len(),
        forall|m: int| 0 <= m < sizes.len() ==> sizes[m] >= 1,
    ensures
        1 <= radix_floor(sizes, j) <= radix_floor(sizes, k),
    decreases k,
{
    if k == 0 {
    } else if j == k {
        lemma_radix_floor_monotone(sizes, j - 1, k - 1);
        assert(radix_floor(sizes, k) >= 1) by (nonlinear_arith)
            requires
                radix_floor(sizes, k) == radix_floor(sizes, k - 1) * sizes[k - 1],
                radix_floor(sizes, k - 1) >= 1,
                sizes[k - 1] >= 1,
        ;
    } else {
        lemma_radix_floor_monotone(sizes, j, k - 1);
        assert(radix_floor(sizes, k) >= radix_floor(sizes, k - 1)) by (nonlinear_arith)
            requires
                radix_floor(sizes, k) == radix_floor(sizes, k - 1) * sizes[k - 1],
                radix_floor(sizes, k - 1) >= 1,
                sizes[k - 1] >= 1,
        ;
    }
}

/// An empty sequence among the factors makes every later weight, and the
/// product itself, zero.
pub proof fn lemma_radix_floor_zero(sizes: Seq<int>, z: int, k: int)
    requires
        0 <= z < k <= sizes.len(),
        sizes[z] == 0,
    ensures
        radix_floor(sizes, k) == 0,
    decreases k,
{
    if k == z + 1 {
        assert(radix_floor(sizes, k) == radix_floor(sizes, k - 1) * sizes[k - 1]);
        assert(radix_floor(sizes, k - 1) * 0 == 0);
    } else {
        lemma_radix_floor_zero(sizes, z, k - 1);
        assert(0 * sizes[k - 1] == 0);
    }
}

/// Product of the entries of `sizes` from position `lo` up to, not
/// including, position `hi`.
pub open spec fn radix_span(sizes: Seq<int>, lo: int, hi: int) -> int
    decreases hi - lo,
{
    if lo >= hi {
        1
    } else {
        sizes[lo] * radix_span(sizes, lo + 1, hi)
    }
}

/// A digit weight is the weight of an earlier digit times the sizes in
/// between.
pub proof fn lemma_radix_floor_split(sizes: Seq<int>, lo: int, hi: int)
    requires
        0 <= lo <= hi <= sizes.len(),
        forall|m: int| 0 <= m < sizes.len() ==> sizes[m] >= 1,
    ensures
        radix_floor(sizes, hi) == radix_floor(sizes, lo) * radix_span(sizes, lo, hi),
        radix_span(sizes, lo, hi) >= 1,
    decreases hi - lo,
{
    if lo < hi {
        lemma_radix_floor_split(sizes, lo + 1, hi);
        let f = radix_floor(sizes, lo);
        let n = sizes[lo];
        let s = radix_span(sizes, lo + 1, hi);
        assert(radix_floor(sizes, lo + 1) == f * n);
        assert((f * n) * s == f * (n * s)) by (nonlinear_arith);
        assert(n * s >= 1) by (nonlinear_arith)
            requires
                n >= 1,
                s >= 1,
        ;
    } else {
        assert(radix_floor(sizes, lo) * 1 == radix_floor(sizes, lo));
    }
}

/// Reducing an index modulo the weight of digit `m` leaves the digits
/// below `m` as they are.
pub proof fn lemma_digit_of_remainder(sizes: Seq<int>, a: int, j: int, m: int)
    requires
        0 <= j < m <= sizes.len(),
        forall|k: int| 0 <= k < sizes.len() ==> sizes[k] >= 1,
        0 <= a,
    ensures
        radix_digit(sizes, a % radix_floor(sizes, m), j) == radix_digit(sizes, a, j),
{
    let f = radix_floor(sizes, j);
    let n = sizes[j];
    let s = radix_span(sizes, j + 1, m);
    let fm = radix_floor(sizes, m);
    lemma_radix_floor_split(sizes, j + 1, m);
    lemma_radix_floor_monotone(sizes, j, m);
    assert(radix_floor(sizes, j + 1) == f * n);
    let q = a / fm;
    let r = a % fm;
    vstd::arithmetic::div_mod::lemma_fundamental_div_mod(a, fm);
    let lift = n * (s * q);
    assert(a == r + lift * f) by (nonlinear_arith)
        requires
            a == fm * q + r,
            fm == (f * n) * s,
            lift == n * (s * q),
    ;
    vstd::arithmetic::div_mod::lemma_hoist_over_denominator(r, lift, f as nat);
    assert(a / f == r / f + lift);
    vstd::arithmetic::div_mod::lemma_mod_multiples_vanish(s * q, r / f, n);
    assert((n * (s * q) + r / f) % n == (r / f) % n);
}

/// Two indices below the weight of digit `m` that agree in every digit
/// below `m` are the same index.
pub proof fn lemma_mixed_radix_injective(sizes: Seq<int>, a: int, b: int, m: int)
    requires
        0 <= m <= sizes.len(),
        forall|k: int| 0 <= k < sizes.len() ==> sizes[k] >= 1,
        0 <= a < radix_floor(sizes, m),
        0 <= b < radix_floor(sizes, m),
        forall|j: int| 0 <= j < m ==> radix_digit(sizes, a, j) == radix_digit(sizes, b, j),
    ensures
        a == b,
    decreases m,
{
    if m > 0 {
        let f = radix_floor(sizes, m - 1);
        let n = sizes[m - 1];
        lemma_radix_floor_monotone(sizes, m - 1, m);
        assert(radix_floor(sizes, m) == f * n);
        let ra = a % f;
        let rb = b % f;
        vstd::arithmetic::div_mod::lemma_fundamental_div_mod(a, f);
        vstd::arithmetic::div_mod::lemma_fundamental_div_mod(b, f);
        vstd::arithmetic::div_mod::lemma_mod_pos_bound(a, f);
        vstd::arithmetic::div_mod::lemma_mod_pos_bound(b, f);
        assert forall|j: int| 0 <= j < m - 1 implies radix_digit(sizes, ra, j) == radix_digit(
            sizes,
            rb,
            j,
        ) by {
            lemma_digit_of_remainder(sizes, a, j, m - 1);
            lemma_digit_of_remainder(sizes, b, j, m - 1);
        }
        lemma_mixed_radix_injective(sizes, ra, rb, m - 1);
        let qa = a / f;
        let qb = b / f;
        assert(0 <= qa < n) by (nonlinear_arith)
            requires
                a == f * qa + ra,
                0 <= ra < f,
                0 <= a < f * n,
                f >= 1,
        ;
        assert(0 <= qb < n) by (nonlinear_arith)
            requires
                b == f * qb + rb,
                0 <= rb < f,
                0 <= b < f * n,
                f >= 1,
        ;
        vstd::arithmetic::div_mod::lemma_small_mod(qa as nat, n as nat);
        vstd::arithmetic::div_mod::lemma_small_mod(qb as nat, n as nat);
        assert(radix_digit(sizes, a, m - 1) == qa);
        assert(radix_digit(sizes, b, m - 1) == qb);
    }
}

/// Every digit of an index names a position of its sequence.
pub proof fn lemma_radix_digit_range(sizes: Seq<int>, i: int, j: int)
    requires
        0 <= j < sizes.len(),
        sizes[j] >= 1,
    ensures
        0 <= radix_digit(sizes, i, j) < sizes[j],
{
    vstd::arithmetic::div_mod::lemma_mod_bound(i / radix_floor(sizes, j), sizes[j]);
}

/// The number of tuples in the product of `vectors`, where it fits a `usize`.
pub fn checked_product_len<T>(vectors: &Vec<Vec<T>>) -> (total: Option<usize>)
    ensures
        match total {
            Some(n) => n == product_len(sizes_of(views(vectors@))),
            None => product_len(sizes_of(views(vectors@))) > usize::MAX,
        },
{
    let ghost sizes = sizes_of(views(vectors@));
    let num_sets: usize = vectors.len();
    let mut z: usize = 0;
    while z < num_sets
        invariant
            z <= num_sets,
            num_sets == vectors@.len(),
            sizes == sizes_of(views(vectors@)),
            forall|m: int| 0 <= m < z ==> sizes[m] >= 1,
        decreases num_sets - z,
    {
        if vectors[z].len() == 0 {
            proof {
                lemma_radix_floor_zero(sizes, z as int, num_sets as int);
            }
            return Some(0);
        }
        z += 1;
    }
    let mut total: usize = 1;
    let mut j: usize = 0;
    while j < num_sets
        invariant
            j <= num_sets,
            num_sets == vectors@.len(),
            sizes == sizes_of(views(vectors@)),
            forall|m: int| 0 <= m < sizes.len() ==> sizes[m] >= 1,
            total == radix_floor(sizes, j as int),
        decreases num_sets - j,
    {
        let n: usize = vectors[j].len();
        proof {
            lemma_radix_floor_monotone(sizes, j as int + 1, num_sets as int);
            assert(radix_floor(sizes, j as int + 1) == total * n);
        }
        match total.checked_mul(n) {
            Some(t) => {
                total = t;
            },
            None => {
                return None;
            },
        }
        j += 1;
    }
    Some(total)
}

/// The cartesian product of `vectors`: every way to pick one element from each
/// sequence, in mixed-radix order with the first sequence varying fastest.
pub fn cartesian_product<T: Copy>(vectors: &Vec<Vec<T>>) -> (product: Vec<Vec<T>>)
    requires
        product_len(sizes_of(views(vectors@))) <= usize::MAX,
    ensures
        product@.len() == product_len(sizes_of(views(vectors@))),
        forall|i: int|
            0 <= i < product@.len() ==> #[trigger] product@[i]@ == product_tuple(views(vectors@), i),
{
    let ghost sizes = sizes_of(views(vectors@));
    let num_sets: usize = vectors.len();
    let num_elements: usize = match checked_product_len(vectors) {
        Some(n) => n,
        None => 0,
    };
    let mut product: Vec<Vec<T>> = Vec::new();
    if num_elements == 0 {
        return product;
    }
    assert forall|m: int| 0 <= m < sizes.len() implies sizes[m] >= 1 by {
        if sizes[m] == 0 {
            lemma_radix_floor_zero(sizes, m, num_sets as int);
        }
    }
    // weights of the mixed-radix digits
    let mut floors: Vec<usize> = Vec::new();
    let mut weight: usize = 1;
    let mut j: usize = 0;
    while j < num_sets
        invariant
            j <= num_sets,
            num_sets == vectors@.len(),
            sizes == sizes_of(views(vectors@)),
            forall|m: int| 0 <= m < sizes.len() ==> sizes[m] >= 1,
            radix_floor(sizes, num_sets as int) <= usize::MAX,
            weight == radix_floor(sizes, j as int),
            floors@.len() == j,
            forall|m: int| 0 <= m < j ==> floors@[m] == radix_floor(sizes, m),
        decreases num_sets - j,
    {
        floors.push(weight);
        proof {
            lemma_radix_floor_monotone(sizes, j as int + 1, num_sets as int);
            assert(radix_floor(sizes, j as int + 1) == weight * vectors@[j as int]@.len());
        }
        weight = weight * vectors[j].len();
        j += 1;
    }
    let mut i: usize = 0;
    while i < num_elements
        invariant
            i <= num_elements,
            num_sets == vectors@.len(),
            sizes == sizes_of(views(vectors@)),
            forall|m: int| 0 <= m < sizes.len() ==> sizes[m] >= 1,
            floors@.len() == num_sets,
            forall|m: int| 0 <= m < num_sets ==> floors@[m] == radix_floor(sizes, m),
            product@.len() == i,
            forall|k: int|
                0 <= k < i ==> #[trigger] product@[k]@ == product_tuple(views(vectors@), k),
        decreases num_elements - i,
    {
        let mut element: Vec<T> = Vec::new();
        let mut j: usize = 0;
        while j < num_sets
            invariant
                j <= num_sets,
                num_sets == vectors@.len(),
                sizes == sizes_of(views(vectors@)),
                forall|m: int| 0 <= m < sizes.len() ==> sizes[m] >= 1,
                floors@.len() == num_sets,
                forall|m: int| 0 <= m < num_sets ==> floors@[m] == radix_floor(sizes, m),
                element@.len() == j,
                forall|m: int|
                    0 <= m < j ==> element@[m] == vectors@[m]@[radix_digit(sizes, i as int, m)],
            decreases num_sets - j,
        {
            proof {
                lemma_radix_floor_monotone(sizes, j as int, j as int);
                assert(sizes[j as int] >= 1);
            }
            let index: usize = (i / floors[j]) % vectors[j].len();
            element.push(vectors[j][index]);
            j += 1;
        }
        assert(element@ =~= product_tuple(views(vectors@), i as int));
        product.push(element);
        i += 1;
    }
    product
}

} // verus!
