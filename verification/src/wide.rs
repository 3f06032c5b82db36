//! Wide numbers: signed counts of units of `10^-15`, like a fixed-point
//! number, but held in 128 bits and reaching to `10^18` on either side of
//! zero. Products, powers and sums on the way to a fixed-point result are
//! taken in wide numbers, so that only the result itself is brought into
//! the fixed-point range.

use crate::fixed::{
    clamp, lemma_round_ratio_by_parts, lemma_round_ratio_exact, lemma_round_ratio_monotone,
    lemma_round_ratio_nearest, round_ratio, round_ratio_wide, Fixed, FIXED_MAX, FIXED_MIN, ONE,
};
use crate::fixed_sqrt::{fx_sqrt_spec, fx_sqrt_wide, is_floor_sqrt};
use vstd::prelude::*;

verus! {

/// The largest wide number: `10^18`, in units of `10^-15`.
pub const WIDE_MAX: i128 = 1_000_000_000_000_000_000_000_000_000_000_000;

/// Whether `v` is a wide number.
pub open spec fn in_wide_range(v: int) -> bool {
    -WIDE_MAX <= v <= WIDE_MAX
}

/// `v` moved to the nearest wide number.
pub open spec fn wide_clamp(v: int) -> int {
    if v > WIDE_MAX {
        WIDE_MAX as int
    } else if v < -WIDE_MAX {
        -WIDE_MAX as int
    } else {
        v
    }
}

/// Product of two wide numbers: the exact product rounded to the nearest
/// unit, and moved into the wide range.
pub open spec fn wide_mul_spec(a: int, b: int) -> int {
    wide_clamp(round_ratio(a * b, ONE as int))
}

/// `a` to the power `n`, by repeated multiplication from one.
pub open spec fn wide_powi_spec(a: int, n: nat) -> int
    decreases n,
{
    if n == 0 {
        ONE as int
    } else {
        wide_mul_spec(wide_powi_spec(a, (n - 1) as nat), a)
    }
}

/// One over the wide number `v`, rounded to the nearest unit; for zero the
/// upper end of the wide range.
pub open spec fn wide_reciprocal_spec(v: int) -> int {
    if v == 0 {
        WIDE_MAX as int
    } else if v > 0 {
        round_ratio(ONE * ONE, v)
    } else {
        -round_ratio(ONE * ONE, -v)
    }
}

/// `a` to the power `n`; for a negative `n`, one over `a` to the power
/// `-n`.
pub open spec fn wide_powi_signed_spec(a: int, n: int) -> int {
    if n >= 0 {
        wide_powi_spec(a, n as nat)
    } else {
        wide_reciprocal_spec(wide_powi_spec(a, (-n) as nat))
    }
}

/// Quotient of two wide numbers as a fixed-point number: the exact quotient
/// rounded to the nearest unit and saturated; for a zero divisor the bound
/// on the side of the dividend.
pub open spec fn wide_div_spec(a: int, b: int) -> int {
    if b == 0 {
        if a > 0 {
            FIXED_MAX as int
        } else if a < 0 {
            FIXED_MIN as int
        } else {
            0
        }
    } else if b > 0 {
        clamp(round_ratio(a * ONE, b))
    } else {
        clamp(round_ratio(-a * ONE, -b))
    }
}

/// Sum of the entries of `s`.
pub open spec fn wide_sum(s: Seq<int>) -> int
    decreases s.len(),
{
    if s.len() == 0 {
        0
    } else {
        wide_sum(s.drop_last()) + s.last()
    }
}

/// The arithmetic mean of the entries of `s`, rounded to the nearest unit;
/// zero for no entries.
pub open spec fn wide_mean_spec(s: Seq<int>) -> int {
    if s.len() == 0 {
        0
    } else {
        round_ratio(wide_sum(s), s.len() as int)
    }
}

/// The entries of `s` as integers.
pub open spec fn as_ints(s: Seq<i128>) -> Seq<int> {
    Seq::new(s.len(), |i: int| s[i] as int)
}

/// Whether every entry of `s` is a wide number.
pub open spec fn all_wide(s: Seq<i128>) -> bool {
    forall|i: int| 0 <= i < s.len() ==> in_wide_range(#[trigger] s[i] as int)
}

/// Rounded division of a whole multiple of the divisor plus a rest is the
/// multiple's factor plus the rounded division of the rest.
pub proof fn lemma_round_ratio_shift(k: int, m: int, d: int)
    requires
        k >= 0,
        m >= 0,
        d > 0,
    ensures
        round_ratio(k * d + m, d) == k + round_ratio(m, d),
{
    let q = (2 * m + d) / (2 * d);
    let r = (2 * m + d) % (2 * d);
    vstd::arithmetic::div_mod::lemma_fundamental_div_mod(2 * m + d, 2 * d);
    vstd::arithmetic::div_mod::lemma_mod_bound(2 * m + d, 2 * d);
    assert(k * d >= 0) by (nonlinear_arith)
        requires
            k >= 0,
            d > 0,
    ;
    assert(2 * (k * d + m) + d == (k + q) * (2 * d) + r) by (nonlinear_arith)
        requires
            2 * m + d == (2 * d) * q + r,
    ;
    vstd::arithmetic::div_mod::lemma_fundamental_div_mod_converse(
        2 * (k * d + m) + d,
        2 * d,
        k + q,
        r,
    );
}

/// The magnitude of a wide number.
pub fn wide_magnitude(a: i128) -> (m: u128)
    requires
        in_wide_range(a as int),
    ensures
        m == (if a < 0 { -(a as int) } else { a as int }),
        m <= WIDE_MAX,
{
    if a < 0 {
        (-a) as u128
    } else {
        a as u128
    }
}

/// Product of the magnitudes `p` and `q` of two wide numbers, rounded to
/// the nearest unit and cut at the end of the wide range.
fn wide_mul_magnitude(p: u128, q: u128) -> (m: u128)
    requires
        p <= WIDE_MAX,
        q <= WIDE_MAX,
    ensures
        m == wide_clamp(round_ratio(p * q, ONE as int)),
        m <= WIDE_MAX,
{
    let one: u128 = ONE as u128;
    let limit: u128 = WIDE_MAX as u128;
    let ph: u128 = p / one;
    let pl: u128 = p % one;
    let qh: u128 = q / one;
    let ql: u128 = q % one;
    proof {
        vstd::arithmetic::div_mod::lemma_fundamental_div_mod(p as int, ONE as int);
        vstd::arithmetic::div_mod::lemma_fundamental_div_mod(q as int, ONE as int);
        lemma_round_ratio_nearest(p * q, ONE as int);
        assert(p * q >= 0) by (nonlinear_arith)
            requires
                p >= 0,
                q >= 0,
        ;
    }
    if qh > 0 && p > limit / qh {
        proof {
            vstd::arithmetic::div_mod::lemma_fundamental_div_mod(limit as int, qh as int);
            vstd::arithmetic::div_mod::lemma_mod_bound(limit as int, qh as int);
            let whole = limit as int / qh as int;
            assert(p * qh > limit) by (nonlinear_arith)
                requires
                    p >= whole + 1,
                    limit == qh * whole + limit % qh,
                    limit % qh < qh,
                    qh > 0,
            ;
            assert(p * q >= (p * qh) * ONE) by (nonlinear_arith)
                requires
                    q == ONE * qh + ql,
                    ql >= 0,
                    p >= 0,
            ;
            lemma_round_ratio_exact(p * qh, ONE as int);
            lemma_round_ratio_monotone((p * qh) * ONE, p * q, ONE as int);
        }
        return limit;
    }
    proof {
        if qh > 0 {
            vstd::arithmetic::div_mod::lemma_fundamental_div_mod(limit as int, qh as int);
            vstd::arithmetic::div_mod::lemma_mod_bound(limit as int, qh as int);
            let whole = limit as int / qh as int;
            assert(p * qh <= limit) by (nonlinear_arith)
                requires
                    0 <= p <= whole,
                    limit == qh * whole + limit % qh,
                    limit % qh >= 0,
                    qh > 0,
            ;
        } else {
            assert(p * qh == 0) by (nonlinear_arith)
                requires
                    qh == 0,
            ;
        }
        assert(ph * ql <= 1_000_000_000_000_000_000 * 1_000_000_000_000_000) by (nonlinear_arith)
            requires
                0 <= ph <= 1_000_000_000_000_000_000,
                0 <= ql <= 1_000_000_000_000_000,
        ;
        assert(pl * ql <= 1_000_000_000_000_000 * 1_000_000_000_000_000) by (nonlinear_arith)
            requires
                0 <= pl <= 1_000_000_000_000_000,
                0 <= ql <= 1_000_000_000_000_000,
        ;
    }
    let first: u128 = p * qh;
    let second: u128 = ph * ql;
    let rest: u128 = pl * ql;
    let third: u128 = round_ratio_wide(rest, one);
    proof {
        lemma_round_ratio_by_parts(rest as int, ONE as int);
        assert(p * q == (first + second) * ONE + rest) by (nonlinear_arith)
            requires
                p == ONE * ph + pl,
                q == ONE * qh + ql,
                first == p * qh,
                second == ph * ql,
                rest == pl * ql,
        ;
        lemma_round_ratio_shift((first + second) as int, rest as int, ONE as int);
    }
    let total: u128 = first + second + third;
    if total > limit {
        limit
    } else {
        total
    }
}

/// The wide number with the given sign and magnitude.
fn wide_signed(negative: bool, mag: u128) -> (r: i128)
    requires
        mag <= WIDE_MAX,
    ensures
        r == (if negative { -(mag as int) } else { mag as int }),
        in_wide_range(r as int),
{
    if negative {
        -(mag as i128)
    } else {
        mag as i128
    }
}

/// Multiplies two wide numbers, rounding to the nearest unit and stopping
/// at the ends of the wide range.
pub fn wide_mul(a: i128, b: i128) -> (r: i128)
    requires
        in_wide_range(a as int),
        in_wide_range(b as int),
    ensures
        r == wide_mul_spec(a as int, b as int),
        in_wide_range(r as int),
        (a >= 0 && b >= 0) || (a <= 0 && b <= 0) ==> r >= 0,
{
    let negative: bool = (a < 0) != (b < 0);
    let p: u128 = wide_magnitude(a);
    let q: u128 = wide_magnitude(b);
    let mag: u128 = wide_mul_magnitude(p, q);
    proof {
        lemma_round_ratio_nearest(p * q, ONE as int);
        assert(p * q >= 0) by (nonlinear_arith)
            requires
                p >= 0,
                q >= 0,
        ;
        if a == 0 || b == 0 {
            assert(p * q == 0) by (nonlinear_arith)
                requires
                    p == 0 || q == 0,
            ;
            assert(round_ratio(0, ONE as int) == 0);
        }
        if negative {
            assert(a * b == -(p * q)) by (nonlinear_arith)
                requires
                    (a == p && b == -q) || (a == -p && b == q),
            ;
        } else {
            assert(a * b == p * q) by (nonlinear_arith)
                requires
                    (a == p && b == q) || (a == -p && b == -q),
            ;
        }
    }
    wide_signed(negative, mag)
}

/// Raises the wide number `a` to the power `n`.
pub fn wide_powi(a: i128, n: u32) -> (r: i128)
    requires
        in_wide_range(a as int),
    ensures
        r == wide_powi_spec(a as int, n as nat),
        in_wide_range(r as int),
{
    let mut r: i128 = ONE as i128;
    let mut i: u32 = 0;
    while i < n
        invariant
            i <= n,
            in_wide_range(a as int),
            in_wide_range(r as int),
            r == wide_powi_spec(a as int, i as nat),
        decreases n - i,
    {
        r = wide_mul(r, a);
        i += 1;
    }
    r
}

/// The sum of wide numbers lies within as many times the wide range as
/// there are of them.
pub proof fn lemma_wide_sum_bound(s: Seq<int>)
    requires
        forall|i: int| 0 <= i < s.len() ==> in_wide_range(#[trigger] s[i]),
    ensures
        -(s.len() * WIDE_MAX) <= wide_sum(s) <= s.len() * WIDE_MAX,
    decreases s.len(),
{
    if s.len() > 0 {
        let rest = s.drop_last();
        assert forall|i: int| 0 <= i < rest.len() implies in_wide_range(#[trigger] rest[i]) by {
            assert(rest[i] == s[i]);
        }
        lemma_wide_sum_bound(rest);
        assert(in_wide_range(s[s.len() - 1]));
        assert(s.len() * WIDE_MAX == rest.len() * WIDE_MAX + WIDE_MAX) by (nonlinear_arith)
            requires
                s.len() == rest.len() + 1,
        ;
    } else {
        assert(s.len() * WIDE_MAX == 0) by (nonlinear_arith)
            requires
                s.len() == 0,
        ;
    }
}

/// The largest modulus by which a sum is split.
pub const SPLIT_MAX: u128 = 0x1_0000_0000_0000_0000;

/// Splits the wide number `t` by the modulus `m`: the quotient, rounded
/// down, and the remainder.
fn floor_parts(t: i128, m: u128) -> (r: (i128, u128))
    requires
        in_wide_range(t as int),
        0 < m <= SPLIT_MAX,
    ensures
        r.0 * m + r.1 == t,
        r.1 < m,
        -WIDE_MAX - 1 <= r.0 <= WIDE_MAX,
{
    let mag: u128 = wide_magnitude(t);
    let whole: u128 = mag / m;
    let rest: u128 = mag % m;
    proof {
        vstd::arithmetic::div_mod::lemma_fundamental_div_mod(mag as int, m as int);
        vstd::arithmetic::div_mod::lemma_mod_bound(mag as int, m as int);
        vstd::arithmetic::div_mod::lemma_div_pos_is_pos(mag as int, m as int);
        assert(whole <= mag) by (nonlinear_arith)
            requires
                mag == m * whole + rest,
                rest >= 0,
                whole >= 0,
                m >= 1,
        ;
        assert(m * whole == whole * m) by (nonlinear_arith);
    }
    if t >= 0 {
        (whole as i128, rest)
    } else if rest == 0 {
        proof {
            assert((-(whole as int)) * m == -(whole * m)) by (nonlinear_arith);
        }
        (-(whole as i128), 0)
    } else {
        proof {
            assert((-(whole as int) - 1) * m == -(whole * m) - m) by (nonlinear_arith);
        }
        (-(whole as i128) - 1, m - rest)
    }
}

/// Splits the sum of `terms` by the modulus `m`, which is at least their
/// number: the quotient, rounded down, and the remainder. The sum itself
/// may not fit 128 bits; the quotient does.
fn wide_sum_parts(terms: &Vec<i128>, m: u128) -> (r: (i128, u128))
    requires
        all_wide(terms@),
        0 < m <= SPLIT_MAX,
        terms@.len() <= m,
    ensures
        r.0 * m + r.1 == wide_sum(as_ints(terms@)),
        r.1 < m,
        -WIDE_MAX - 1 <= r.0 <= WIDE_MAX,
{
    let n: usize = terms.len();
    let ghost values = as_ints(terms@);
    let mut whole: i128 = 0;
    let mut rest: u128 = 0;
    let mut k: usize = 0;
    proof {
        assert(values.take(0) =~= Seq::<int>::empty());
        assert(0 * m == 0) by (nonlinear_arith);
    }
    while k < n
        invariant
            k <= n,
            n == terms@.len(),
            n <= m,
            0 < m <= SPLIT_MAX,
            all_wide(terms@),
            values == as_ints(terms@),
            whole * m + rest == wide_sum(values.take(k as int)),
            rest < m,
            -WIDE_MAX - 1 <= whole <= WIDE_MAX,
        decreases n - k,
    {
        let parts: (i128, u128) = floor_parts(terms[k], m);
        let mut next_whole: i128 = whole + parts.0;
        let mut next_rest: u128 = rest + parts.1;
        if next_rest >= m {
            next_rest = next_rest - m;
            next_whole = next_whole + 1;
        }
        proof {
            let before = values.take(k as int);
            let after = values.take(k as int + 1);
            assert(after.drop_last() =~= before);
            assert(after.last() == terms@[k as int] as int);
            assert(next_whole * m + next_rest == wide_sum(after)) by (nonlinear_arith)
                requires
                    whole * m + rest == wide_sum(before),
                    parts.0 * m + parts.1 == terms@[k as int],
                    wide_sum(after) == wide_sum(before) + terms@[k as int],
                    (next_whole == whole + parts.0 && next_rest == rest + parts.1) || (next_whole
                        == whole + parts.0 + 1 && next_rest == rest + parts.1 - m),
            ;
            assert forall|i: int| 0 <= i < after.len() implies in_wide_range(
                #[trigger] after[i],
            ) by {
                assert(after[i] == terms@[i] as int);
            }
            lemma_wide_sum_bound(after);
            let total = wide_sum(after);
            assert(after.len() * WIDE_MAX <= m * WIDE_MAX) by (nonlinear_arith)
                requires
                    0 <= after.len() <= m,
            ;
            assert(-WIDE_MAX - 1 <= next_whole <= WIDE_MAX) by (nonlinear_arith)
                requires
                    next_whole * m + next_rest == total,
                    0 <= next_rest < m,
                    -(m * WIDE_MAX) <= total <= m * WIDE_MAX,
                    m > 0,
            ;
        }
        whole = next_whole;
        rest = next_rest;
        k += 1;
    }
    proof {
        assert(values.take(n as int) =~= values);
    }
    (whole, rest)
}

/// Rounded division of a dividend given by its quotient, rounded down, and
/// its remainder: for a dividend that is not negative, one more than the
/// quotient where twice the remainder reaches the divisor; for a negative
/// one, where it exceeds the divisor.
pub proof fn lemma_round_ratio_of_parts(whole: int, rest: int, d: int)
    requires
        d > 0,
        0 <= rest < d,
    ensures
        round_ratio(whole * d + rest, d) == whole + (if (whole >= 0 && 2 * rest >= d) || (whole < 0
            && 2 * rest > d) {
            1int
        } else {
            0int
        }),
{
    let total = whole * d + rest;
    if whole >= 0 {
        assert(whole * d >= 0) by (nonlinear_arith)
            requires
                whole >= 0,
                d > 0,
        ;
        assert(total == d * whole + rest) by (nonlinear_arith)
            requires
                total == whole * d + rest,
        ;
        vstd::arithmetic::div_mod::lemma_fundamental_div_mod_converse(total, d, whole, rest);
        lemma_round_ratio_by_parts(total, d);
    } else {
        assert(whole * d <= -d) by (nonlinear_arith)
            requires
                whole <= -1,
                d > 0,
        ;
        if rest == 0 {
            assert(-total == d * (-whole)) by (nonlinear_arith)
                requires
                    total == whole * d,
            ;
            vstd::arithmetic::div_mod::lemma_fundamental_div_mod_converse(-total, d, -whole, 0);
        } else {
            assert(-total == d * (-whole - 1) + (d - rest)) by (nonlinear_arith)
                requires
                    total == whole * d + rest,
            ;
            vstd::arithmetic::div_mod::lemma_fundamental_div_mod_converse(
                -total,
                d,
                -whole - 1,
                d - rest,
            );
        }
        lemma_round_ratio_by_parts(-total, d);
    }
}

/// The arithmetic mean of `terms`, rounded to the nearest unit; zero for no
/// terms. The sum is exact however many terms there are.
pub fn wide_mean(terms: &Vec<i128>) -> (r: i128)
    requires
        all_wide(terms@),
    ensures
        r == wide_mean_spec(as_ints(terms@)),
        in_wide_range(r as int),
{
    let n: usize = terms.len();
    if n == 0 {
        return 0;
    }
    let count: u128 = n as u128;
    let parts: (i128, u128) = wide_sum_parts(terms, count);
    let up: bool = if parts.0 >= 0 {
        parts.1 >= count - parts.1
    } else {
        parts.1 > count - parts.1
    };
    proof {
        let values = as_ints(terms@);
        lemma_round_ratio_of_parts(parts.0 as int, parts.1 as int, count as int);
        assert forall|i: int| 0 <= i < values.len() implies in_wide_range(#[trigger] values[i]) by {
            assert(values[i] == terms@[i] as int);
        }
        lemma_wide_sum_bound(values);
        assert(values.len() * WIDE_MAX == WIDE_MAX * count) by (nonlinear_arith)
            requires
                values.len() == count,
        ;
        lemma_round_ratio_exact(WIDE_MAX as int, count as int);
        lemma_round_ratio_exact(-WIDE_MAX as int, count as int);
        assert((-WIDE_MAX) * count == -(WIDE_MAX * count)) by (nonlinear_arith);
        lemma_round_ratio_monotone(wide_sum(values), WIDE_MAX * count, count as int);
        lemma_round_ratio_monotone((-WIDE_MAX) * count, wide_sum(values), count as int);
    }
    if up {
        parts.0 + 1
    } else {
        parts.0
    }
}

/// The sum of `terms` as a fixed-point number, saturated. The sum is exact
/// however many terms there are.
pub fn wide_total(terms: &Vec<i128>) -> (r: Fixed)
    requires
        all_wide(terms@),
    ensures
        r == clamp(wide_sum(as_ints(terms@))),
{
    let n: usize = terms.len();
    assert(n <= 0xffff_ffff_ffff_ffff);
    let parts: (i128, u128) = wide_sum_parts(terms, SPLIT_MAX);
    let whole: i128 = parts.0;
    let rest: u128 = parts.1;
    proof {
        assert(whole >= 1 ==> whole * SPLIT_MAX >= SPLIT_MAX) by (nonlinear_arith);
        assert(whole <= -2 ==> whole * SPLIT_MAX <= -2 * SPLIT_MAX) by (nonlinear_arith);
        assert(whole == 0 ==> whole * SPLIT_MAX == 0) by (nonlinear_arith);
        assert(whole == -1 ==> whole * SPLIT_MAX == -SPLIT_MAX) by (nonlinear_arith);
    }
    if whole >= 1 {
        FIXED_MAX
    } else if whole <= -2 {
        FIXED_MIN
    } else if whole == 0 {
        if rest > 0x7fff_ffff_ffff_ffff {
            FIXED_MAX
        } else {
            rest as i64
        }
    } else {
        if rest < 0x8000_0000_0000_0000 {
            FIXED_MIN
        } else {
            let low: i128 = rest as i128 - 0x1_0000_0000_0000_0000;
            low as i64
        }
    }
}

/// Every number that is not negative has an integer square root.
pub proof fn lemma_floor_sqrt_exists(n: nat) -> (r: int)
    ensures
        is_floor_sqrt(n as int, r),
    decreases n,
{
    if n == 0 {
        assert(is_floor_sqrt(0, 0)) by (nonlinear_arith);
        0
    } else {
        let before = lemma_floor_sqrt_exists((n - 1) as nat);
        let next = before + 1;
        if next * next <= n {
            assert(is_floor_sqrt(n as int, next)) by (nonlinear_arith)
                requires
                    before >= 0,
                    next == before + 1,
                    next * next <= n,
                    n - 1 < (before + 1) * (before + 1),
            ;
            next
        } else {
            assert(is_floor_sqrt(n as int, before)) by (nonlinear_arith)
                requires
                    before >= 0,
                    next == before + 1,
                    next * next > n,
                    before * before <= n - 1,
            ;
            before
        }
    }
}

/// The square root of a wide number of at least `10^8` lies beyond the
/// fixed-point range.
pub proof fn lemma_sqrt_of_large(a: int)
    requires
        a >= 100_000_000_000_000_000_000_000,
    ensures
        fx_sqrt_spec(a) > FIXED_MAX,
{
    assert(a * ONE >= 100_000_000_000_000_000_000_000_000_000_000_000_000) by (nonlinear_arith)
        requires
            a >= 100_000_000_000_000_000_000_000,
            ONE == 1_000_000_000_000_000,
    ;
    let witness = lemma_floor_sqrt_exists((a * ONE) as nat);
    let r = fx_sqrt_spec(a);
    assert(is_floor_sqrt(a * ONE, r));
    if r <= FIXED_MAX {
        assert((r + 1) * (r + 1) <= 0x8000_0000_0000_0000 * 0x8000_0000_0000_0000)
            by (nonlinear_arith)
            requires
                0 <= r + 1 <= 0x8000_0000_0000_0000,
        ;
    }
}

/// The square root of the sum of `terms` as a fixed-point number,
/// saturated; zero for a negative sum.
pub fn wide_root_of_total(terms: &Vec<i128>) -> (r: Fixed)
    requires
        all_wide(terms@),
    ensures
        r == clamp(fx_sqrt_spec(wide_sum(as_ints(terms@)))),
{
    let n: usize = terms.len();
    assert(n <= 0xffff_ffff_ffff_ffff);
    let parts: (i128, u128) = wide_sum_parts(terms, SPLIT_MAX);
    let whole: i128 = parts.0;
    let rest: u128 = parts.1;
    let ghost total = wide_sum(as_ints(terms@));
    proof {
        assert(whole >= 5422 ==> whole * SPLIT_MAX >= 5422 * SPLIT_MAX) by (nonlinear_arith);
        assert(0 <= whole < 5422 ==> 0 <= whole * SPLIT_MAX <= 5421 * SPLIT_MAX)
            by (nonlinear_arith);
        assert(whole <= -1 ==> whole * SPLIT_MAX <= -SPLIT_MAX) by (nonlinear_arith);
    }
    if whole >= 5422 {
        proof {
            lemma_sqrt_of_large(total);
        }
        FIXED_MAX
    } else if whole <= -1 {
        0
    } else {
        wide_root(whole as u128 * SPLIT_MAX + rest)
    }
}

/// The square root of the wide number `a`, which is not negative, as a
/// fixed-point number, saturated.
pub fn wide_root(a: u128) -> (r: Fixed)
    ensures
        r == clamp(fx_sqrt_spec(a as int)),
{
    if a >= 100_000_000_000_000_000_000_000 {
        proof {
            lemma_sqrt_of_large(a as int);
        }
        FIXED_MAX
    } else {
        let root: u128 = fx_sqrt_wide(a);
        if root > 0x7fff_ffff_ffff_ffff {
            FIXED_MAX
        } else {
            root as i64
        }
    }
}

/// One step of a long division by `q`: the next five decimal digits of the
/// quotient, and what is left of the remainder `rest`.
fn long_division_step(rest: u128, q: u128) -> (r: (u128, u128))
    requires
        rest < q <= WIDE_MAX,
    ensures
        rest * 100_000 == r.0 * q + r.1,
        r.1 < q,
        r.0 < 100_000,
{
    let scaled: u128 = rest * 100_000;
    let digits: u128 = scaled / q;
    let left: u128 = scaled % q;
    proof {
        vstd::arithmetic::div_mod::lemma_fundamental_div_mod(scaled as int, q as int);
        vstd::arithmetic::div_mod::lemma_mod_bound(scaled as int, q as int);
        vstd::arithmetic::div_mod::lemma_div_pos_is_pos(scaled as int, q as int);
        assert(digits < 100_000) by (nonlinear_arith)
            requires
                scaled == q * digits + left,
                scaled == rest * 100_000,
                rest < q,
                left >= 0,
                digits >= 0,
        ;
        assert(q * digits == digits * q) by (nonlinear_arith);
    }
    (digits, left)
}

/// Divides the wide number `a` by the wide number `b`; the quotient is a
/// fixed-point number, saturated.
pub fn wide_div(a: i128, b: i128) -> (r: Fixed)
    requires
        in_wide_range(a as int),
        in_wide_range(b as int),
    ensures
        r == wide_div_spec(a as int, b as int),
{
    let negative: bool = (a < 0) != (b < 0);
    let p: u128 = wide_magnitude(a);
    let q: u128 = wide_magnitude(b);
    if q == 0 {
        return if a > 0 {
            FIXED_MAX
        } else if a < 0 {
            FIXED_MIN
        } else {
            0
        };
    }
    let ghost dividend: int = if b > 0 {
        a * ONE
    } else {
        -a * ONE
    };
    proof {
        assert(dividend == (if negative { -(p * ONE) } else { p * ONE })) by (nonlinear_arith)
            requires
                dividend == (if b > 0 { a * ONE } else { -a * ONE }),
                b != 0,
                negative == ((a < 0) != (b < 0)),
                p == (if a < 0 { -(a as int) } else { a as int }),
        ;
        lemma_round_ratio_nearest(p * ONE, q as int);
        assert(p * ONE >= 0) by (nonlinear_arith)
            requires
                p >= 0,
        ;
    }
    let whole: u128 = p / q;
    let first: u128 = p % q;
    proof {
        vstd::arithmetic::div_mod::lemma_fundamental_div_mod(p as int, q as int);
        vstd::arithmetic::div_mod::lemma_mod_bound(p as int, q as int);
        vstd::arithmetic::div_mod::lemma_div_pos_is_pos(p as int, q as int);
        assert(q * whole == whole * q) by (nonlinear_arith);
    }
    if whole >= 9224 {
        proof {
            assert(p * ONE >= (9224 * ONE) * q) by (nonlinear_arith)
                requires
                    p == whole * q + first,
                    whole >= 9224,
                    first >= 0,
                    q > 0,
            ;
            lemma_round_ratio_exact(9224 * ONE, q as int);
            lemma_round_ratio_monotone((9224 * ONE) * q, p * ONE, q as int);
        }
        return if negative {
            FIXED_MIN
        } else {
            FIXED_MAX
        };
    }
    let high: (u128, u128) = long_division_step(first, q);
    let middle: (u128, u128) = long_division_step(high.1, q);
    let low: (u128, u128) = long_division_step(middle.1, q);
    let quotient: u128 = ((whole * 100_000 + high.0) * 100_000 + middle.0) * 100_000 + low.0;
    let rest: u128 = low.1;
    proof {
        assert(p * 100_000 == (whole * 100_000 + high.0) * q + high.1) by (nonlinear_arith)
            requires
                p == whole * q + first,
                first * 100_000 == high.0 * q + high.1,
        ;
        assert(p * 100_000 * 100_000 == ((whole * 100_000 + high.0) * 100_000 + middle.0) * q
            + middle.1) by (nonlinear_arith)
            requires
                p * 100_000 == (whole * 100_000 + high.0) * q + high.1,
                high.1 * 100_000 == middle.0 * q + middle.1,
        ;
        assert(p * 100_000 * 100_000 * 100_000 == quotient * q + rest) by (nonlinear_arith)
            requires
                p * 100_000 * 100_000 == ((whole * 100_000 + high.0) * 100_000 + middle.0) * q
                    + middle.1,
                middle.1 * 100_000 == low.0 * q + low.1,
                quotient == ((whole * 100_000 + high.0) * 100_000 + middle.0) * 100_000 + low.0,
                rest == low.1,
        ;
        assert(p * 100_000 * 100_000 * 100_000 == p * ONE) by (nonlinear_arith)
            requires
                ONE == 1_000_000_000_000_000,
        ;
        assert(p * ONE == q * quotient + rest) by (nonlinear_arith)
            requires
                p * ONE == quotient * q + rest,
        ;
        vstd::arithmetic::div_mod::lemma_fundamental_div_mod_converse(
            p * ONE,
            q as int,
            quotient as int,
            rest as int,
        );
        lemma_round_ratio_by_parts(p * ONE, q as int);
    }
    let mag: u128 = if rest >= q - rest {
        quotient + 1
    } else {
        quotient
    };
    if negative {
        if mag >= 0x8000_0000_0000_0000 {
            FIXED_MIN
        } else {
            -(mag as i64)
        }
    } else {
        if mag > 0x7fff_ffff_ffff_ffff {
            FIXED_MAX
        } else {
            mag as i64
        }
    }
}

/// One over the wide number `v`.
pub fn wide_reciprocal(v: i128) -> (r: i128)
    requires
        in_wide_range(v as int),
    ensures
        r == wide_reciprocal_spec(v as int),
        in_wide_range(r as int),
{
    if v == 0 {
        return WIDE_MAX;
    }
    let mag: u128 = wide_magnitude(v);
    let square: u128 = 1_000_000_000_000_000_000_000_000_000_000;
    assert(ONE * ONE == 1_000_000_000_000_000_000_000_000_000_000) by (nonlinear_arith)
        requires
            ONE == 1_000_000_000_000_000,
    ;
    let quotient: u128 = round_ratio_wide(square, mag);
    proof {
        lemma_round_ratio_by_parts(square as int, mag as int);
    }
    wide_signed(v < 0, quotient)
}

/// Raises the wide number `a` to the power `n`, which may be negative.
pub fn wide_powi_signed(a: i128, n: i32) -> (r: i128)
    requires
        in_wide_range(a as int),
    ensures
        r == wide_powi_signed_spec(a as int, n as int),
        in_wide_range(r as int),
{
    if n >= 0 {
        wide_powi(a, n as u32)
    } else {
        let positive: u32 = (-(n as i64)) as u32;
        wide_reciprocal(wide_powi(a, positive))
    }
}

} // verus!
