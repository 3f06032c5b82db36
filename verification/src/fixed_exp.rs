//! Exponential and power of fixed-point numbers.
//!
//! The argument is split into a whole multiple of the logarithm of two and a
//! remainder in `[0, ln 2)`. The exponential of the remainder is the Taylor
//! series to eighteen terms, evaluated innermost term first in units of
//! `2^-60`; the multiple becomes a power of two.

use crate::fixed::{
    clamp, fx_mul, fx_mul_spec, round_ratio, round_ratio_saturating, round_ratio_wide, Fixed,
    FIXED_MAX, ONE,
};
use crate::wide::{wide_clamp, WIDE_MAX};
use crate::fixed_log::{fx_ln, fx_ln_spec, fx_ln_wide, fx_ln_wide_spec, WORK_ONE};
use vstd::arithmetic::div_mod::lemma_fundamental_div_mod_converse;
use vstd::arithmetic::power2::{
    lemma2_to64, lemma2_to64_rest, lemma_pow2_strictly_increases, lemma_pow2_unfold, pow2,
};
use vstd::prelude::*;

verus! {

/// Index of the last term of the Taylor series.
pub const EXP_TERMS: u32 = 18;

/// One, in the units of `2^-60` that the series is summed in.
pub const BINARY_ONE: u128 = 0x1000_0000_0000_0000;

/// The natural logarithm of two, in units of `10^-18`.
pub const LN_2_WORK: i128 = 693_147_180_559_945_309;

/// From this argument on the exponential exceeds the range and saturates.
pub const EXP_MAX_ARG: i64 = 9_200_000_000_000_000;

/// From this argument on the wide exponential saturates.
pub const EXP_WIDE_MAX_ARG: i64 = 41_000_000_000_000_000;

/// Down to this argument and below the exponential rounds to zero.
pub const EXP_MIN_ARG: i64 = -36_000_000_000_000_000;

/// The largest remainder, in units of `2^-60`, that the series is applied
/// to.
pub const EXP_REMAINDER_MAX: u128 = 799_144_290_325_165_978;

/// One over the factorial of `i`, in units of `2^-60`, rounded to the
/// nearest unit; the index is capped at [`EXP_TERMS`].
pub open spec fn exp_coefficient(i: nat) -> int {
    if i == 0 {
        1152921504606846976
    } else if i == 1 {
        1152921504606846976
    } else if i == 2 {
        576460752303423488
    } else if i == 3 {
        192153584101141163
    } else if i == 4 {
        48038396025285291
    } else if i == 5 {
        9607679205057058
    } else if i == 6 {
        1601279867509510
    } else if i == 7 {
        228754266787073
    } else if i == 8 {
        28594283348384
    } else if i == 9 {
        3177142594265
    } else if i == 10 {
        317714259426
    } else if i == 11 {
        28883114493
    } else if i == 12 {
        2406926208
    } else if i == 13 {
        185148170
    } else if i == 14 {
        13224869
    } else if i == 15 {
        881658
    } else if i == 16 {
        55104
    } else if i == 17 {
        3241
    } else {
        180
    }
}

/// The tail of the Taylor series of the exponential of `r`, from term `i`
/// on, in nested form: `c(i) + r * (c(i+1) + r * (...))`, each product
/// rounded down to a unit of `2^-60`.
pub open spec fn exp_series(r: int, i: nat) -> int
    decreases EXP_TERMS - i,
{
    if i >= EXP_TERMS {
        exp_coefficient(EXP_TERMS as nat)
    } else {
        exp_coefficient(i) + r * exp_series(r, i + 1) / (BINARY_ONE as int)
    }
}

/// The exponential of the fixed-point number `a`.
pub open spec fn fx_exp_spec(a: int) -> int {
    if a >= EXP_MAX_ARG {
        FIXED_MAX as int
    } else if a <= EXP_MIN_ARG {
        0
    } else {
        let scaled = a * 1000;
        let k = scaled / (LN_2_WORK as int);
        let r = scaled % (LN_2_WORK as int);
        let s = exp_series(r * BINARY_ONE / (WORK_ONE as int), 0);
        if k >= 0 {
            clamp(round_ratio(s * ONE * pow2(k as nat), BINARY_ONE as int))
        } else {
            clamp(round_ratio(s * ONE, BINARY_ONE * pow2((-k) as nat)))
        }
    }
}

/// The exponential of the fixed-point number `a` as a wide number: the
/// same value where it lies in the fixed-point range, and the value itself,
/// up to the end of the wide range, where it lies beyond.
pub open spec fn fx_exp_wide_spec(a: int) -> int {
    if a >= EXP_WIDE_MAX_ARG {
        WIDE_MAX as int
    } else if a <= EXP_MIN_ARG {
        0
    } else {
        let scaled = a * 1000;
        let k = scaled / (LN_2_WORK as int);
        let r = scaled % (LN_2_WORK as int);
        let s = exp_series(r * BINARY_ONE / (WORK_ONE as int), 0);
        if k >= 0 {
            wide_clamp(round_ratio(s * ONE * pow2(k as nat), BINARY_ONE as int))
        } else {
            wide_clamp(round_ratio(s * ONE, BINARY_ONE * pow2((-k) as nat)))
        }
    }
}

/// The wide number `a` raised to the power `b`, as a wide number, for a
/// positive `a`; zero for `a <= 0`.
pub open spec fn wide_pow_spec(a: int, b: int) -> int {
    if a <= 0 {
        0
    } else {
        fx_exp_wide_spec(fx_mul_spec(b, fx_ln_wide_spec(a)))
    }
}

/// `a` raised to the power `b`, for a positive `a`, as the exponential of
/// `b` times the logarithm of `a`; zero for `a <= 0`.
pub open spec fn fx_pow_spec(a: int, b: int) -> int {
    if a <= 0 {
        0
    } else {
        fx_exp_spec(fx_mul_spec(b, fx_ln_spec(a)))
    }
}

/// Each coefficient, times four times the largest remainder, is at most
/// three times the coefficient before it.
pub proof fn lemma_coefficient_ratio(i: nat)
    requires
        i < EXP_TERMS,
    ensures
        EXP_REMAINDER_MAX * (4 * exp_coefficient(i + 1)) <= 3 * exp_coefficient(i) * BINARY_ONE,
        0 < exp_coefficient(i + 1) <= exp_coefficient(i) <= BINARY_ONE,
{
    let c = exp_coefficient(i + 1);
    let b = exp_coefficient(i);
    assert(799_144_290_325_165_978 * (4 * c) <= 3 * b * 0x1000_0000_0000_0000)
        by (nonlinear_arith)
        requires
            (b == 1152921504606846976 && c == 1152921504606846976) || (b == 1152921504606846976
                && c == 576460752303423488) || (b == 576460752303423488 && c
                == 192153584101141163) || (b == 192153584101141163 && c == 48038396025285291) || (b
                == 48038396025285291 && c == 9607679205057058) || (b == 9607679205057058 && c
                == 1601279867509510) || (b == 1601279867509510 && c == 228754266787073) || (b
                == 228754266787073 && c == 28594283348384) || (b == 28594283348384 && c
                == 3177142594265) || (b == 3177142594265 && c == 317714259426) || (b
                == 317714259426 && c == 28883114493) || (b == 28883114493 && c == 2406926208) || (b
                == 2406926208 && c == 185148170) || (b == 185148170 && c == 13224869) || (b
                == 13224869 && c == 881658) || (b == 881658 && c == 55104) || (b == 55104 && c
                == 3241) || (b == 3241 && c == 180),
    ;
}

/// For a remainder below the logarithm of two every tail of the series lies
/// between its leading coefficient and four times that.
pub proof fn lemma_exp_series_bounds(r: int, i: nat)
    requires
        0 <= r <= EXP_REMAINDER_MAX,
        i <= EXP_TERMS,
    ensures
        exp_coefficient(i) <= exp_series(r, i) <= 4 * exp_coefficient(i),
        0 < exp_coefficient(i) <= BINARY_ONE,
    decreases EXP_TERMS - i,
{
    if i < EXP_TERMS {
        lemma_exp_series_bounds(r, i + 1);
        lemma_coefficient_ratio(i);
        let s = exp_series(r, i + 1);
        let c = exp_coefficient(i + 1);
        let b = exp_coefficient(i);
        assert(0 <= r * s <= EXP_REMAINDER_MAX * (4 * c)) by (nonlinear_arith)
            requires
                0 <= r <= EXP_REMAINDER_MAX,
                0 <= s <= 4 * c,
        ;
        assert(0 <= r * s / (BINARY_ONE as int) <= 3 * b) by (nonlinear_arith)
            requires
                0 <= r * s <= 3 * b * BINARY_ONE,
                BINARY_ONE == 0x1000_0000_0000_0000,
        ;
    }
}

/// The series of a zero remainder is its leading coefficient.
pub proof fn lemma_exp_series_of_zero(i: nat)
    requires
        i <= EXP_TERMS,
    ensures
        exp_series(0, i) == exp_coefficient(i),
    decreases EXP_TERMS - i,
{
    if i < EXP_TERMS {
        lemma_exp_series_of_zero(i + 1);
        assert(0 * exp_series(0, i + 1) == 0);
    }
}

/// The exponential of zero is one.
pub proof fn lemma_exp_of_zero()
    ensures
        fx_exp_spec(0) == ONE,
{
    lemma_exp_series_of_zero(0);
    lemma2_to64();
    let scaled = 0int * 1000;
    assert(scaled / (LN_2_WORK as int) == 0);
    assert(scaled % (LN_2_WORK as int) == 0);
    assert(0int * BINARY_ONE / (WORK_ONE as int) == 0);
    let s = exp_series(0, 0);
    assert(s == 1152921504606846976);
    assert(s * ONE * pow2(0) == 1152921504606846976 * 1_000_000_000_000_000) by (nonlinear_arith)
        requires
            s == 1152921504606846976,
            ONE == 1_000_000_000_000_000,
            pow2(0) == 1,
    ;
    assert(1152921504606846976int * 1_000_000_000_000_000 == ONE * BINARY_ONE)
        by (nonlinear_arith)
        requires
            ONE == 1_000_000_000_000_000,
            BINARY_ONE == 1152921504606846976,
    ;
    crate::fixed::lemma_round_ratio_exact(ONE as int, BINARY_ONE as int);
}

/// The exponential is never negative.
pub proof fn lemma_exp_nonnegative(a: int)
    ensures
        fx_exp_spec(a) >= 0,
{
    if a >= EXP_MAX_ARG {
    } else if a <= EXP_MIN_ARG {
    } else {
        let scaled = a * 1000;
        let k = scaled / (LN_2_WORK as int);
        let r = scaled % (LN_2_WORK as int);
        vstd::arithmetic::div_mod::lemma_mod_bound(scaled, LN_2_WORK as int);
        let rb = r * BINARY_ONE / (WORK_ONE as int);
        assert(0 <= rb <= EXP_REMAINDER_MAX) by (nonlinear_arith)
            requires
                rb == r * BINARY_ONE / (WORK_ONE as int),
                0 <= r <= 693_147_180_559_945_308,
                BINARY_ONE == 0x1000_0000_0000_0000,
                WORK_ONE == 1_000_000_000_000_000_000,
                EXP_REMAINDER_MAX == 799_144_290_325_165_978,
        ;
        lemma_exp_series_bounds(rb, 0);
        let s = exp_series(rb, 0);
        if k >= 0 {
            vstd::arithmetic::power2::lemma_pow2_pos(k as nat);
            let p: int = pow2(k as nat) as int;
            assert(s * ONE * p >= 0) by (nonlinear_arith)
                requires
                    s >= 0,
                    p >= 1,
                    ONE == 1_000_000_000_000_000,
            ;
            crate::fixed::lemma_round_ratio_nearest(s * ONE * p, BINARY_ONE as int);
        } else {
            vstd::arithmetic::power2::lemma_pow2_pos((-k) as nat);
            let p: int = pow2((-k) as nat) as int;
            assert(s * ONE >= 0) by (nonlinear_arith)
                requires
                    s >= 0,
                    ONE == 1_000_000_000_000_000,
            ;
            assert(BINARY_ONE * p > 0) by (nonlinear_arith)
                requires
                    p >= 1,
                    BINARY_ONE == 0x1000_0000_0000_0000,
            ;
            crate::fixed::lemma_round_ratio_nearest(s * ONE, BINARY_ONE * p);
        }
    }
}

/// The exponential of a number that is not negative is at least one.
pub proof fn law_exp_of_nonnegative(a: int)
    requires
        a >= 0,
    ensures
        fx_exp_spec(a) >= ONE,
{
    if a >= EXP_MAX_ARG {
    } else {
        let scaled = a * 1000;
        let k = scaled / (LN_2_WORK as int);
        let r = scaled % (LN_2_WORK as int);
        vstd::arithmetic::div_mod::lemma_mod_bound(scaled, LN_2_WORK as int);
        vstd::arithmetic::div_mod::lemma_div_pos_is_pos(scaled, LN_2_WORK as int);
        let rb = r * BINARY_ONE / (WORK_ONE as int);
        assert(0 <= rb <= EXP_REMAINDER_MAX) by (nonlinear_arith)
            requires
                rb == r * BINARY_ONE / (WORK_ONE as int),
                0 <= r <= 693_147_180_559_945_308,
                BINARY_ONE == 0x1000_0000_0000_0000,
                WORK_ONE == 1_000_000_000_000_000_000,
                EXP_REMAINDER_MAX == 799_144_290_325_165_978,
        ;
        lemma_exp_series_bounds(rb, 0);
        let s = exp_series(rb, 0);
        vstd::arithmetic::power2::lemma_pow2_pos(k as nat);
        let p: int = pow2(k as nat) as int;
        assert(s * ONE * p >= ONE * BINARY_ONE) by (nonlinear_arith)
            requires
                s >= BINARY_ONE,
                p >= 1,
                ONE == 1_000_000_000_000_000,
                BINARY_ONE == 0x1000_0000_0000_0000,
        ;
        crate::fixed::lemma_round_ratio_monotone(ONE * BINARY_ONE, s * ONE * p, BINARY_ONE as int);
        crate::fixed::lemma_round_ratio_exact(ONE as int, BINARY_ONE as int);
    }
}

/// The series grows with the remainder.
pub proof fn lemma_exp_series_monotone(r1: int, r2: int, i: nat)
    requires
        0 <= r1 <= r2 <= EXP_REMAINDER_MAX,
        i <= EXP_TERMS,
    ensures
        exp_series(r1, i) <= exp_series(r2, i),
    decreases EXP_TERMS - i,
{
    if i < EXP_TERMS {
        lemma_exp_series_monotone(r1, r2, i + 1);
        lemma_exp_series_bounds(r1, i + 1);
        lemma_exp_series_bounds(r2, i + 1);
        let s1 = exp_series(r1, i + 1);
        let s2 = exp_series(r2, i + 1);
        assert(r1 * s1 <= r2 * s2) by (nonlinear_arith)
            requires
                0 <= r1 <= r2,
                0 <= s1 <= s2,
        ;
        vstd::arithmetic::div_mod::lemma_div_is_ordered(r1 * s1, r2 * s2, BINARY_ONE as int);
    }
}

/// The series at the largest remainder, term by term.
proof fn lemma_exp_series_at_largest_remainder()
    ensures
        exp_series(799144290325165978, 0) == 2305843009213693949,
{
    reveal_with_fuel(exp_series, 2);
    assert(exp_series(799144290325165978, 18) == 180);
    assert(799144290325165978int * 180 / 1152921504606846976 == 124);
    assert(exp_series(799144290325165978, 17) == 3365);
    assert(799144290325165978int * 3365 / 1152921504606846976 == 2332);
    assert(exp_series(799144290325165978, 16) == 57436);
    assert(799144290325165978int * 57436 / 1152921504606846976 == 39811);
    assert(exp_series(799144290325165978, 15) == 921469);
    assert(799144290325165978int * 921469 / 1152921504606846976 == 638713);
    assert(exp_series(799144290325165978, 14) == 13863582);
    assert(799144290325165978int * 13863582 / 1152921504606846976 == 9609502);
    assert(exp_series(799144290325165978, 13) == 194757672);
    assert(799144290325165978int * 194757672 / 1152921504606846976 == 134995731);
    assert(exp_series(799144290325165978, 12) == 2541921939);
    assert(799144290325165978int * 2541921939 / 1152921504606846976 == 1761926025);
    assert(exp_series(799144290325165978, 11) == 30645040518);
    assert(799144290325165978int * 30645040518 / 1152921504606846976 == 21241523433);
    assert(exp_series(799144290325165978, 10) == 338955782859);
    assert(799144290325165978int * 338955782859 / 1152921504606846976 == 234946245223);
    assert(exp_series(799144290325165978, 9) == 3412088839488);
    assert(799144290325165978int * 3412088839488 / 1152921504606846976 == 2365079758911);
    assert(exp_series(799144290325165978, 8) == 30959363107295);
    assert(799144290325165978int * 30959363107295 / 1152921504606846976 == 21459395249753);
    assert(exp_series(799144290325165978, 7) == 250213662036826);
    assert(799144290325165978int * 250213662036826 / 1152921504606846976 == 173434894378404);
    assert(exp_series(799144290325165978, 6) == 1774714761887914);
    assert(799144290325165978int * 1774714761887914 / 1152921504606846976 == 1230138533500722);
    assert(exp_series(799144290325165978, 5) == 10837817738557780);
    assert(799144290325165978int * 10837817738557780 / 1152921504606846976 == 7512202808903887);
    assert(exp_series(799144290325165978, 4) == 55550598834189178);
    assert(799144290325165978int * 55550598834189178 / 1152921504606846976 == 38504740960334813);
    assert(exp_series(799144290325165978, 3) == 230658325061475976);
    assert(799144290325165978int * 230658325061475976 / 1152921504606846976 == 159880167689041446);
    assert(exp_series(799144290325165978, 2) == 736340919992464934);
    assert(799144290325165978int * 736340919992464934 / 1152921504606846976 == 510392632623693334);
    assert(exp_series(799144290325165978, 1) == 1663314137230540310);
    assert(799144290325165978int * 1663314137230540310 / 1152921504606846976 == 1152921504606846973);
    assert(exp_series(799144290325165978, 0) == 2305843009213693949);
}

/// The series of a remainder below the logarithm of two is at most two.
pub proof fn lemma_exp_series_at_most_two(r: int)
    requires
        0 <= r <= EXP_REMAINDER_MAX,
    ensures
        BINARY_ONE <= exp_series(r, 0) <= 2 * BINARY_ONE,
{
    lemma_exp_series_monotone(r, EXP_REMAINDER_MAX as int, 0);
    lemma_exp_series_at_largest_remainder();
    lemma_exp_series_bounds(r, 0);
}

/// The value of the exponential for the multiple `k` of the logarithm of
/// two and the series value `s`: `s` times two to the power `k`, brought
/// from units of `2^-60` to units of `10^-15`.
pub open spec fn exp_value(k: int, s: int) -> int {
    if k >= 0 {
        clamp(round_ratio(s * ONE * pow2(k as nat), BINARY_ONE as int))
    } else {
        clamp(round_ratio(s * ONE, BINARY_ONE * pow2((-k) as nat)))
    }
}

/// For a fixed multiple the value grows with the series value.
pub proof fn lemma_exp_value_monotone(k: int, s1: int, s2: int)
    requires
        0 <= s1 <= s2,
    ensures
        exp_value(k, s1) <= exp_value(k, s2),
{
    if k >= 0 {
        vstd::arithmetic::power2::lemma_pow2_pos(k as nat);
        let p: int = pow2(k as nat) as int;
        assert(s1 * ONE * p <= s2 * ONE * p) by (nonlinear_arith)
            requires
                0 <= s1 <= s2,
                p >= 1,
                ONE == 1_000_000_000_000_000,
        ;
        crate::fixed::lemma_round_ratio_monotone(s1 * ONE * p, s2 * ONE * p, BINARY_ONE as int);
    } else {
        vstd::arithmetic::power2::lemma_pow2_pos((-k) as nat);
        let p: int = pow2((-k) as nat) as int;
        assert(s1 * ONE <= s2 * ONE) by (nonlinear_arith)
            requires
                0 <= s1 <= s2,
                ONE == 1_000_000_000_000_000,
        ;
        assert(BINARY_ONE * p > 0) by (nonlinear_arith)
            requires
                p >= 1,
                BINARY_ONE == 0x1000_0000_0000_0000,
        ;
        crate::fixed::lemma_round_ratio_monotone(s1 * ONE, s2 * ONE, BINARY_ONE * p);
    }
}

/// A series value of two with one multiple is a series value of one with
/// the next multiple.
pub proof fn lemma_exp_value_step(k: int)
    ensures
        exp_value(k, 2 * BINARY_ONE) == exp_value(k + 1, BINARY_ONE as int),
{
    lemma2_to64();
    if k >= 0 {
        lemma_pow2_unfold((k + 1) as nat);
        let p: int = pow2(k as nat) as int;
        assert((2 * BINARY_ONE) * ONE * p == BINARY_ONE * ONE * (2 * p)) by (nonlinear_arith);
    } else if k == -1 {
        assert((2 * BINARY_ONE) * ONE == ONE * (BINARY_ONE * 2)) by (nonlinear_arith);
        crate::fixed::lemma_round_ratio_exact(ONE as int, BINARY_ONE * 2);
        assert(BINARY_ONE * ONE * 1 == ONE * BINARY_ONE) by (nonlinear_arith);
        crate::fixed::lemma_round_ratio_exact(ONE as int, BINARY_ONE as int);
    } else {
        lemma_pow2_unfold((-k) as nat);
        vstd::arithmetic::power2::lemma_pow2_pos((-k - 1) as nat);
        let p: int = pow2((-k - 1) as nat) as int;
        let n: int = BINARY_ONE * ONE;
        let d: int = BINARY_ONE * p;
        assert(d > 0) by (nonlinear_arith)
            requires
                d == BINARY_ONE * p,
                p >= 1,
                BINARY_ONE == 0x1000_0000_0000_0000,
        ;
        assert((2 * BINARY_ONE) * ONE == 2 * n) by (nonlinear_arith)
            requires
                n == BINARY_ONE * ONE,
        ;
        assert(BINARY_ONE * (2 * p) == 2 * d) by (nonlinear_arith)
            requires
                d == BINARY_ONE * p,
        ;
        crate::fixed::lemma_round_ratio_scaled(n, d, 2);
    }
}

/// With a series value of one the value grows with the multiple.
pub proof fn lemma_exp_value_of_one_monotone(k1: int, k2: int)
    requires
        k1 <= k2,
    ensures
        exp_value(k1, BINARY_ONE as int) <= exp_value(k2, BINARY_ONE as int),
    decreases k2 - k1,
{
    if k1 < k2 {
        lemma_exp_value_of_one_monotone(k1 + 1, k2);
        lemma_exp_value_monotone(k1, BINARY_ONE as int, 2 * BINARY_ONE);
        lemma_exp_value_step(k1);
    }
}

/// The exponential keeps the order of its arguments.
pub proof fn law_exp_is_monotone(a: int, b: int)
    requires
        a <= b,
    ensures
        fx_exp_spec(a) <= fx_exp_spec(b),
{
    lemma_exp_nonnegative(a);
    lemma_exp_nonnegative(b);
    if b >= EXP_MAX_ARG {
    } else if a <= EXP_MIN_ARG {
    } else {
        let l: int = LN_2_WORK as int;
        let sa = a * 1000;
        let sb = b * 1000;
        let ka = sa / l;
        let kb = sb / l;
        let ra = sa % l;
        let rb = sb % l;
        vstd::arithmetic::div_mod::lemma_fundamental_div_mod(sa, l);
        vstd::arithmetic::div_mod::lemma_fundamental_div_mod(sb, l);
        vstd::arithmetic::div_mod::lemma_mod_bound(sa, l);
        vstd::arithmetic::div_mod::lemma_mod_bound(sb, l);
        vstd::arithmetic::div_mod::lemma_div_is_ordered(sa, sb, l);
        let ba = ra * BINARY_ONE / (WORK_ONE as int);
        let bb = rb * BINARY_ONE / (WORK_ONE as int);
        assert(0 <= ba <= EXP_REMAINDER_MAX) by (nonlinear_arith)
            requires
                ba == ra * BINARY_ONE / (WORK_ONE as int),
                0 <= ra <= 693_147_180_559_945_308,
                BINARY_ONE == 0x1000_0000_0000_0000,
                WORK_ONE == 1_000_000_000_000_000_000,
                EXP_REMAINDER_MAX == 799_144_290_325_165_978,
        ;
        assert(0 <= bb <= EXP_REMAINDER_MAX) by (nonlinear_arith)
            requires
                bb == rb * BINARY_ONE / (WORK_ONE as int),
                0 <= rb <= 693_147_180_559_945_308,
                BINARY_ONE == 0x1000_0000_0000_0000,
                WORK_ONE == 1_000_000_000_000_000_000,
                EXP_REMAINDER_MAX == 799_144_290_325_165_978,
        ;
        let va = exp_series(ba, 0);
        let vb = exp_series(bb, 0);
        lemma_exp_series_at_most_two(ba);
        lemma_exp_series_at_most_two(bb);
        assert(fx_exp_spec(a) == exp_value(ka, va));
        assert(fx_exp_spec(b) == exp_value(kb, vb));
        if ka == kb {
            assert(ra <= rb) by (nonlinear_arith)
                requires
                    sa == l * ka + ra,
                    sb == l * kb + rb,
                    ka == kb,
                    sa <= sb,
            ;
            assert(ra * BINARY_ONE <= rb * BINARY_ONE) by (nonlinear_arith)
                requires
                    ra <= rb,
                    BINARY_ONE == 0x1000_0000_0000_0000,
            ;
            vstd::arithmetic::div_mod::lemma_div_is_ordered(
                ra * BINARY_ONE,
                rb * BINARY_ONE,
                WORK_ONE as int,
            );
            lemma_exp_series_monotone(ba, bb, 0);
            lemma_exp_value_monotone(ka, va, vb);
        } else {
            lemma_exp_value_monotone(ka, va, 2 * BINARY_ONE);
            lemma_exp_value_step(ka);
            lemma_exp_value_of_one_monotone(ka + 1, kb);
            lemma_exp_value_monotone(kb, BINARY_ONE as int, vb);
        }
    }
}

/// One over the factorial of `i`, in units of `2^-60`.
fn coefficient(i: u32) -> (c: u128)
    ensures
        c == exp_coefficient(i as nat),
{
    if i == 0 {
        1152921504606846976
    } else if i == 1 {
        1152921504606846976
    } else if i == 2 {
        576460752303423488
    } else if i == 3 {
        192153584101141163
    } else if i == 4 {
        48038396025285291
    } else if i == 5 {
        9607679205057058
    } else if i == 6 {
        1601279867509510
    } else if i == 7 {
        228754266787073
    } else if i == 8 {
        28594283348384
    } else if i == 9 {
        3177142594265
    } else if i == 10 {
        317714259426
    } else if i == 11 {
        28883114493
    } else if i == 12 {
        2406926208
    } else if i == 13 {
        185148170
    } else if i == 14 {
        13224869
    } else if i == 15 {
        881658
    } else if i == 16 {
        55104
    } else if i == 17 {
        3241
    } else {
        180
    }
}

/// Two to the power `k`.
fn power_of_two(k: u32) -> (p: u128)
    requires
        k <= 64,
    ensures
        p == pow2(k as nat),
        1 <= p <= 0x1_0000_0000_0000_0000,
{
    let mut p: u128 = 1;
    let mut j: u32 = 0;
    proof {
        lemma2_to64();
    }
    while j < k
        invariant
            j <= k <= 64,
            p == pow2(j as nat),
            1 <= p,
            p <= pow2(64),
            pow2(64) == 0x1_0000_0000_0000_0000,
        decreases k - j,
    {
        proof {
            lemma_pow2_unfold((j + 1) as nat);
            if j + 1 < 64 {
                lemma_pow2_strictly_increases((j + 1) as nat, 64);
            }
        }
        p = p * 2;
        j = j + 1;
    }
    p
}

/// The two parts of the exponential of `a`: the whole multiple of the
/// logarithm of two in `a`, and the series of what is left of `a`, in units
/// of `2^-60`.
fn exp_parts(a: Fixed) -> (parts: (i128, u128))
    requires
        EXP_MIN_ARG < a < EXP_WIDE_MAX_ARG,
    ensures
        parts.0 == (a * 1000) / (LN_2_WORK as int),
        parts.1 == exp_series(
            ((a * 1000) % (LN_2_WORK as int)) * BINARY_ONE / (WORK_ONE as int),
            0,
        ),
        -52 <= parts.0 <= 59,
        a < EXP_MAX_ARG ==> parts.0 <= 13,
        parts.1 <= 0x4000_0000_0000_0000,
{
    let scaled: i128 = a as i128 * 1000;
    let k: i128;
    let rest: u128;
    if scaled >= 0 {
        let m: u128 = scaled as u128;
        k = (m / (LN_2_WORK as u128)) as i128;
        rest = m % (LN_2_WORK as u128);
        proof {
            vstd::arithmetic::div_mod::lemma_fundamental_div_mod(m as int, LN_2_WORK as int);
            assert(scaled == k * LN_2_WORK + rest) by (nonlinear_arith)
                requires
                    scaled == LN_2_WORK * k + rest,
            ;
        }
    } else {
        let m: u128 = (-scaled) as u128;
        let q: u128 = m / (LN_2_WORK as u128);
        let back: u128 = m % (LN_2_WORK as u128);
        proof {
            vstd::arithmetic::div_mod::lemma_fundamental_div_mod(m as int, LN_2_WORK as int);
        }
        if back == 0 {
            k = -(q as i128);
            rest = 0;
        } else {
            k = -(q as i128) - 1;
            rest = LN_2_WORK as u128 - back;
        }
        proof {
            assert(scaled == k * LN_2_WORK + rest) by (nonlinear_arith)
                requires
                    -scaled == LN_2_WORK * q + back,
                    (back == 0 && k == -q && rest == 0) || (back != 0 && k == -q - 1 && rest
                        == LN_2_WORK - back),
            ;
        }
    }
    proof {
        lemma_fundamental_div_mod_converse(scaled as int, LN_2_WORK as int, k as int, rest as int);
    }
    assert(-52 <= k <= 59);
    assert(a < EXP_MAX_ARG ==> k <= 13);
    assert(rest * BINARY_ONE < 0x1000_0000_0000_0000 * 0x1000_0000_0000_0000) by (nonlinear_arith)
        requires
            rest < 0x1000_0000_0000_0000,
            BINARY_ONE == 0x1000_0000_0000_0000,
    ;
    let r: u128 = rest * BINARY_ONE / WORK_ONE;
    assert(r <= EXP_REMAINDER_MAX) by (nonlinear_arith)
        requires
            r == rest * BINARY_ONE / (WORK_ONE as int),
            0 <= rest <= 693_147_180_559_945_308,
            BINARY_ONE == 0x1000_0000_0000_0000,
            WORK_ONE == 1_000_000_000_000_000_000,
            EXP_REMAINDER_MAX == 799_144_290_325_165_978,
    ;
    let mut s: u128 = coefficient(EXP_TERMS);
    let mut i: u32 = EXP_TERMS;
    proof {
        lemma_exp_series_bounds(r as int, EXP_TERMS as nat);
    }
    while i > 0
        invariant
            0 <= i <= EXP_TERMS,
            r <= EXP_REMAINDER_MAX,
            s == exp_series(r as int, i as nat),
            exp_coefficient(i as nat) <= s <= 4 * exp_coefficient(i as nat),
            exp_coefficient(i as nat) <= BINARY_ONE,
        decreases i,
    {
        proof {
            lemma_exp_series_bounds(r as int, (i - 1) as nat);
        }
        assert(r * s <= 799_144_290_325_165_978 * 0x4000_0000_0000_0000) by (nonlinear_arith)
            requires
                r <= 799_144_290_325_165_978,
                s <= 0x4000_0000_0000_0000,
        ;
        i = i - 1;
        s = coefficient(i) + r * s / BINARY_ONE;
    }
    (k, s)
}

/// The exponential of `a`, saturating at the upper bound of the range.
pub fn fx_exp(a: Fixed) -> (r: Fixed)
    ensures
        r == fx_exp_spec(a as int),
        r >= 0,
{
    if a >= EXP_MAX_ARG {
        return FIXED_MAX;
    }
    if a <= EXP_MIN_ARG {
        return 0;
    }
    let parts: (i128, u128) = exp_parts(a);
    let k: i128 = parts.0;
    let s: u128 = parts.1;
    proof {
        lemma2_to64();
        lemma2_to64_rest();
    }
    assert(s * (ONE as u128) <= 0x4000_0000_0000_0000 * 1_000_000_000_000_000)
        by (nonlinear_arith)
        requires
            s <= 0x4000_0000_0000_0000,
            ONE == 1_000_000_000_000_000,
    ;
    let n: u128 = s * (ONE as u128);
    if k >= 0 {
        let p: u128 = power_of_two(k as u32);
        proof {
            lemma_pow2_strictly_increases(k as nat, 14);
        }
        assert(n * p <= 0x4000_0000_0000_0000 * 1_000_000_000_000_000 * 0x4000)
            by (nonlinear_arith)
            requires
                n <= 0x4000_0000_0000_0000 * 1_000_000_000_000_000,
                p <= 0x4000,
        ;
        round_ratio_saturating(false, n * p, BINARY_ONE)
    } else {
        let p: u128 = power_of_two((-k) as u32);
        proof {
            lemma_pow2_strictly_increases((-k) as nat, 53);
        }
        assert(BINARY_ONE * p <= 0x1000_0000_0000_0000 * 0x20_0000_0000_0000) by (nonlinear_arith)
            requires
                p <= 0x20_0000_0000_0000,
                BINARY_ONE == 0x1000_0000_0000_0000,
        ;
        round_ratio_saturating(false, n, BINARY_ONE * p)
    }
}

/// The exponential of `a` as a wide number, saturating at the end of the
/// wide range.
pub fn fx_exp_wide(a: Fixed) -> (r: i128)
    ensures
        r == fx_exp_wide_spec(a as int),
        0 <= r <= WIDE_MAX,
{
    if a >= EXP_WIDE_MAX_ARG {
        return WIDE_MAX;
    }
    if a <= EXP_MIN_ARG {
        return 0;
    }
    let parts: (i128, u128) = exp_parts(a);
    let k: i128 = parts.0;
    let s: u128 = parts.1;
    proof {
        lemma2_to64();
        lemma2_to64_rest();
    }
    assert(0 <= s * (ONE as u128) <= 0x4000_0000_0000_0000 * 1_000_000_000_000_000)
        by (nonlinear_arith)
        requires
            0 <= s <= 0x4000_0000_0000_0000,
            ONE == 1_000_000_000_000_000,
    ;
    let n: u128 = s * (ONE as u128);
    let value: u128 = if k >= 0 {
        let d: u128 = power_of_two((60 - k) as u32);
        proof {
            let c: int = pow2(k as nat) as int;
            vstd::arithmetic::power2::lemma_pow2_pos(k as nat);
            vstd::arithmetic::power2::lemma_pow2_adds(k as nat, (60 - k) as nat);
            assert(s * ONE * pow2(k as nat) == c * n) by (nonlinear_arith)
                requires
                    n == s * ONE,
                    c == pow2(k as nat),
            ;
            assert(BINARY_ONE == c * d) by (nonlinear_arith)
                requires
                    BINARY_ONE == pow2(k as nat) * pow2((60 - k) as nat),
                    c == pow2(k as nat),
                    d == pow2((60 - k) as nat),
            ;
            crate::fixed::lemma_round_ratio_scaled(n as int, d as int, c);
        }
        round_ratio_wide(n, d)
    } else {
        let p: u128 = power_of_two((-k) as u32);
        proof {
            lemma_pow2_strictly_increases((-k) as nat, 53);
        }
        assert(BINARY_ONE * p <= 0x1000_0000_0000_0000 * 0x20_0000_0000_0000) by (nonlinear_arith)
            requires
                p <= 0x20_0000_0000_0000,
                BINARY_ONE == 0x1000_0000_0000_0000,
        ;
        round_ratio_wide(n, BINARY_ONE * p)
    };
    if value > WIDE_MAX as u128 {
        WIDE_MAX
    } else {
        value as i128
    }
}

/// `a` raised to the power `b`, for a positive `a`; zero for `a <= 0`.
pub fn fx_pow(a: Fixed, b: Fixed) -> (r: Fixed)
    ensures
        r == fx_pow_spec(a as int, b as int),
        r >= 0,
{
    if a <= 0 {
        0
    } else {
        fx_exp(fx_mul(b, fx_ln(a)))
    }
}

/// The wide number `a` raised to the power `b`, as a wide number, for a
/// positive `a`; zero for `a <= 0`.
pub fn wide_pow(a: i128, b: Fixed) -> (r: i128)
    ensures
        r == wide_pow_spec(a as int, b as int),
        0 <= r <= WIDE_MAX,
{
    if a <= 0 {
        0
    } else {
        fx_exp_wide(fx_mul(b, fx_ln_wide(a)))
    }
}

} // verus!
