//! Binary and natural logarithm of a fixed-point number.
//!
//! The logarithm is computed digit by digit. The argument is first brought
//! into `[1, 2)` by halving or doubling, which gives the whole part of the
//! result; squaring the remainder then yields one binary digit of the
//! fractional part per step. Intermediate values count units of `10^-18`.

use crate::fixed::{
    fx_mul, fx_mul_spec, lemma_round_ratio_nearest, round_ratio, round_ratio_saturating, Fixed,
    FIXED_MIN,
};
use crate::wide::WIDE_MAX;
use vstd::arithmetic::power2::{lemma2_to64, lemma2_to64_rest, lemma_pow2_unfold, pow2};
use vstd::prelude::*;

verus! {

/// One, in the units of `10^-18` that the logarithm works in.
pub const WORK_ONE: u128 = 1_000_000_000_000_000_000;

/// Number of binary digits computed after the point.
pub const LOG2_STEPS: u32 = 60;

/// The natural logarithm of two.
pub const LN_2: i64 = 693_147_180_559_945;

/// The binary logarithm of Euler's number, rounded up so that its product
/// with [`LN_2`] rounds to one.
pub const LOG2_E: i64 = 1_442_695_040_888_964;

/// How often `y` must be halved, rounding down, to fall below two.
pub open spec fn halvings(y: int) -> int
    decreases y,
{
    if y >= 2 * WORK_ONE {
        1 + halvings(y / 2)
    } else {
        0
    }
}

/// What is left of `y` after [`halvings`].
pub open spec fn halved(y: int) -> int
    decreases y,
{
    if y >= 2 * WORK_ONE {
        halved(y / 2)
    } else {
        y
    }
}

/// How often a positive `y` must be doubled to reach one.
pub open spec fn doublings(y: int) -> int
    decreases 2 * WORK_ONE - y,
{
    if 0 < y < WORK_ONE {
        1 + doublings(2 * y)
    } else {
        0
    }
}

/// What `y` has become after [`doublings`].
pub open spec fn doubled(y: int) -> int
    decreases 2 * WORK_ONE - y,
{
    if 0 < y < WORK_ONE {
        doubled(2 * y)
    } else {
        y
    }
}

/// The fractional binary digits of the logarithm of `y`, for `y` in
/// `[1, 2)`: `steps` digits, of which the first is worth half of `weight`.
/// Each step squares `y`; the digit is one when the square reaches two, and
/// the square is then halved.
pub open spec fn log2_fraction(y: int, weight: int, steps: nat) -> int
    decreases steps,
{
    if steps == 0 {
        0
    } else {
        let square = y * y / (WORK_ONE as int);
        let half = weight / 2;
        if square >= 2 * WORK_ONE {
            half + log2_fraction(square / 2, half, (steps - 1) as nat)
        } else {
            log2_fraction(square, half, (steps - 1) as nat)
        }
    }
}

/// The binary logarithm of the fixed-point number `a`: the lower bound of
/// the range for `a <= 0`.
pub open spec fn fx_log2_spec(a: int) -> int {
    if a <= 0 {
        FIXED_MIN as int
    } else {
        let y = a * 1000;
        let exponent = halvings(y) - doublings(y);
        let mantissa = doubled(halved(y));
        round_ratio(
            exponent * WORK_ONE + log2_fraction(mantissa, WORK_ONE as int, LOG2_STEPS as nat),
            1000,
        )
    }
}

/// The natural logarithm of the fixed-point number `a`.
pub open spec fn fx_ln_spec(a: int) -> int {
    if a <= 0 {
        FIXED_MIN as int
    } else {
        fx_mul_spec(fx_log2_spec(a), LN_2 as int)
    }
}

/// A number below `2^(h+1)` is halved at most `h` times.
pub proof fn lemma_halvings_bound(y: int, h: nat)
    requires
        0 <= y < 2 * WORK_ONE * pow2(h),
    ensures
        0 <= halvings(y) <= h,
        WORK_ONE <= y ==> WORK_ONE <= halved(y) < 2 * WORK_ONE,
        y < WORK_ONE ==> halved(y) == y,
    decreases y,
{
    if y >= 2 * WORK_ONE {
        if h == 0 {
            lemma2_to64();
        } else {
            lemma_pow2_unfold(h);
            assert(2 * WORK_ONE * pow2(h) == 2 * (2 * WORK_ONE * pow2((h - 1) as nat)))
                by (nonlinear_arith)
                requires
                    pow2(h) == 2 * pow2((h - 1) as nat),
            ;
            lemma_halvings_bound(y / 2, (h - 1) as nat);
        }
    }
}

/// A positive number that reaches one after `h` doublings is doubled at most
/// `h` times, and ends in `[1, 2)`.
pub proof fn lemma_doublings_bound(y: int, h: nat)
    requires
        0 < y,
        y * pow2(h) >= WORK_ONE,
    ensures
        0 <= doublings(y) <= h,
        y < 2 * WORK_ONE ==> WORK_ONE <= doubled(y) < 2 * WORK_ONE,
        y >= WORK_ONE ==> doubled(y) == y,
    decreases 2 * WORK_ONE - y,
{
    if y < WORK_ONE {
        if h == 0 {
            lemma2_to64();
        } else {
            lemma_pow2_unfold(h);
            assert((2 * y) * pow2((h - 1) as nat) == y * pow2(h)) by (nonlinear_arith)
                requires
                    pow2(h) == 2 * pow2((h - 1) as nat),
            ;
            lemma_doublings_bound(2 * y, (h - 1) as nat);
        }
    }
}

/// A count of doublings is never negative.
pub proof fn lemma_doublings_nonnegative(y: int)
    ensures
        0 <= doublings(y),
    decreases 2 * WORK_ONE - y,
{
    if 0 < y < WORK_ONE {
        lemma_doublings_nonnegative(2 * y);
    }
}

/// The fraction never exceeds the weight it started from.
pub proof fn lemma_log2_fraction_bound(y: int, weight: int, steps: nat)
    requires
        weight >= 0,
    ensures
        0 <= log2_fraction(y, weight, steps) <= weight,
    decreases steps,
{
    if steps > 0 {
        let square = y * y / (WORK_ONE as int);
        let half = weight / 2;
        if square >= 2 * WORK_ONE {
            lemma_log2_fraction_bound(square / 2, half, (steps - 1) as nat);
        } else {
            lemma_log2_fraction_bound(square, half, (steps - 1) as nat);
        }
    }
}

/// The logarithm of one has no fractional digits.
pub proof fn lemma_log2_fraction_of_one(weight: int, steps: nat)
    ensures
        log2_fraction(WORK_ONE as int, weight, steps) == 0,
    decreases steps,
{
    if steps > 0 {
        assert((WORK_ONE as int) * (WORK_ONE as int) / (WORK_ONE as int) == WORK_ONE)
            by (nonlinear_arith);
        lemma_log2_fraction_of_one(weight / 2, (steps - 1) as nat);
    }
}

/// A number that reaches one after exactly `k` doublings.
pub proof fn lemma_doublings_exact(y: int, k: nat)
    requires
        y > 0,
        y * pow2(k) == WORK_ONE,
    ensures
        doublings(y) == k,
        doubled(y) == WORK_ONE,
    decreases k,
{
    if k == 0 {
        lemma2_to64();
    } else {
        lemma_pow2_unfold(k);
        vstd::arithmetic::power2::lemma_pow2_pos((k - 1) as nat);
        assert(y < WORK_ONE) by (nonlinear_arith)
            requires
                y > 0,
                y * pow2(k) == WORK_ONE,
                pow2(k) == 2 * pow2((k - 1) as nat),
                pow2((k - 1) as nat) > 0,
        ;
        assert((2 * y) * pow2((k - 1) as nat) == WORK_ONE) by (nonlinear_arith)
            requires
                y * pow2(k) == WORK_ONE,
                pow2(k) == 2 * pow2((k - 1) as nat),
        ;
        lemma_doublings_exact(2 * y, (k - 1) as nat);
    }
}

/// The binary logarithm of one over two to the power `k` is exactly `-k`.
pub proof fn lemma_log2_of_binary_fraction(a: int, k: nat)
    requires
        a * pow2(k) == 1_000_000_000_000_000,
    ensures
        fx_log2_spec(a) == -k * 1_000_000_000_000_000,
{
    vstd::arithmetic::power2::lemma_pow2_pos(k);
    assert(a > 0) by (nonlinear_arith)
        requires
            a * pow2(k) == 1_000_000_000_000_000,
            pow2(k) > 0,
    ;
    let y = a * 1000;
    assert(y * pow2(k) == WORK_ONE) by (nonlinear_arith)
        requires
            y == a * 1000,
            a * pow2(k) == 1_000_000_000_000_000,
            WORK_ONE == 1_000_000_000_000_000_000,
    ;
    assert(y <= WORK_ONE) by (nonlinear_arith)
        requires
            y * pow2(k) == WORK_ONE,
            pow2(k) >= 1,
            y > 0,
    ;
    lemma_doublings_exact(y, k);
    assert(halvings(y) == 0);
    assert(halved(y) == y);
    lemma_log2_fraction_of_one(WORK_ONE as int, LOG2_STEPS as nat);
    let total = (0 - k) * WORK_ONE + 0;
    assert(total == (-k * 1_000_000_000_000_000) * 1000) by (nonlinear_arith)
        requires
            total == (0 - k) * WORK_ONE + 0,
            WORK_ONE == 1_000_000_000_000_000_000,
    ;
    crate::fixed::lemma_round_ratio_exact(-k * 1_000_000_000_000_000, 1000);
}

/// A number that falls to one after exactly `k` halvings.
pub proof fn lemma_halvings_exact(y: int, k: nat)
    requires
        y == WORK_ONE * pow2(k),
    ensures
        halvings(y) == k,
        halved(y) == WORK_ONE,
    decreases k,
{
    if k == 0 {
        lemma2_to64();
    } else {
        lemma_pow2_unfold(k);
        vstd::arithmetic::power2::lemma_pow2_pos((k - 1) as nat);
        let half = WORK_ONE * pow2((k - 1) as nat);
        assert(y == 2 * half) by (nonlinear_arith)
            requires
                y == WORK_ONE * pow2(k),
                pow2(k) == 2 * pow2((k - 1) as nat),
                half == WORK_ONE * pow2((k - 1) as nat),
        ;
        assert(half >= WORK_ONE) by (nonlinear_arith)
            requires
                half == WORK_ONE * pow2((k - 1) as nat),
                pow2((k - 1) as nat) >= 1,
        ;
        assert(y / 2 == half);
        lemma_halvings_exact(half, (k - 1) as nat);
    }
}

/// The binary logarithm of two to the power `k` is exactly `k`.
pub proof fn law_log2_of_power_of_two(a: int, k: nat)
    requires
        a == 1_000_000_000_000_000 * pow2(k),
    ensures
        fx_log2_spec(a) == k * 1_000_000_000_000_000,
{
    vstd::arithmetic::power2::lemma_pow2_pos(k);
    assert(a >= 1_000_000_000_000_000) by (nonlinear_arith)
        requires
            a == 1_000_000_000_000_000 * pow2(k),
            pow2(k) >= 1,
    ;
    let y = a * 1000;
    assert(y == WORK_ONE * pow2(k)) by (nonlinear_arith)
        requires
            y == a * 1000,
            a == 1_000_000_000_000_000 * pow2(k),
            WORK_ONE == 1_000_000_000_000_000_000,
    ;
    lemma_halvings_exact(y, k);
    assert(doublings(y) == 0);
    assert(doubled(WORK_ONE as int) == WORK_ONE);
    lemma_log2_fraction_of_one(WORK_ONE as int, LOG2_STEPS as nat);
    let total = k * WORK_ONE + 0;
    assert(total == (k * 1_000_000_000_000_000) * 1000) by (nonlinear_arith)
        requires
            total == k * WORK_ONE + 0,
            WORK_ONE == 1_000_000_000_000_000_000,
    ;
    crate::fixed::lemma_round_ratio_exact((k * 1_000_000_000_000_000) as int, 1000);
}

/// A count of halvings is never negative, and what is left of a number of
/// at least one is at least one.
pub proof fn lemma_halvings_nonnegative(y: int)
    ensures
        0 <= halvings(y),
        y >= WORK_ONE ==> halved(y) >= WORK_ONE,
    decreases y,
{
    if y >= 2 * WORK_ONE {
        lemma_halvings_nonnegative(y / 2);
    }
}

/// The logarithm of a number of at least one is not negative, and that of
/// a positive number below one is not positive.
pub proof fn lemma_log2_sign(a: int)
    requires
        a > 0,
    ensures
        a >= 1_000_000_000_000_000 ==> fx_log2_spec(a) >= 0,
        a < 1_000_000_000_000_000 ==> fx_log2_spec(a) <= 0,
{
    let y = a * 1000;
    let exponent = halvings(y) - doublings(y);
    let mantissa = doubled(halved(y));
    let fraction = log2_fraction(mantissa, WORK_ONE as int, LOG2_STEPS as nat);
    lemma_log2_fraction_bound(mantissa, WORK_ONE as int, LOG2_STEPS as nat);
    lemma_halvings_nonnegative(y);
    lemma_doublings_nonnegative(y);
    let total = exponent * WORK_ONE + fraction;
    lemma_round_ratio_nearest(total, 1000);
    if a >= 1_000_000_000_000_000 {
        assert(doublings(y) == 0);
        assert(exponent * WORK_ONE >= 0) by (nonlinear_arith)
            requires
                exponent >= 0,
        ;
    } else {
        assert(halvings(y) == 0);
        lemma_doublings_nonnegative(2 * y);
        assert(doublings(y) >= 1);
        assert(exponent * WORK_ONE <= -WORK_ONE) by (nonlinear_arith)
            requires
                exponent <= -1,
        ;
    }
}

/// Of two numbers in `[1, 2)` the greater has the greater fraction.
pub proof fn lemma_log2_fraction_monotone(y1: int, y2: int, weight: int, steps: nat)
    requires
        WORK_ONE <= y1 <= y2 < 2 * WORK_ONE,
        weight >= 0,
    ensures
        log2_fraction(y1, weight, steps) <= log2_fraction(y2, weight, steps),
    decreases steps,
{
    if steps > 0 {
        let s1 = y1 * y1 / (WORK_ONE as int);
        let s2 = y2 * y2 / (WORK_ONE as int);
        let half = weight / 2;
        assert(WORK_ONE * WORK_ONE <= y1 * y1 <= y2 * y2 < 4 * WORK_ONE * WORK_ONE)
            by (nonlinear_arith)
            requires
                WORK_ONE <= y1 <= y2 < 2 * WORK_ONE,
        ;
        vstd::arithmetic::div_mod::lemma_div_is_ordered(y1 * y1, y2 * y2, WORK_ONE as int);
        assert(WORK_ONE <= s1) by (nonlinear_arith)
            requires
                s1 == y1 * y1 / (WORK_ONE as int),
                WORK_ONE * WORK_ONE <= y1 * y1,
                WORK_ONE == 1_000_000_000_000_000_000,
        ;
        assert(s2 < 4 * WORK_ONE) by (nonlinear_arith)
            requires
                s2 == y2 * y2 / (WORK_ONE as int),
                y2 * y2 < 4 * WORK_ONE * WORK_ONE,
                WORK_ONE == 1_000_000_000_000_000_000,
        ;
        if s1 >= 2 * WORK_ONE {
            lemma_log2_fraction_monotone(s1 / 2, s2 / 2, half, (steps - 1) as nat);
        } else if s2 >= 2 * WORK_ONE {
            lemma_log2_fraction_bound(s1, half, (steps - 1) as nat);
            lemma_log2_fraction_bound(s2 / 2, half, (steps - 1) as nat);
        } else {
            lemma_log2_fraction_monotone(s1, s2, half, (steps - 1) as nat);
        }
    }
}

/// The greater of two numbers is halved at least as often, and where both
/// are halved equally often, more is left of the greater.
pub proof fn lemma_halvings_monotone(y1: int, y2: int)
    requires
        0 <= y1 <= y2,
    ensures
        halvings(y1) <= halvings(y2),
        halvings(y1) == halvings(y2) ==> halved(y1) <= halved(y2),
    decreases y2,
{
    if y2 >= 2 * WORK_ONE {
        if y1 >= 2 * WORK_ONE {
            lemma_halvings_monotone(y1 / 2, y2 / 2);
        } else {
            lemma_halvings_nonnegative(y2 / 2);
        }
    }
}

/// The greater of two positive numbers is doubled at most as often, and
/// where both are doubled equally often, the greater becomes the greater.
pub proof fn lemma_doublings_monotone(y1: int, y2: int)
    requires
        0 < y1 <= y2,
    ensures
        doublings(y1) >= doublings(y2),
        doublings(y1) == doublings(y2) ==> doubled(y1) <= doubled(y2),
    decreases 2 * WORK_ONE - y1,
{
    if y1 < WORK_ONE {
        if y2 < WORK_ONE {
            lemma_doublings_monotone(2 * y1, 2 * y2);
        } else {
            lemma_doublings_nonnegative(2 * y1);
        }
    }
}

/// The binary logarithm keeps the order of its arguments.
pub proof fn law_log2_is_monotone(a: int, b: int)
    requires
        0 < a <= b <= 0x7fff_ffff_ffff_ffff,
    ensures
        fx_log2_spec(a) <= fx_log2_spec(b),
{
    let y1 = a * 1000;
    let y2 = b * 1000;
    let e1 = halvings(y1) - doublings(y1);
    let e2 = halvings(y2) - doublings(y2);
    let m1 = doubled(halved(y1));
    let m2 = doubled(halved(y2));
    let f1 = log2_fraction(m1, WORK_ONE as int, LOG2_STEPS as nat);
    let f2 = log2_fraction(m2, WORK_ONE as int, LOG2_STEPS as nat);
    lemma2_to64();
    lemma2_to64_rest();
    lemma_halvings_bound(y1, 14);
    lemma_halvings_bound(y2, 14);
    assert(y1 * pow2(50) >= WORK_ONE) by (nonlinear_arith)
        requires
            y1 >= 1000,
            pow2(50) == 0x4000000000000,
    ;
    assert(y2 * pow2(50) >= WORK_ONE) by (nonlinear_arith)
        requires
            y2 >= 1000,
            pow2(50) == 0x4000000000000,
    ;
    lemma_halvings_monotone(y1, y2);
    lemma_halvings_nonnegative(y1);
    lemma_halvings_nonnegative(y2);
    lemma_doublings_nonnegative(y1);
    lemma_doublings_nonnegative(y2);
    lemma_log2_fraction_bound(m1, WORK_ONE as int, LOG2_STEPS as nat);
    lemma_log2_fraction_bound(m2, WORK_ONE as int, LOG2_STEPS as nat);
    if y1 >= WORK_ONE {
        // neither number is doubled
        assert(doublings(y1) == 0 && doublings(y2) == 0);
        assert(m1 == halved(y1) && m2 == halved(y2));
        if e1 == e2 {
            lemma_log2_fraction_monotone(m1, m2, WORK_ONE as int, LOG2_STEPS as nat);
        }
    } else if y2 < WORK_ONE {
        // neither number is halved
        assert(halvings(y1) == 0 && halvings(y2) == 0);
        lemma_doublings_monotone(y1, y2);
        lemma_doublings_bound(y1, 50);
        lemma_doublings_bound(y2, 50);
        if e1 == e2 {
            lemma_log2_fraction_monotone(m1, m2, WORK_ONE as int, LOG2_STEPS as nat);
        }
    } else {
        // only the lesser is doubled, only the greater may be halved
        assert(halvings(y1) == 0);
        assert(doublings(y2) == 0);
        lemma_doublings_nonnegative(2 * y1);
        assert(doublings(y1) >= 1);
    }
    let t1 = e1 * WORK_ONE + f1;
    let t2 = e2 * WORK_ONE + f2;
    assert(t1 <= t2) by (nonlinear_arith)
        requires
            t1 == e1 * WORK_ONE + f1,
            t2 == e2 * WORK_ONE + f2,
            e1 <= e2,
            e1 == e2 ==> f1 <= f2,
            0 <= f1 <= WORK_ONE,
            0 <= f2 <= WORK_ONE,
    ;
    crate::fixed::lemma_round_ratio_monotone(t1, t2, 1000);
}

/// `a` moved to [`WIDE_MAX`] when it lies above.
pub open spec fn clamp_wide(a: int) -> int {
    if a > WIDE_MAX {
        WIDE_MAX as int
    } else {
        a
    }
}

/// The binary logarithm of a number of up to 128 bits, in units of
/// `10^-15`; arguments above [`WIDE_MAX`] count as that bound.
pub open spec fn fx_log2_wide_spec(a: int) -> int {
    fx_log2_spec(clamp_wide(a))
}

/// The natural logarithm of a number of up to 128 bits.
pub open spec fn fx_ln_wide_spec(a: int) -> int {
    if a <= 0 {
        FIXED_MIN as int
    } else {
        fx_mul_spec(fx_log2_wide_spec(a), LN_2 as int)
    }
}

/// The binary logarithm of `a`; the lower bound of the range for `a <= 0`.
pub fn fx_log2(a: Fixed) -> (r: Fixed)
    ensures
        r == fx_log2_spec(a as int),
{
    fx_log2_wide(a as i128)
}

/// The natural logarithm of the wide number `a`; the lower bound of the
/// range for `a <= 0`.
pub fn fx_ln_wide(a: i128) -> (r: Fixed)
    ensures
        r == fx_ln_wide_spec(a as int),
{
    if a <= 0 {
        FIXED_MIN
    } else {
        fx_mul(fx_log2_wide(a), LN_2)
    }
}

/// The binary logarithm of the wide number `a`, which counts units of
/// `10^-15` like a [`Fixed`] but may be as large as [`WIDE_MAX`]; the lower
/// bound of the range for `a <= 0`.
pub fn fx_log2_wide(a: i128) -> (r: Fixed)
    ensures
        r == fx_log2_wide_spec(a as int),
{
    if a <= 0 {
        return FIXED_MIN;
    }
    let bounded: i128 = if a > WIDE_MAX {
        WIDE_MAX
    } else {
        a
    };
    let ghost y0: int = bounded * 1000;
    let mut y: u128 = bounded as u128 * 1000;
    proof {
        lemma2_to64();
        lemma2_to64_rest();
        lemma_halvings_bound(y0, 60);
        assert(y0 * pow2(50) >= WORK_ONE) by (nonlinear_arith)
            requires
                y0 >= 1000,
                pow2(50) == 0x4000000000000,
        ;
        lemma_doublings_bound(y0, 50);
    }
    let mut up: i64 = 0;
    while y >= 2 * WORK_ONE
        invariant
            0 < y <= y0,
            y0 < 2 * WORK_ONE * 0x1000_0000_0000_0000,
            0 <= up <= 60,
            0 <= halvings(y as int),
            up + halvings(y as int) == halvings(y0),
            halved(y as int) == halved(y0),
            halvings(y0) <= 60,
        decreases y,
    {
        proof {
            lemma2_to64_rest();
            lemma_halvings_bound(y as int / 2, 60);
        }
        y = y / 2;
        up = up + 1;
    }
    let mut down: i64 = 0;
    proof {
        if y0 >= WORK_ONE {
            assert(doublings(y0) == 0);
            assert(doublings(y as int) == 0);
        } else {
            assert(y == y0);
        }
        assert(y as int * pow2(50) >= WORK_ONE) by (nonlinear_arith)
            requires
                y >= WORK_ONE || y as int * pow2(50) >= WORK_ONE,
                pow2(50) == 0x4000000000000,
        ;
        lemma_doublings_bound(y as int, 50);
    }
    let ghost y1: int = y as int;
    while y < WORK_ONE
        invariant
            0 < y < 2 * WORK_ONE,
            0 <= down <= 50,
            0 <= doublings(y as int),
            down + doublings(y as int) == doublings(y1),
            doubled(y as int) == doubled(y1),
            doublings(y1) <= 50,
        decreases 2 * WORK_ONE - y,
    {
        proof {
            lemma_doublings_nonnegative(2 * y);
        }
        y = y * 2;
        down = down + 1;
    }
    proof {
        assert(halvings(y0) - doublings(y0) == up - down) by {
            if y0 >= WORK_ONE {
            } else {
                assert(y1 == y0);
            }
        }
        assert(doubled(halved(y0)) == y);
    }
    let mut weight: u128 = WORK_ONE;
    let mut fraction: u128 = 0;
    let mut step: u32 = 0;
    let ghost mantissa: int = y as int;
    proof {
        lemma_log2_fraction_bound(mantissa, WORK_ONE as int, LOG2_STEPS as nat);
    }
    while step < LOG2_STEPS
        invariant
            step <= LOG2_STEPS,
            WORK_ONE <= y < 2 * WORK_ONE,
            weight <= WORK_ONE,
            fraction + weight <= WORK_ONE,
            fraction + log2_fraction(y as int, weight as int, (LOG2_STEPS - step) as nat)
                == log2_fraction(mantissa, WORK_ONE as int, LOG2_STEPS as nat),
        decreases LOG2_STEPS - step,
    {
        assert(WORK_ONE * WORK_ONE <= y * y < 4 * WORK_ONE * WORK_ONE) by (nonlinear_arith)
            requires
                WORK_ONE <= y < 2 * WORK_ONE,
        ;
        let square: u128 = y * y / WORK_ONE;
        assert(WORK_ONE <= square < 4 * WORK_ONE) by (nonlinear_arith)
            requires
                square == y * y / (WORK_ONE as int),
                WORK_ONE * WORK_ONE <= y * y < 4 * WORK_ONE * WORK_ONE,
                WORK_ONE == 1_000_000_000_000_000_000,
        ;
        weight = weight / 2;
        if square >= 2 * WORK_ONE {
            y = square / 2;
            fraction = fraction + weight;
        } else {
            y = square;
        }
        step = step + 1;
    }
    let whole: i64 = up - down;
    assert(-50 * WORK_ONE <= whole * WORK_ONE <= 60 * WORK_ONE) by (nonlinear_arith)
        requires
            -50 <= whole <= 60,
    ;
    let total: i128 = whole as i128 * WORK_ONE as i128 + fraction as i128;
    let negative: bool = total < 0;
    let mag: u128 = if negative {
        (-total) as u128
    } else {
        total as u128
    };
    proof {
        assert(fraction == log2_fraction(mantissa, WORK_ONE as int, LOG2_STEPS as nat));
        assert(total == (halvings(y0) - doublings(y0)) * WORK_ONE + fraction);
        assert(-50 * WORK_ONE <= total <= 61 * WORK_ONE);
        let rounded = round_ratio(total as int, 1000);
        lemma_round_ratio_nearest(total as int, 1000);
        assert(-0x8000_0000_0000_0000 <= rounded <= 0x7fff_ffff_ffff_ffff);
    }
    round_ratio_saturating(negative, mag, 1000)
}

/// The natural logarithm of `a`; the lower bound of the range for `a <= 0`.
pub fn fx_ln(a: Fixed) -> (r: Fixed)
    ensures
        r == fx_ln_spec(a as int),
{
    if a <= 0 {
        FIXED_MIN
    } else {
        fx_mul(fx_log2(a), LN_2)
    }
}

} // verus!
