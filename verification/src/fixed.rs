//! Signed decimal fixed-point numbers.
//!
//! A [`Fixed`] is an `i64` that counts units of `10^-15`: the real number it
//! stands for is its value divided by [`ONE`]. Its range is roughly
//! `±9223.37`. Every operation is total: a result outside the range
//! saturates at the nearest bound, and a quotient that is not a whole number
//! of units is rounded to the nearest unit, ties away from zero.

use vstd::prelude::*;

verus! {

/// A fixed-point number, in units of `10^-15`.
pub type Fixed = i64;

/// The number one.
pub const ONE: i64 = 1_000_000_000_000_000;

/// The largest number a [`Fixed`] can hold; also the result of any overflow
/// upward.
pub const FIXED_MAX: i64 = 0x7fff_ffff_ffff_ffff;

/// The smallest number a [`Fixed`] can hold; also the result of any overflow
/// downward.
pub const FIXED_MIN: i64 = -0x8000_0000_0000_0000;

/// `v` moved to the nearest bound of the `i64` range when it lies outside.
pub open spec fn clamp(v: int) -> int {
    if v < FIXED_MIN {
        FIXED_MIN as int
    } else if v > FIXED_MAX {
        FIXED_MAX as int
    } else {
        v
    }
}

/// The integer nearest to `n / d` for positive `d`, ties away from zero.
pub open spec fn round_ratio(n: int, d: int) -> int {
    if n >= 0 {
        (2 * n + d) / (2 * d)
    } else {
        -((2 * (-n) + d) / (2 * d))
    }
}

/// The integer nearest to `n / d` for any nonzero `d`.
pub open spec fn round_quotient(n: int, d: int) -> int {
    if d > 0 {
        round_ratio(n, d)
    } else {
        round_ratio(-n, -d)
    }
}

/// Sum of two fixed-point numbers.
pub open spec fn fx_add_spec(a: int, b: int) -> int {
    clamp(a + b)
}

/// Difference of two fixed-point numbers.
pub open spec fn fx_sub_spec(a: int, b: int) -> int {
    clamp(a - b)
}

/// Product of two fixed-point numbers.
pub open spec fn fx_mul_spec(a: int, b: int) -> int {
    clamp(round_ratio(a * b, ONE as int))
}

/// Quotient of two fixed-point numbers. Dividing by zero gives the bound on
/// the side of the dividend, and zero for a zero dividend.
pub open spec fn fx_div_spec(a: int, b: int) -> int {
    if b == 0 {
        if a > 0 {
            FIXED_MAX as int
        } else if a < 0 {
            FIXED_MIN as int
        } else {
            0
        }
    } else {
        clamp(round_quotient(a * ONE, b))
    }
}

/// The fixed-point number nearest to the rational `n / d`, by the rules of
/// [`fx_div_spec`] for a zero `d`.
pub open spec fn fx_ratio_spec(n: int, d: int) -> int {
    fx_div_spec(n, d)
}

/// The fixed-point number `a` divided by the whole number `n`, by the rules
/// of [`fx_div_spec`] for a zero `n`.
pub open spec fn fx_div_int_spec(a: int, n: int) -> int {
    if n == 0 {
        if a > 0 {
            FIXED_MAX as int
        } else if a < 0 {
            FIXED_MIN as int
        } else {
            0
        }
    } else {
        clamp(round_quotient(a, n))
    }
}

/// The fixed-point number `a` times the whole number `n`.
pub open spec fn fx_mul_int_spec(a: int, n: int) -> int {
    clamp(a * n)
}

/// The fixed-point number `a` multiplied by itself `n` times, starting from
/// one, each product rounded.
pub open spec fn fx_powi_spec(a: int, n: nat) -> int
    decreases n,
{
    if n == 0 {
        ONE as int
    } else {
        fx_mul_spec(fx_powi_spec(a, (n - 1) as nat), a)
    }
}

/// The fixed-point number `a` raised to the whole power `n`: for a negative
/// `n`, one over `a` raised to the power `-n`.
pub open spec fn fx_powi_signed_spec(a: int, n: int) -> int {
    if n >= 0 {
        fx_powi_spec(a, n as nat)
    } else {
        fx_div_spec(ONE as int, fx_powi_spec(a, (-n) as nat))
    }
}

/// Absolute value of `v`.
pub open spec fn abs_int(v: int) -> int {
    if v < 0 {
        -v
    } else {
        v
    }
}

/// [`round_ratio`] is odd in its dividend, keeps the dividend's sign, and
/// differs from the exact quotient by at most one half.
pub proof fn lemma_round_ratio_nearest(n: int, d: int)
    requires
        d > 0,
    ensures
        round_ratio(-n, d) == -round_ratio(n, d),
        n >= 0 ==> round_ratio(n, d) >= 0,
        n <= 0 ==> round_ratio(n, d) <= 0,
        -d <= 2 * (n - d * round_ratio(n, d)) <= d,
{
    let m: int = if n >= 0 {
        n
    } else {
        -n
    };
    let q: int = (2 * m + d) / (2 * d);
    assert(q >= 0 && -d <= 2 * (m - d * q) <= d) by (nonlinear_arith)
        requires
            q == (2 * m + d) / (2 * d),
            m >= 0,
            d > 0,
    ;
    if n == 0 {
        assert(q == 0) by (nonlinear_arith)
            requires
                q == (2 * m + d) / (2 * d),
                m == 0,
                d > 0,
        ;
    }
    assert(d * (-q) == -(d * q)) by (nonlinear_arith);
}

/// Rounded division keeps the order of the dividends.
pub proof fn lemma_round_ratio_monotone(n1: int, n2: int, d: int)
    requires
        d > 0,
        n1 <= n2,
    ensures
        round_ratio(n1, d) <= round_ratio(n2, d),
{
    lemma_round_ratio_nearest(n1, d);
    lemma_round_ratio_nearest(n2, d);
    let r1 = round_ratio(n1, d);
    let r2 = round_ratio(n2, d);
    if n1 < n2 && r1 > r2 {
        assert(d * r1 >= d * r2 + d) by (nonlinear_arith)
            requires
                r1 >= r2 + 1,
                d > 0,
        ;
    }
}

/// Rounded division is unchanged when dividend and divisor are multiplied
/// by the same positive number.
pub proof fn lemma_round_ratio_scaled(n: int, d: int, c: int)
    requires
        d > 0,
        c > 0,
    ensures
        round_ratio(c * n, c * d) == round_ratio(n, d),
{
    let m: int = if n >= 0 {
        n
    } else {
        -n
    };
    let q = (2 * m + d) / (2 * d);
    let r = (2 * m + d) % (2 * d);
    vstd::arithmetic::div_mod::lemma_fundamental_div_mod(2 * m + d, 2 * d);
    vstd::arithmetic::div_mod::lemma_mod_bound(2 * m + d, 2 * d);
    assert(2 * (c * m) + c * d == q * (2 * (c * d)) + c * r) by (nonlinear_arith)
        requires
            2 * m + d == (2 * d) * q + r,
    ;
    assert(0 <= c * r < 2 * (c * d)) by (nonlinear_arith)
        requires
            0 <= r < 2 * d,
            c > 0,
    ;
    vstd::arithmetic::div_mod::lemma_fundamental_div_mod_converse(
        2 * (c * m) + c * d,
        2 * (c * d),
        q,
        c * r,
    );
    assert(c * d > 0) by (nonlinear_arith)
        requires
            c > 0,
            d > 0,
    ;
    if n >= 0 {
        assert(c * n >= 0) by (nonlinear_arith)
            requires
                c > 0,
                n >= 0,
        ;
    } else {
        assert(c * n < 0) by (nonlinear_arith)
            requires
                c > 0,
                n < 0,
        ;
        assert(-(c * n) == c * m) by (nonlinear_arith)
            requires
                m == -n,
        ;
    }
}

/// A whole multiple of the divisor is divided without rounding.
pub proof fn lemma_round_ratio_exact(m: int, d: int)
    requires
        d > 0,
    ensures
        round_ratio(m * d, d) == m,
{
    let a: int = if m >= 0 {
        m
    } else {
        -m
    };
    assert(2 * (a * d) + d == a * (2 * d) + d) by (nonlinear_arith);
    assert(a * d >= 0) by (nonlinear_arith)
        requires
            a >= 0,
            d > 0,
    ;
    vstd::arithmetic::div_mod::lemma_fundamental_div_mod_converse(2 * (a * d) + d, 2 * d, a, d);
    if m >= 0 {
    } else {
        assert(m * d == -(a * d)) by (nonlinear_arith)
            requires
                a == -m,
        ;
        if a * d == 0 {
            assert(d == 0 || a == 0) by (nonlinear_arith)
                requires
                    a * d == 0,
            ;
        } else {
            assert(m * d < 0);
        }
    }
}

/// The magnitude of an `i64` as a `u128`.
pub fn magnitude(a: i64) -> (m: u128)
    ensures
        m == abs_int(a as int),
{
    if a >= 0 {
        a as u128
    } else {
        let wide: i128 = a as i128;
        (-wide) as u128
    }
}

/// Rounded division of a nonnegative dividend from whole quotient and
/// remainder: the quotient, and one more where twice the remainder reaches
/// the divisor.
pub proof fn lemma_round_ratio_by_parts(m: int, d: int)
    requires
        m >= 0,
        d > 0,
    ensures
        round_ratio(m, d) == m / d + (if 2 * (m % d) >= d {
            1int
        } else {
            0int
        }),
        0 <= m / d <= m,
        0 <= m % d < d,
{
    let whole = m / d;
    let rest = m % d;
    vstd::arithmetic::div_mod::lemma_fundamental_div_mod(m, d);
    vstd::arithmetic::div_mod::lemma_mod_bound(m, d);
    vstd::arithmetic::div_mod::lemma_div_pos_is_pos(m, d);
    let up = 2 * rest >= d;
    let q = if up {
        whole + 1
    } else {
        whole
    };
    let r2 = if up {
        2 * rest - d
    } else {
        2 * rest + d
    };
    assert(2 * m + d == q * (2 * d) + r2) by (nonlinear_arith)
        requires
            m == d * whole + rest,
            q == if up { whole + 1 } else { whole },
            r2 == if up { 2 * rest - d } else { 2 * rest + d },
    ;
    vstd::arithmetic::div_mod::lemma_fundamental_div_mod_converse(2 * m + d, 2 * d, q, r2);
    assert(d * whole >= whole) by (nonlinear_arith)
        requires
            d >= 1,
            whole >= 0,
    ;
}

/// The nearest integer to `±mag / d`, saturated to the `i64` range.
pub fn round_ratio_saturating(negative: bool, mag: u128, d: u128) -> (r: i64)
    requires
        0 < d <= 0x8000_0000_0000_0000_0000_0000_0000_0000,
    ensures
        r == clamp(round_ratio(if negative { -(mag as int) } else { mag as int }, d as int)),
{
    let whole: u128 = mag / d;
    let rest: u128 = mag % d;
    let up: bool = rest >= d - rest;
    proof {
        lemma_round_ratio_by_parts(mag as int, d as int);
        lemma_round_ratio_nearest(mag as int, d as int);
    }
    if up {
        if negative {
            if whole >= 0x7fff_ffff_ffff_ffff {
                FIXED_MIN
            } else {
                let s: i64 = (whole + 1) as i64;
                -s
            }
        } else {
            if whole >= 0x7fff_ffff_ffff_ffff {
                FIXED_MAX
            } else {
                (whole + 1) as i64
            }
        }
    } else {
        if negative {
            if whole >= 0x8000_0000_0000_0000 {
                FIXED_MIN
            } else {
                let s: i64 = whole as i64;
                -s
            }
        } else {
            if whole > 0x7fff_ffff_ffff_ffff {
                FIXED_MAX
            } else {
                whole as i64
            }
        }
    }
}

/// The nearest integer to `mag / d`, for numbers of up to 127 bits.
pub fn round_ratio_wide(mag: u128, d: u128) -> (r: u128)
    requires
        0 < d <= 0x8000_0000_0000_0000_0000_0000_0000_0000,
        mag <= 0x8000_0000_0000_0000_0000_0000_0000_0000,
    ensures
        r == round_ratio(mag as int, d as int),
{
    let whole: u128 = mag / d;
    let rest: u128 = mag % d;
    proof {
        lemma_round_ratio_by_parts(mag as int, d as int);
    }
    if rest >= d - rest {
        whole + 1
    } else {
        whole
    }
}

/// The quotient of a wide dividend `n` and a divisor `d` that is not
/// negative, as a fixed-point number: rounded to the nearest unit and
/// saturated; for a zero divisor the bound on the side of the dividend.
pub open spec fn wide_quotient_spec(n: int, d: int) -> int {
    if d == 0 {
        if n > 0 {
            FIXED_MAX as int
        } else if n < 0 {
            FIXED_MIN as int
        } else {
            0
        }
    } else {
        clamp(round_ratio(n, d))
    }
}

/// The quotient `±mag / d` as a fixed-point number; see
/// [`wide_quotient_spec`].
pub fn wide_quotient(negative: bool, mag: u128, d: u128) -> (r: Fixed)
    requires
        d <= 0x8000_0000_0000_0000_0000_0000_0000_0000,
    ensures
        r == wide_quotient_spec(if negative { -(mag as int) } else { mag as int }, d as int),
{
    if d == 0 {
        if mag == 0 {
            0
        } else if negative {
            FIXED_MIN
        } else {
            FIXED_MAX
        }
    } else {
        round_ratio_saturating(negative, mag, d)
    }
}

/// Adds two fixed-point numbers, saturating at the bounds.
pub fn fx_add(a: Fixed, b: Fixed) -> (r: Fixed)
    ensures
        r == fx_add_spec(a as int, b as int),
{
    let wide: i128 = a as i128 + b as i128;
    if wide > FIXED_MAX as i128 {
        FIXED_MAX
    } else if wide < FIXED_MIN as i128 {
        FIXED_MIN
    } else {
        wide as i64
    }
}

/// Subtracts `b` from `a`, saturating at the bounds.
pub fn fx_sub(a: Fixed, b: Fixed) -> (r: Fixed)
    ensures
        r == fx_sub_spec(a as int, b as int),
{
    let wide: i128 = a as i128 - b as i128;
    if wide > FIXED_MAX as i128 {
        FIXED_MAX
    } else if wide < FIXED_MIN as i128 {
        FIXED_MIN
    } else {
        wide as i64
    }
}

/// The negation of `a`; the lower bound negates to the upper bound.
pub fn fx_neg(a: Fixed) -> (r: Fixed)
    ensures
        r == clamp(-(a as int)),
{
    if a == FIXED_MIN {
        FIXED_MAX
    } else {
        -a
    }
}

/// The absolute value of `a`; the lower bound gives the upper bound.
pub fn fx_abs(a: Fixed) -> (r: Fixed)
    ensures
        r == clamp(abs_int(a as int)),
{
    if a >= 0 {
        a
    } else {
        fx_neg(a)
    }
}

/// Multiplies two fixed-point numbers, rounding to the nearest unit and
/// saturating at the bounds.
pub fn fx_mul(a: Fixed, b: Fixed) -> (r: Fixed)
    ensures
        r == fx_mul_spec(a as int, b as int),
{
    let ma: u128 = magnitude(a);
    let mb: u128 = magnitude(b);
    assert(ma * mb <= 0x4000_0000_0000_0000_0000_0000_0000_0000) by (nonlinear_arith)
        requires
            ma <= 0x8000_0000_0000_0000,
            mb <= 0x8000_0000_0000_0000,
    ;
    let negative: bool = (a < 0) != (b < 0);
    let mag: u128 = ma * mb;
    proof {
        let ai = a as int;
        let bi = b as int;
        assert(abs_int(ai) * abs_int(bi) == abs_int(ai * bi)) by (nonlinear_arith);
        assert(negative ==> ai * bi <= 0) by (nonlinear_arith)
            requires
                negative == ((ai < 0) != (bi < 0)),
        ;
        assert(!negative ==> ai * bi >= 0) by (nonlinear_arith)
            requires
                negative == ((ai < 0) != (bi < 0)),
        ;
    }
    round_ratio_saturating(negative, mag, ONE as u128)
}

/// Divides `a` by `b`, rounding to the nearest unit and saturating at the
/// bounds; see [`fx_div_spec`] for a zero divisor.
pub fn fx_div(a: Fixed, b: Fixed) -> (r: Fixed)
    ensures
        r == fx_div_spec(a as int, b as int),
{
    if b == 0 {
        if a > 0 {
            FIXED_MAX
        } else if a < 0 {
            FIXED_MIN
        } else {
            0
        }
    } else {
        let ma: u128 = magnitude(a);
        let mb: u128 = magnitude(b);
        assert(ma * (ONE as u128) <= 0x4000_0000_0000_0000_0000_0000_0000_0000)
            by (nonlinear_arith)
            requires
                ma <= 0x8000_0000_0000_0000,
                ONE == 1_000_000_000_000_000,
        ;
        let negative: bool = (a < 0) != (b < 0);
        let mag: u128 = ma * (ONE as u128);
        proof {
            let ai = a as int;
            assert(abs_int(ai) * ONE == abs_int(ai * ONE)) by (nonlinear_arith);
            assert(ai < 0 ==> ai * ONE < 0) by (nonlinear_arith);
            assert(ai >= 0 ==> ai * ONE >= 0) by (nonlinear_arith);
            assert(-(ai * ONE) == (-ai) * ONE) by (nonlinear_arith);
        }
        round_ratio_saturating(negative, mag, mb)
    }
}

/// The fixed-point number that stands for the whole number `n`.
pub fn fx_from_int(n: i64) -> (r: Fixed)
    ensures
        r == clamp(n as int * ONE),
{
    assert(-0x8000_0000_0000_0000 * 1_000_000_000_000_000 <= n * ONE
        <= 0x8000_0000_0000_0000 * 1_000_000_000_000_000) by (nonlinear_arith)
        requires
            -0x8000_0000_0000_0000 <= n <= 0x8000_0000_0000_0000,
            ONE == 1_000_000_000_000_000,
    ;
    let wide: i128 = n as i128 * ONE as i128;
    if wide > FIXED_MAX as i128 {
        FIXED_MAX
    } else if wide < FIXED_MIN as i128 {
        FIXED_MIN
    } else {
        wide as i64
    }
}

/// The fixed-point number nearest to `n / d`.
pub fn fx_ratio(n: i64, d: i64) -> (r: Fixed)
    ensures
        r == fx_ratio_spec(n as int, d as int),
{
    fx_div(n, d)
}

/// Divides `a` by the whole number `n`, rounding to the nearest unit; see
/// [`fx_div_int_spec`] for a zero `n`.
pub fn fx_div_int(a: Fixed, n: i64) -> (r: Fixed)
    ensures
        r == fx_div_int_spec(a as int, n as int),
{
    if n == 0 {
        if a > 0 {
            FIXED_MAX
        } else if a < 0 {
            FIXED_MIN
        } else {
            0
        }
    } else {
        let negative: bool = (a < 0) != (n < 0);
        round_ratio_saturating(negative, magnitude(a), magnitude(n))
    }
}

/// Multiplies `a` by the whole number `n`, saturating at the bounds.
pub fn fx_mul_int(a: Fixed, n: i64) -> (r: Fixed)
    ensures
        r == fx_mul_int_spec(a as int, n as int),
{
    assert(-0x8000_0000_0000_0000 * 0x8000_0000_0000_0000 <= a * n <= 0x8000_0000_0000_0000
        * 0x8000_0000_0000_0000) by (nonlinear_arith)
        requires
            -0x8000_0000_0000_0000 <= a <= 0x8000_0000_0000_0000,
            -0x8000_0000_0000_0000 <= n <= 0x8000_0000_0000_0000,
    ;
    let wide: i128 = a as i128 * n as i128;
    if wide > FIXED_MAX as i128 {
        FIXED_MAX
    } else if wide < FIXED_MIN as i128 {
        FIXED_MIN
    } else {
        wide as i64
    }
}

/// `a` raised to the whole power `n` by repeated multiplication.
pub fn fx_powi(a: Fixed, n: u32) -> (r: Fixed)
    ensures
        r == fx_powi_spec(a as int, n as nat),
{
    let mut r: Fixed = ONE;
    let mut i: u32 = 0;
    while i < n
        invariant
            i <= n,
            r == fx_powi_spec(a as int, i as nat),
        decreases n - i,
    {
        r = fx_mul(r, a);
        i += 1;
    }
    r
}

/// `a` raised to the whole power `n`, which may be negative.
pub fn fx_powi_signed(a: Fixed, n: i32) -> (r: Fixed)
    ensures
        r == fx_powi_signed_spec(a as int, n as int),
{
    if n >= 0 {
        fx_powi(a, n as u32)
    } else {
        let positive: u32 = (-(n as i64)) as u32;
        fx_div(ONE, fx_powi(a, positive))
    }
}

} // verus!
