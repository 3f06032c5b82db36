//! Square root of a fixed-point number.

use crate::fixed::{Fixed, ONE};
use vstd::prelude::*;

verus! {

/// `r` is the integer square root of `n`, rounded down.
pub open spec fn is_floor_sqrt(n: int, r: int) -> bool {
    r >= 0 && r * r <= n < (r + 1) * (r + 1)
}

/// The square root of the fixed-point number `a`, rounded down to a whole
/// number of units; zero for a negative `a`.
pub open spec fn fx_sqrt_spec(a: int) -> int {
    if a <= 0 {
        0
    } else {
        choose|r: int| #[trigger] is_floor_sqrt(a * ONE, r)
    }
}

/// A number has at most one integer square root.
pub proof fn lemma_floor_sqrt_unique(n: int, r: int, s: int)
    requires
        is_floor_sqrt(n, r),
        is_floor_sqrt(n, s),
    ensures
        r == s,
{
    if r < s {
        assert((r + 1) * (r + 1) <= s * s) by (nonlinear_arith)
            requires
                0 <= r + 1 <= s,
        ;
    } else if s < r {
        assert((s + 1) * (s + 1) <= r * r) by (nonlinear_arith)
            requires
                0 <= s + 1 <= r,
        ;
    }
}

/// The largest wide number of which the square root is taken: `10^8`, in
/// units of `10^-15`.
pub const SQRT_WIDE_MAX: u128 = 100_000_000_000_000_000_000_000;

/// The square root of the wide number `a`, which counts units of `10^-15`
/// and is at most [`SQRT_WIDE_MAX`], rounded down to a whole number of
/// units.
pub fn fx_sqrt_wide(a: u128) -> (r: u128)
    requires
        a <= SQRT_WIDE_MAX,
    ensures
        r == fx_sqrt_spec(a as int),
        a > 0 ==> is_floor_sqrt(a * ONE, r as int),
        r <= 0xffff_ffff_ffff_ffff,
{
    if a == 0 {
        return 0;
    }
    assert(0 < a * ONE <= 100_000_000_000_000_000_000_000_000_000_000_000_000)
        by (nonlinear_arith)
        requires
            0 < a <= 100_000_000_000_000_000_000_000,
            ONE == 1_000_000_000_000_000,
    ;
    let n: u128 = a * (ONE as u128);
    let mut lo: u128 = 0;
    let mut hi: u128 = 0xffff_ffff_ffff_ffff;
    assert(hi * hi > n) by (nonlinear_arith)
        requires
            hi == 0xffff_ffff_ffff_ffff,
            n <= 100_000_000_000_000_000_000_000_000_000_000_000_000,
    ;
    while hi - lo > 1
        invariant
            lo < hi <= 0xffff_ffff_ffff_ffff,
            lo * lo <= n < hi * hi,
        decreases hi - lo,
    {
        let mid: u128 = lo + (hi - lo) / 2;
        assert(mid * mid <= 0xffff_ffff_ffff_ffff * 0xffff_ffff_ffff_ffff) by (nonlinear_arith)
            requires
                mid <= 0xffff_ffff_ffff_ffff,
        ;
        if mid * mid <= n {
            lo = mid;
        } else {
            hi = mid;
        }
    }
    proof {
        assert(is_floor_sqrt(a * ONE, lo as int));
        lemma_floor_sqrt_unique(a * ONE, lo as int, fx_sqrt_spec(a as int));
    }
    lo
}

/// The square root of `a`, rounded down to a whole number of units; zero for
/// a negative `a`.
pub fn fx_sqrt(a: Fixed) -> (r: Fixed)
    ensures
        r == fx_sqrt_spec(a as int),
        a <= 0 ==> r == 0,
        a > 0 ==> is_floor_sqrt(a * ONE, r as int),
{
    if a <= 0 {
        return 0;
    }
    let r: u128 = fx_sqrt_wide(a as u128);
    proof {
        if r >= 0x8000_0000_0000_0000 {
            assert(r * r >= 0x8000_0000_0000_0000 * 0x8000_0000_0000_0000) by (nonlinear_arith)
                requires
                    r >= 0x8000_0000_0000_0000,
            ;
            assert(a * ONE < 0x8000_0000_0000_0000 * 0x8000_0000_0000_0000) by (nonlinear_arith)
                requires
                    0 < a <= 0x7fff_ffff_ffff_ffff,
                    ONE == 1_000_000_000_000_000,
            ;
        }
    }
    r as i64
}

} // verus!
