//! Exact integer square roots.
//!
//! Distances in this crate are floor square roots of integer squared
//! distances. `isqrt` is the mathematical definition; `isqrt_u128` is the
//! executable binary search proved to match it.

use vstd::prelude::*;

verus! {

/// Floor of the square root of `x` (0 for negative arguments).
pub open spec fn isqrt(x: int) -> int
    decreases x,
{
    if x <= 0 {
        0
    } else {
        let r = isqrt(x - 1);
        if (r + 1) * (r + 1) <= x {
            r + 1
        } else {
            r
        }
    }
}

/// `isqrt(x)` is the unique nonnegative root: `isqrt(x)^2 <= x < (isqrt(x)+1)^2`.
pub proof fn lemma_isqrt_bounds(x: int)
    requires
        x >= 0,
    ensures
        0 <= isqrt(x),
        isqrt(x) * isqrt(x) <= x,
        x < (isqrt(x) + 1) * (isqrt(x) + 1),
    decreases x,
{
    if x == 0 {
    } else {
        lemma_isqrt_bounds(x - 1);
        let r = isqrt(x - 1);
        if (r + 1) * (r + 1) <= x {
            assert(x < (r + 2) * (r + 2)) by (nonlinear_arith)
                requires
                    x - 1 < (r + 1) * (r + 1),
                    r >= 0,
            ;
        }
    }
}

/// The larger of two integers.
pub open spec fn imax(a: int, b: int) -> int {
    if a >= b {
        a
    } else {
        b
    }
}

/// `isqrt` never goes negative.
pub proof fn lemma_isqrt_nonneg(x: int)
    ensures
        0 <= isqrt(x),
    decreases x,
{
    if x > 0 {
        lemma_isqrt_nonneg(x - 1);
    }
}

/// Any nonnegative `r` with `r^2 <= x < (r+1)^2` equals `isqrt(x)`.
pub proof fn lemma_isqrt_unique(x: int, r: int)
    requires
        x >= 0,
        r >= 0,
        r * r <= x,
        x < (r + 1) * (r + 1),
    ensures
        r == isqrt(x),
{
    lemma_isqrt_bounds(x);
    let s = isqrt(x);
    if r < s {
        assert((r + 1) * (r + 1) <= s * s) by (nonlinear_arith)
            requires
                0 <= r,
                r + 1 <= s,
        ;
    }
    if s < r {
        assert((s + 1) * (s + 1) <= r * r) by (nonlinear_arith)
            requires
                0 <= s,
                s + 1 <= r,
        ;
    }
}

/// Upper bound for the executable square-root search: 2^96.
pub const ISQRT_ARG_LIMIT: u128 = 0x1_0000_0000_0000_0000_0000_0000;

/// 2^48, an exclusive bound on `isqrt` of anything below `ISQRT_ARG_LIMIT`.
pub const ISQRT_LIMIT: u64 = 0x1_0000_0000_0000;

/// Floor square root by binary search.
pub fn isqrt_u128(x: u128) -> (r: u64)
    requires
        x < ISQRT_ARG_LIMIT,
    ensures
        r as int == isqrt(x as int),
        r < ISQRT_LIMIT,
{
    let mut lo: u64 = 0;
    let mut hi: u64 = ISQRT_LIMIT;
    assert((hi as int) * (hi as int) == ISQRT_ARG_LIMIT as int) by (nonlinear_arith)
        requires
            hi == ISQRT_LIMIT,
    ;
    while lo + 1 < hi
        invariant
            lo < hi,
            hi <= ISQRT_LIMIT,
            (lo as int) * (lo as int) <= x as int,
            (x as int) < (hi as int) * (hi as int),
        decreases hi - lo,
    {
        let mid: u64 = lo + (hi - lo) / 2;
        assert(lo < mid < hi);
        assert((mid as int) * (mid as int) < ISQRT_ARG_LIMIT as int) by (nonlinear_arith)
            requires
                0 <= mid < ISQRT_LIMIT,
        ;
        if (mid as u128) * (mid as u128) <= x {
            lo = mid;
        } else {
            hi = mid;
        }
    }
    proof {
        lemma_isqrt_unique(x as int, lo as int);
    }
    lo
}

} // verus!
