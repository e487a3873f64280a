//! Truncated integer square root.
use vstd::prelude::*;

verus! {

/// The truncated square root of `n` (0 for a negative `n`), built up one
/// integer at a time.
pub open spec fn isqrt(n: int) -> int
    decreases n,
{
    if n <= 0 {
        0
    } else {
        let r = isqrt(n - 1);
        if (r + 1) * (r + 1) <= n {
            r + 1
        } else {
            r
        }
    }
}

/// `r` is the largest natural number whose square does not exceed `n`.
pub open spec fn is_root_of(n: int, r: int) -> bool {
    0 <= r && r * r <= n && n < (r + 1) * (r + 1)
}

/// The recursive definition meets the characterisation by squares.
pub proof fn lemma_isqrt_is_root(n: int)
    requires
        n >= 0,
    ensures
        is_root_of(n, isqrt(n)),
    decreases n,
{
    if n > 0 {
        lemma_isqrt_is_root(n - 1);
        let r = isqrt(n - 1);
        if (r + 1) * (r + 1) <= n {
            assert(n < (r + 2) * (r + 2)) by (nonlinear_arith)
                requires
                    n - 1 < (r + 1) * (r + 1),
                    r >= 0,
            ;
        }
    }
}

/// At most one natural number is the root of `n`.
pub proof fn lemma_root_unique(n: int, r: int, s: int)
    requires
        is_root_of(n, r),
        is_root_of(n, s),
    ensures
        r == s,
{
    if r < s {
        assert((r + 1) * (r + 1) <= s * s) by (nonlinear_arith)
            requires
                0 <= r,
                r + 1 <= s,
        ;
    } else if s < r {
        assert((s + 1) * (s + 1) <= r * r) by (nonlinear_arith)
            requires
                0 <= s,
                s + 1 <= r,
        ;
    }
}

/// A number has exactly the root that `isqrt` gives it.
pub proof fn lemma_isqrt_exact(n: int, r: int)
    requires
        is_root_of(n, r),
    ensures
        isqrt(n) == r,
{
    lemma_isqrt_is_root(n);
    lemma_root_unique(n, r, isqrt(n));
}

/// The root of a byte is at most 15.
pub proof fn lemma_isqrt_of_byte(n: int)
    requires
        0 <= n <= 256,
    ensures
        0 <= isqrt(n) <= 16,
        n <= 255 ==> isqrt(n) <= 15,
{
    lemma_isqrt_is_root(n);
    let r = isqrt(n);
    if r > 16 {
        assert(r * r > 256) by (nonlinear_arith)
            requires
                r > 16,
        ;
    }
    if n <= 255 && r > 15 {
        assert(r * r >= 256) by (nonlinear_arith)
            requires
                r >= 16,
        ;
    }
}

/// The square root of `n`, truncated toward zero.
pub fn floor_sqrt(n: u8) -> (r: u8)
    ensures
        r as int == isqrt(n as int),
        is_root_of(n as int, r as int),
{
    let mut r: u32 = 0;
    while (r + 1) * (r + 1) <= n as u32
        invariant
            r * r <= n as u32,
            r <= 15,
            (r + 1) * (r + 1) <= 256,
        decreases 16 - r,
    {
        r = r + 1;
        assert(r <= 15) by (nonlinear_arith)
            requires
                r * r <= 255,
        ;
        assert((r + 1) * (r + 1) <= 256) by (nonlinear_arith)
            requires
                r <= 15,
        ;
    }
    proof {
        lemma_isqrt_exact(n as int, r as int);
    }
    r as u8
}

} // verus!
