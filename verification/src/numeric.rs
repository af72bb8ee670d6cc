//! Small verified arithmetic helpers shared across the crate: saturating
//! operations with exact contracts, truncating division, integer square
//! root and floor logarithm.

use vstd::prelude::*;

verus! {

/// Mathematical clamp of an unbounded integer into the `i64` range.
pub open spec fn clamp_i64(x: int) -> int {
    if x > i64::MAX as int {
        i64::MAX as int
    } else if x < i64::MIN as int {
        i64::MIN as int
    } else {
        x
    }
}

/// Mathematical clamp of an unbounded integer into the `i32` range.
pub open spec fn clamp_i32(x: int) -> int {
    if x > i32::MAX as int {
        i32::MAX as int
    } else if x < i32::MIN as int {
        i32::MIN as int
    } else {
        x
    }
}

/// Saturating addition on `u64`.
pub fn sat_add_u64(a: u64, b: u64) -> (r: u64)
    ensures
        r == if a + b > u64::MAX as int { u64::MAX as int } else { a + b },
{
    if a <= u64::MAX - b {
        a + b
    } else {
        u64::MAX
    }
}

/// Saturating subtraction on `u32`, flooring at zero.
pub fn sat_sub_u32(a: u32, b: u32) -> (r: u32)
    ensures
        r == if a >= b { a - b } else { 0 },
{
    if a >= b {
        a - b
    } else {
        0
    }
}

/// Saturating addition on `i64` with an exact clamp contract.
pub fn sat_add_i64(a: i64, b: i64) -> (r: i64)
    ensures
        r == clamp_i64(a + b),
{
    let wide: i128 = a as i128 + b as i128;
    if wide > i64::MAX as i128 {
        i64::MAX
    } else if wide < i64::MIN as i128 {
        i64::MIN
    } else {
        wide as i64
    }
}

/// Division truncating toward zero, the rounding that machine division uses.
/// Unlike the Euclidean `/` of specifications, `div_trunc(-3, 2) == -1`.
pub open spec fn div_trunc(a: int, b: int) -> int
    recommends
        b > 0,
{
    if a >= 0 {
        a / b
    } else {
        -((-a) / b)
    }
}

/// Largest `r` with `r * r <= n`, defined by counting up.
pub open spec fn spec_isqrt(n: nat) -> nat
    decreases n,
{
    if n == 0 {
        0
    } else {
        let r = spec_isqrt((n - 1) as nat);
        if (r + 1) * (r + 1) <= n {
            r + 1
        } else {
            r
        }
    }
}

/// `spec_isqrt(n)` is exactly the integer square root of `n`.
pub proof fn lemma_isqrt_bounds(n: nat)
    ensures
        spec_isqrt(n) * spec_isqrt(n) <= n,
        n < (spec_isqrt(n) + 1) * (spec_isqrt(n) + 1),
    decreases n,
{
    if n > 0 {
        lemma_isqrt_bounds((n - 1) as nat);
        let r = spec_isqrt((n - 1) as nat);
        if (r + 1) * (r + 1) <= n {
            assert(spec_isqrt(n) == r + 1);
            assert((r + 1) * (r + 1) < (r + 2) * (r + 2)) by (nonlinear_arith);
        } else {
            assert(spec_isqrt(n) == r);
        }
    } else {
        assert(spec_isqrt(n) == 0);
        let s = spec_isqrt(n);
        assert(n < (s + 1) * (s + 1)) by (nonlinear_arith)
            requires
                s == 0,
                n == 0,
        ;
    }
}

/// A value in square-root position is pinned down by the two bounds alone.
pub proof fn lemma_isqrt_unique(n: nat, r: nat)
    requires
        r * r <= n,
        n < (r + 1) * (r + 1),
    ensures
        r == spec_isqrt(n),
{
    lemma_isqrt_bounds(n);
    let s = spec_isqrt(n);
    if r < s {
        assert((r + 1) * (r + 1) <= s * s) by (nonlinear_arith)
            requires
                r + 1 <= s,
        ;
    }
    if s < r {
        assert((s + 1) * (s + 1) <= r * r) by (nonlinear_arith)
            requires
                s + 1 <= r,
        ;
    }
}

/// Integer square root of a `u64`, by binary search.
pub fn isqrt_u64(n: u64) -> (r: u64)
    ensures
        r == spec_isqrt(n as nat),
{
    let mut lo: u64 = 0;
    let mut hi: u64 = if n < 0xFFFF_FFFF {
        n + 1
    } else {
        0x1_0000_0000
    };
    proof {
        if n < 0xFFFF_FFFF {
            assert((n as int) < (n + 1) * (n + 1)) by (nonlinear_arith);
        } else {
            assert((0x1_0000_0000 as int) * (0x1_0000_0000 as int) > u64::MAX as int)
                by (nonlinear_arith);
        }
    }
    while lo + 1 < hi
        invariant
            lo < hi,
            lo * lo <= n as int,
            (n as int) < hi * hi,
            hi <= 0x1_0000_0000,
        decreases hi - lo,
    {
        let mid: u64 = lo + (hi - lo) / 2;
        if mid <= 0xFFFF_FFFF {
            proof {
                assert((mid as int) * (mid as int) <= u64::MAX as int) by (nonlinear_arith)
                    requires
                        0 <= mid as int <= 0xFFFF_FFFF as int,
                        u64::MAX as int == 0xFFFF_FFFF_FFFF_FFFF as int,
                ;
            }
            if mid * mid <= n {
                lo = mid;
            } else {
                hi = mid;
            }
        } else {
            proof {
                assert((mid as int) * (mid as int) > n as int) by (nonlinear_arith)
                    requires
                        mid as int > 0xFFFF_FFFF as int,
                        n as int <= u64::MAX as int,
                        u64::MAX as int == 0xFFFF_FFFF_FFFF_FFFF as int,
                ;
            }
            hi = mid;
        }
    }
    proof {
        lemma_isqrt_unique(n as nat, lo as nat);
    }
    lo
}

/// Floor of the base-two logarithm, with `spec_log2(0) == 0`.
pub open spec fn spec_log2(n: nat) -> nat
    decreases n,
{
    if n < 2 {
        0
    } else {
        1 + spec_log2(n / 2)
    }
}

/// Two to the power `k`.
pub open spec fn pow2_nat(k: nat) -> nat
    decreases k,
{
    if k == 0 {
        1
    } else {
        2 * pow2_nat((k - 1) as nat)
    }
}

/// Anything below a power of two has a floor logarithm below its exponent.
pub proof fn lemma_log2_le(n: nat, k: nat)
    requires
        n < pow2_nat(k),
    ensures
        spec_log2(n) <= k,
    decreases n,
{
    if n >= 2 {
        if k == 0 {
            assert(pow2_nat(0) == 1);
        } else {
            assert(pow2_nat(k) == 2 * pow2_nat((k - 1) as nat));
            lemma_log2_le(n / 2, (k - 1) as nat);
        }
    }
}

/// Floor logarithm of a `usize` in base two, by repeated halving.
pub fn log2_usize(n: usize) -> (r: usize)
    ensures
        r == spec_log2(n as nat),
        r <= 64,
{
    proof {
        assert(pow2_nat(64) == 0x1_0000_0000_0000_0000) by {
            reveal_with_fuel(pow2_nat, 65);
        }
        lemma_log2_le(n as nat, 64);
    }
    let mut v: usize = n;
    let mut r: usize = 0;
    while v >= 2
        invariant
            r + spec_log2(v as nat) == spec_log2(n as nat),
            spec_log2(n as nat) <= 64,
        decreases v,
    {
        v = v / 2;
        r = r + 1;
    }
    r
}

} // verus!
