//! Fixed-point arithmetic for the selection scores.
//!
//! Scores are carried as integers scaled by `FP_ONE`.  The square
//! root is exact on integers; the logarithm is the classic shift-and-
//! square approximation, pinned here as a definite function so that
//! the selection contracts can name the score of every child exactly.

use vstd::prelude::*;

verus! {

/// Scale factor of the fixed-point representation.
pub const FP_ONE: u64 = 65536;

/// The natural logarithm of two in fixed-point units.
pub const LN2_FP: u64 = 45426;

/// Whether `r` is the integer square root of `x`.
pub open spec fn is_sqrt(x: int, r: int) -> bool {
    0 <= r && r * r <= x && (r + 1) * (r + 1) > x
}

/// The integer square root of `x`.
pub open spec fn sqrt_spec(x: int) -> int {
    choose|r: int| is_sqrt(x, r)
}

/// Any value with the square-root property is the square root.
pub proof fn lemma_sqrt_unique(x: int, r: int)
    requires
        0 <= r,
        r * r <= x,
        (r + 1) * (r + 1) > x,
    ensures
        sqrt_spec(x) == r,
{
    assert(is_sqrt(x, r));
    let c = sqrt_spec(x);
    assert(is_sqrt(x, c));
    if c < r {
        assert((c + 1) * (c + 1) <= r * r) by (nonlinear_arith)
            requires
                0 <= c,
                c < r,
        ;
        assert(false);
    }
    if c > r {
        assert((r + 1) * (r + 1) <= c * c) by (nonlinear_arith)
            requires
                0 <= r,
                r < c,
        ;
        assert(false);
    }
}

/// The integer square root, by bisection.
pub fn isqrt(x: u64) -> (r: u64)
    requires
        x < 0x4000_0000_0000_0000,
    ensures
        r * r <= x < (r + 1) * (r + 1),
        r == sqrt_spec(x as int),
{
    let mut lo: u64 = 0;
    let mut hi: u64 = 0x8000_0000;
    while lo + 1 < hi
        invariant
            lo < hi <= 0x8000_0000,
            (lo as int) * (lo as int) <= x as int,
            (hi as int) * (hi as int) > x as int,
        decreases hi - lo,
    {
        let mid = lo + (hi - lo) / 2;
        proof {
            assert((mid as int) * (mid as int) < 0x10000000000000000) by (nonlinear_arith)
                requires
                    mid < 0x80000000,
            ;
        }
        if mid * mid <= x {
            lo = mid;
        } else {
            hi = mid;
        }
    }
    proof {
        lemma_sqrt_unique(x as int, lo as int);
    }
    lo
}

/// The mantissa of `x` once halved into `[FP_ONE, 2 * FP_ONE)`.
pub open spec fn ln_mant(x: u64) -> u64
    decreases x,
{
    if x < 131072 {
        x
    } else {
        ln_mant((x / 2) as u64)
    }
}

/// How many halvings bring `x` into `[FP_ONE, 2 * FP_ONE)`.
pub open spec fn ln_shifts(x: u64) -> int
    decreases x,
{
    if x < 131072 {
        0
    } else {
        1 + ln_shifts((x / 2) as u64)
    }
}

/// The fractional part of the logarithm, by repeated squaring of the
/// mantissa, sixteen bits deep.
pub open spec fn ln_frac_spec(m: u64, i: u64) -> u64
    decreases 17 - i,
{
    if i > 16 {
        0
    } else {
        let m2 = ((m * m) / 65536) as u64;
        if m2 >= 131072 {
            ((LN2_FP >> i) + ln_frac_spec((m2 / 2) as u64, (i + 1) as u64)) as u64
        } else {
            ln_frac_spec(m2, (i + 1) as u64)
        }
    }
}

/// The fixed-point natural logarithm of the fixed-point value `x`.
pub open spec fn ln_fp_spec(x: u64) -> int {
    ln_shifts(x) * 45426 + ln_frac_spec(ln_mant(x), 1)
}

proof fn lemma_shr_half(x: u64, k: u64)
    by (bit_vector)
    requires
        k < 63,
    ensures
        (x >> k) / 2 == x >> (k + 1) as u64,
{
}

proof fn lemma_shr_small(x: u64, k: u64)
    by (bit_vector)
    requires
        x < 0x4000_0000_0000_0000,
        (x >> k) >= 131072,
    ensures
        k < 46,
{
}

fn ln_frac(m: u64, i: u64) -> (r: u64)
    requires
        65536 <= m < 131072,
        1 <= i <= 17,
    ensures
        r == ln_frac_spec(m, i),
        r <= 45426 * (17 - i),
    decreases 17 - i,
{
    if i > 16 {
        0
    } else {
        proof {
            assert(0x100000000 <= (m as int) * (m as int) < 0x400000000) by (nonlinear_arith)
                requires
                    65536 <= m < 131072,
            ;
        }
        let m2 = (m * m) / 65536;
        if m2 >= 131072 {
            let rest = ln_frac(m2 / 2, i + 1);
            proof {
                assert((LN2_FP >> i) <= 45426) by (bit_vector);
            }
            (LN2_FP >> i) + rest
        } else {
            ln_frac(m2, i + 1)
        }
    }
}

/// The fixed-point natural logarithm: `x` is a value scaled by
/// `FP_ONE` and at least one; the result is `ln` of it, scaled the
/// same way.
pub fn ln_fp(x: u64) -> (r: u64)
    requires
        65536 <= x < 0x4000_0000_0000_0000,
    ensures
        r == ln_fp_spec(x),
        r <= 46 * 45426 + 16 * 45426,
{
    let mut m: u64 = x;
    let mut k: u64 = 0;
    proof {
        assert(x >> 0u64 == x) by (bit_vector);
    }
    while m >= 131072
        invariant
            65536 <= m,
            x < 0x4000_0000_0000_0000,
            m == x >> k,
            k <= 46,
            ln_mant(m) == ln_mant(x),
            ln_shifts(x) == ln_shifts(m) + k,
        decreases m,
    {
        proof {
            lemma_shr_small(x, k);
            lemma_shr_half(x, k);
        }
        m = m / 2;
        k = k + 1;
    }
    let frac = ln_frac(m, 1);
    k * 45426 + frac
}

} // verus!
