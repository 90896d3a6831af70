//! Fixed-point arithmetic for the layout engine.
//!
//! Every physical quantity is an `i64` holding the real value scaled by
//! `FP_SCALE` (one unit is `FP_SCALE` ticks). The helpers here perform the
//! widening multiplications, truncating divisions, clamps and the integer
//! square root that the force model and the integrator are built from, each
//! with an exact contract.

use vstd::prelude::*;

verus! {

/// Number of fixed-point ticks in one real unit.
pub const FP_SCALE: i64 = 1000;

/// Positions and velocities are clamped to this many ticks in magnitude.
pub const POS_LIMIT: i64 = 1_000_000_000_000;

/// Largest node mass, in ticks.
pub const MASS_LIMIT: i64 = 1_000_000_000;

/// Largest simulation parameter value, in ticks.
pub const PARAM_LIMIT: i64 = 1_000_000_000_000;

/// Largest time step, in ticks.
pub const DT_LIMIT: i64 = 1_000_000_000;

/// Per-axis force accumulators are clamped to this many ticks in magnitude.
pub const ACC_LIMIT: i64 = 1_000_000_000_000_000;

/// Raw force components are saturated to this many ticks in magnitude
/// before the per-step clamp to `force_max` is applied.
pub const FORCE_SAT: i64 = 2_000_000_000_000_000_000;

/// The velocity sum inside one integration step is saturated to this many
/// ticks in magnitude before damping; the damped velocity is then clamped
/// to `POS_LIMIT`, so the saturation is never visible in the outcome.
pub const VEL_SAT: i64 = 10_000_000_000_000_000;

/// `v` pulled into the interval `[lo, hi]`.
pub open spec fn spec_clamp(v: int, lo: int, hi: int) -> int {
    if v < lo {
        lo
    } else if v > hi {
        hi
    } else {
        v
    }
}

/// Clamp an `i64` to `[lo, hi]`.
pub fn clamp_i64(v: i64, lo: i64, hi: i64) -> (r: i64)
    requires
        lo <= hi,
    ensures
        r == spec_clamp(v as int, lo as int, hi as int),
{
    if v < lo {
        lo
    } else if v > hi {
        hi
    } else {
        v
    }
}

/// Clamp an `i128` into an `i64` interval `[lo, hi]`.
pub fn clamp_i128(v: i128, lo: i64, hi: i64) -> (r: i64)
    requires
        lo <= hi,
    ensures
        r == spec_clamp(v as int, lo as int, hi as int),
{
    if v < lo as i128 {
        lo
    } else if v > hi as i128 {
        hi
    } else {
        v as i64
    }
}

/// Exact product of two `i64` values, widened to `i128`.
pub fn wide_mul(a: i64, b: i64) -> (r: i128)
    ensures
        r == a * b,
        -0x4000_0000_0000_0000_0000_0000_0000_0000i128 <= r
            <= 0x4000_0000_0000_0000_0000_0000_0000_0000i128,
{
    proof {
        assert((a as int) * (b as int) <= 0x4000_0000_0000_0000_0000_0000_0000_0000int
            && (a as int) * (b as int) >= -0x4000_0000_0000_0000_0000_0000_0000_0000int)
            by (nonlinear_arith)
            requires
                -0x8000_0000_0000_0000int <= a as int <= 0x7fff_ffff_ffff_ffffint,
                -0x8000_0000_0000_0000int <= b as int <= 0x7fff_ffff_ffff_ffffint,
        ;
    }
    (a as i128) * (b as i128)
}

/// Product of two bounded `i128` values.
///
/// The bounds keep the exact product inside `i128`.
pub fn mul_i128(a: i128, b: i128) -> (r: i128)
    requires
        -1_000_000_000_000_000_000_000_000i128 <= a <= 1_000_000_000_000_000_000_000_000i128,
        -1_000_000_000_000i128 <= b <= 1_000_000_000_000i128,
    ensures
        r == a * b,
        -1_000_000_000_000_000_000_000_000_000_000_000_000i128 <= r
            <= 1_000_000_000_000_000_000_000_000_000_000_000_000i128,
{
    proof {
        assert((a as int) * (b as int) <= 1_000_000_000_000_000_000_000_000_000_000_000_000int
            && (a as int) * (b as int) >= -1_000_000_000_000_000_000_000_000_000_000_000_000int)
            by (nonlinear_arith)
            requires
                -1_000_000_000_000_000_000_000_000int <= a as int
                    <= 1_000_000_000_000_000_000_000_000int,
                -1_000_000_000_000int <= b as int <= 1_000_000_000_000int,
        ;
    }
    a * b
}

/// Quotient of `a / b` rounded toward zero, as exec division does.
///
/// For `b > 0` and `a >= 0` this is Euclidean division; for negative `a`
/// the magnitude is divided and the sign restored.
pub open spec fn spec_div_trunc(a: int, b: int) -> int {
    if a >= 0 {
        a / b
    } else {
        -((-a) / b)
    }
}

/// Divide a bounded `i128` by a positive `i128`, rounding toward zero.
pub fn div_trunc(a: i128, b: i128) -> (r: i128)
    requires
        b >= 1,
        -0x4000_0000_0000_0000_0000_0000_0000_0000i128 <= a
            <= 0x4000_0000_0000_0000_0000_0000_0000_0000i128,
    ensures
        r == spec_div_trunc(a as int, b as int),
        a >= 0 ==> 0 <= r <= a,
        a < 0 ==> a <= r <= 0,
{
    proof {
        lemma_div_trunc_bounds(a as int, b as int);
    }
    if a >= 0 {
        let q: u128 = (a as u128) / (b as u128);
        q as i128
    } else {
        let m: u128 = ((-a) as u128) / (b as u128);
        -(m as i128)
    }
}

/// The truncating quotient never grows in magnitude and keeps the sign.
pub proof fn lemma_div_trunc_bounds(a: int, b: int)
    requires
        b >= 1,
    ensures
        a >= 0 ==> 0 <= spec_div_trunc(a, b) <= a,
        a < 0 ==> a <= spec_div_trunc(a, b) <= 0,
{
    if a >= 0 {
        vstd::arithmetic::div_mod::lemma_div_pos_is_pos(a, b);
        vstd::arithmetic::div_mod::lemma_div_nonincreasing(a, b);
    } else {
        vstd::arithmetic::div_mod::lemma_div_pos_is_pos(-a, b);
        vstd::arithmetic::div_mod::lemma_div_nonincreasing(-a, b);
    }
}

/// The nonnegative integer square root: the unique `r >= 0` with
/// `r * r <= n < (r + 1) * (r + 1)`.
pub open spec fn spec_isqrt(n: int) -> int {
    choose|r: int| r >= 0 && #[trigger] (r * r) <= n && n < (r + 1) * (r + 1)
}

/// Every nonnegative integer has an integer square root.
pub proof fn lemma_isqrt_exists(n: int)
    requires
        n >= 0,
    ensures
        exists|r: int| r >= 0 && #[trigger] (r * r) <= n && n < (r + 1) * (r + 1),
    decreases n,
{
    if n == 0 {
        let r0: int = 0;
        assert(r0 * r0 == 0 && (r0 + 1) * (r0 + 1) == 1) by (nonlinear_arith)
            requires
                r0 == 0,
        ;
        assert(r0 >= 0 && r0 * r0 <= n && n < (r0 + 1) * (r0 + 1));
    } else {
        lemma_isqrt_exists(n - 1);
        let r = choose|r: int| r >= 0 && #[trigger] (r * r) <= n - 1 && n - 1 < (r + 1) * (r + 1);
        if (r + 1) * (r + 1) <= n {
            // then n == (r + 1) * (r + 1), and r + 1 is the root
            assert((r + 2) * (r + 2) > (r + 1) * (r + 1)) by (nonlinear_arith)
                requires
                    r >= 0,
            ;
            assert((r + 1) >= 0 && (r + 1) * (r + 1) <= n && n < (r + 2) * (r + 2));
        } else {
            assert(r >= 0 && r * r <= n && n < (r + 1) * (r + 1));
        }
    }
}

/// Any `r` satisfying the root bracketing is `spec_isqrt(n)`.
pub proof fn lemma_isqrt_is(n: int, r: int)
    requires
        n >= 0,
        r >= 0,
        r * r <= n,
        n < (r + 1) * (r + 1),
    ensures
        spec_isqrt(n) == r,
{
    lemma_isqrt_exists(n);
    let s = spec_isqrt(n);
    assert(s >= 0 && s * s <= n && n < (s + 1) * (s + 1));
    if s < r {
        assert((s + 1) * (s + 1) <= r * r) by (nonlinear_arith)
            requires
                s >= 0,
                r >= 0,
                s < r,
        ;
    }
    if r < s {
        assert((r + 1) * (r + 1) <= s * s) by (nonlinear_arith)
            requires
                s >= 0,
                r >= 0,
                r < s,
        ;
    }
}

/// Floor of the square root of a `u128`, by binary search.
pub fn isqrt_u128(n: u128) -> (r: u64)
    ensures
        r == spec_isqrt(n as int),
        (r as int) * (r as int) <= n as int,
        (n as int) < ((r as int) + 1) * ((r as int) + 1),
{
    let mut lo: u128 = 0;
    let mut hi: u128 = 0xffff_ffff_ffff_ffff;
    proof {
        assert((hi as int + 1) * (hi as int + 1) > u128::MAX as int) by (nonlinear_arith)
            requires
                hi as int == u64::MAX as int,
        ;
    }
    while lo < hi
        invariant
            0 <= lo <= hi <= 0xffff_ffff_ffff_ffffu128,
            (lo as int) * (lo as int) <= n as int,
            (n as int) < (hi as int + 1) * (hi as int + 1),
        decreases hi - lo,
    {
        let mid: u128 = lo + (hi - lo + 1) / 2;
        assert(lo < mid <= hi);
        proof {
            assert((mid as int) * (mid as int) <= u128::MAX as int) by (nonlinear_arith)
                requires
                    0 <= mid as int <= u64::MAX as int,
            ;
        }
        let sq: u128 = mid * mid;
        if sq <= n {
            lo = mid;
        } else {
            hi = mid - 1;
        }
    }
    proof {
        lemma_isqrt_is(n as int, lo as int);
    }
    lo as u64
}

} // verus!
