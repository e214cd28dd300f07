//! Fixed-point arithmetic for the UCB1 selection priority.
//!
//! Priorities are rational approximations expressed in units of `1/SCALE`.
//! The module provides an exact integer square root and a fixed-point
//! natural logarithm (binary logarithm by repeated squaring of the
//! mantissa, rescaled by `ln 2`).

use vstd::prelude::*;
use vstd::arithmetic::power2::{pow2, lemma2_to64, lemma2_to64_rest, lemma_pow2_unfold,
    lemma_pow2_strictly_increases};

verus! {

/// Fixed-point scale: one unit is `1/SCALE` (`SCALE` is `2^20`).
pub const SCALE: u64 = 1048576;

/// `ln(2) * SCALE`, rounded down.
pub const LN2_SCALED: u64 = 726817;

/// `sqrt(2) * SCALE`, rounded down: the default exploration constant.
pub const DEFAULT_BIAS: u64 = 1482910;

/// Largest exploration constant a game may declare (`2^32`).
pub const BIAS_MAX: u64 = 4294967296;

/// Largest visit counter a playout may start from (`2^62`): keeps every
/// counter and win accumulator clear of overflow.
pub const VISITS_MAX: u64 = 4611686018427387904;

/// The integer square root, rounded down.
pub open spec fn spec_isqrt(x: int) -> int
    decreases x when x >= 0
{
    if x <= 0 {
        0
    } else {
        let r = spec_isqrt(x - 1);
        if (r + 1) * (r + 1) <= x {
            r + 1
        } else {
            r
        }
    }
}

pub proof fn lemma_isqrt_bounds(x: int)
    requires
        x >= 0,
    ensures
        0 <= spec_isqrt(x),
        spec_isqrt(x) * spec_isqrt(x) <= x,
        x < (spec_isqrt(x) + 1) * (spec_isqrt(x) + 1),
    decreases x
{
    if x > 0 {
        lemma_isqrt_bounds(x - 1);
        let r = spec_isqrt(x - 1);
        if (r + 1) * (r + 1) <= x {
            assert(x < (r + 2) * (r + 2)) by (nonlinear_arith)
                requires x - 1 < (r + 1) * (r + 1), r >= 0;
        }
    }
}

pub proof fn lemma_isqrt_unique(x: int, r: int)
    requires
        x >= 0,
        r >= 0,
        r * r <= x,
        x < (r + 1) * (r + 1),
    ensures
        r == spec_isqrt(x),
{
    lemma_isqrt_bounds(x);
    let s = spec_isqrt(x);
    if r < s {
        assert((r + 1) * (r + 1) <= s * s) by (nonlinear_arith)
            requires 0 <= r + 1 <= s;
    }
    if s < r {
        assert((s + 1) * (s + 1) <= r * r) by (nonlinear_arith)
            requires 0 <= s + 1 <= r;
    }
}

/// The integer square root of `x`, rounded down, by bisection.
pub fn isqrt(x: u64) -> (r: u64)
    ensures
        r == spec_isqrt(x as int),
        r * r <= x,
        x < (r + 1) * (r + 1),
{
    let mut lo: u64 = 0;
    let mut hi: u64 = 4294967296;
    while lo + 1 < hi
        invariant
            lo < hi <= 4294967296,
            lo * lo <= x,
            x < hi * hi,
        decreases hi - lo
    {
        let mid: u64 = lo + (hi - lo) / 2;
        assert(mid * mid <= 4294967295u64 * 4294967295u64) by (nonlinear_arith)
            requires mid <= 4294967295u64;
        if mid * mid <= x {
            lo = mid;
        } else {
            hi = mid;
        }
    }
    proof {
        lemma_isqrt_unique(x as int, lo as int);
    }
    lo
}

/// Doubles `x` until it reaches `[2^31, 2^32)`, decrementing the exponent `k`
/// in step, so that `x * 2^(k - 31)` is unchanged.
pub open spec fn spec_norm_up(x: int, k: int) -> (int, int)
    decreases 0x100000000 - x when 1 <= x
{
    if x < 0x80000000 {
        spec_norm_up(2 * x, k - 1)
    } else {
        (x, k)
    }
}

/// Halves `x` until it falls under `2^32`, incrementing the exponent `k` in
/// step; the low bit shifted out at each step is discarded.
pub open spec fn spec_norm_down(x: int, k: int) -> (int, int)
    decreases x when 0 <= x
{
    if x >= 0x100000000 {
        spec_norm_down(x / 2, k + 1)
    } else {
        (x, k)
    }
}

/// Extracts twenty fractional bits of `log2(x / 2^31)` by repeated squaring
/// of the mantissa `x`, kept normalised in `[2^31, 2^32)`.
pub open spec fn spec_frac_bits(x: int, i: int, acc: int) -> int
    decreases 20 - i when i <= 20
{
    if i >= 20 {
        acc
    } else {
        let y = (x * x) / 0x80000000;
        if y >= 0x100000000 {
            spec_frac_bits(y / 2, i + 1, 2 * acc + 1)
        } else {
            spec_frac_bits(y, i + 1, 2 * acc)
        }
    }
}

/// Fixed-point binary logarithm: about `log2(n) * SCALE`, for `n >= 1`.
pub open spec fn spec_log2_scaled(n: int) -> int {
    let (x1, k1) = spec_norm_up(n, 31);
    let (x2, k2) = spec_norm_down(x1, k1);
    k2 * (SCALE as int) + spec_frac_bits(x2, 0, 0)
}

/// Fixed-point natural logarithm: about `ln(n) * SCALE`, for `n >= 1`.
pub open spec fn spec_ln_scaled(n: int) -> int {
    spec_log2_scaled(n) * (LN2_SCALED as int) / (SCALE as int)
}

fn norm_up(x: u64, k: u64) -> (r: (u64, u64))
    requires
        1 <= x,
        k <= 31,
        pow2((31 - k) as nat) <= x,
    ensures
        (r.0 as int, r.1 as int) == spec_norm_up(x as int, k as int),
        0x80000000 <= r.0,
        r.0 <= x || r.0 < 0x100000000,
        r.1 <= k,
    decreases 0x100000000 - x,
{
    if x < 0x80000000 {
        proof {
            lemma2_to64();
            if k == 0 {
                assert(pow2(31) <= x);
            }
            lemma_pow2_unfold((32 - k) as nat);
        }
        norm_up(2 * x, k - 1)
    } else {
        (x, k)
    }
}

fn norm_down(x: u64, k: u64) -> (r: (u64, u64))
    requires
        0x80000000 <= x,
        k <= 63,
        x < pow2((95 - k) as nat),
    ensures
        (r.0 as int, r.1 as int) == spec_norm_down(x as int, k as int),
        0x80000000 <= r.0 < 0x100000000,
        r.1 <= 63,
    decreases x,
{
    if x >= 0x100000000 {
        proof {
            lemma2_to64();
            lemma2_to64_rest();
            if 95 - k <= 32 {
                lemma_pow2_strictly_increases(32, (95 - k) as nat);
                assert(false);
            }
            lemma_pow2_unfold((95 - k) as nat);
        }
        norm_down(x / 2, k + 1)
    } else {
        proof {
            lemma2_to64();
            if 95 - k <= 31 {
                lemma_pow2_strictly_increases(31, (95 - k) as nat);
                assert(false);
            }
        }
        (x, k)
    }
}

fn frac_bits(x: u64, i: u64, acc: u64) -> (r: u64)
    requires
        0x80000000 <= x < 0x100000000,
        i <= 20,
        acc < pow2(i as nat),
    ensures
        r == spec_frac_bits(x as int, i as int, acc as int),
        r < 0x100000,
    decreases 20 - i,
{
    proof {
        lemma2_to64();
    }
    if i >= 20 {
        acc
    } else {
        assert(x * x <= 0xFFFFFFFFu64 * 0xFFFFFFFFu64) by (nonlinear_arith)
            requires x <= 0xFFFFFFFFu64;
        assert(x * x >= 0x4000000000000000u64) by (nonlinear_arith)
            requires x >= 0x80000000u64;
        let y: u64 = (x * x) / 0x80000000;
        proof {
            lemma_pow2_unfold((i + 1) as nat);
        }
        if y >= 0x100000000 {
            frac_bits(y / 2, i + 1, 2 * acc + 1)
        } else {
            frac_bits(y, i + 1, 2 * acc)
        }
    }
}

/// Fixed-point binary logarithm: `spec_log2_scaled(n)`, exactly.
pub fn log2_scaled(n: u64) -> (r: u64)
    requires
        1 <= n,
    ensures
        r == spec_log2_scaled(n as int),
        r < 0x4000000,
{
    proof {
        lemma2_to64();
        lemma2_to64_rest();
        assert(pow2(0) == 1);
    }
    let (x1, k1) = norm_up(n, 31);
    proof {
        if k1 < 31 {
            lemma_pow2_strictly_increases(64, (95 - k1) as nat);
        }
    }
    let (x2, k2) = norm_down(x1, k1);
    let f = frac_bits(x2, 0, 0);
    k2 * SCALE + f
}

/// Fixed-point natural logarithm: `spec_ln_scaled(n)`, exactly.
pub fn ln_scaled(n: u64) -> (r: u64)
    requires
        1 <= n,
    ensures
        r == spec_ln_scaled(n as int),
        r < 0x4000000,
{
    let l = log2_scaled(n);
    let r = l * LN2_SCALED / SCALE;
    proof {
        assert(l * LN2_SCALED <= l * SCALE) by (nonlinear_arith)
            requires LN2_SCALED <= SCALE, l >= 0;
        assert(l * SCALE / (SCALE as int) == l) by (nonlinear_arith)
            requires l >= 0;
        assert(l * LN2_SCALED / (SCALE as int) <= l * SCALE / (SCALE as int)) by (nonlinear_arith)
            requires l * LN2_SCALED <= l * SCALE;
    }
    r
}

/// The finite UCB1 priority, in units of `1/SCALE`: the exploitation term
/// `wins / (2 * visits)` (wins are counted in half-points) plus the
/// exploration term `bias * sqrt(ln(parent_visits) / visits)`.
pub open spec fn spec_priority(wins: int, visits: int, parent_visits: int, bias: int) -> int {
    wins * (SCALE as int) / (2 * visits)
        + bias * spec_isqrt(spec_ln_scaled(parent_visits) * (SCALE as int) / visits)
            / (SCALE as int)
}

/// Computes `spec_priority` exactly, for a visited node.
pub fn priority_value(wins: u64, visits: u64, parent_visits: u64, bias: u64) -> (r: u64)
    requires
        1 <= visits,
        wins <= 2 * visits,
        1 <= parent_visits,
        bias <= BIAS_MAX,
    ensures
        r == spec_priority(wins as int, visits as int, parent_visits as int, bias as int),
        r < 0x2000000000,
{
    let exploit128: u128 = (wins as u128) * (SCALE as u128) / (2u128 * (visits as u128));
    proof {
        assert(wins * SCALE <= 2 * visits * SCALE) by (nonlinear_arith)
            requires wins <= 2 * visits, SCALE >= 0;
        assert(wins * SCALE / (2 * visits) <= 2 * visits * SCALE / (2 * visits)) by (nonlinear_arith)
            requires wins * SCALE <= 2 * visits * SCALE, visits >= 1;
        assert(2 * visits * SCALE / (2 * visits) == SCALE) by (nonlinear_arith)
            requires visits >= 1;
    }
    let exploit: u64 = exploit128 as u64;
    let ln: u64 = ln_scaled(parent_visits);
    let t: u64 = ln * SCALE / visits;
    proof {
        assert(ln * SCALE < 0x4000000000000u64) by (nonlinear_arith)
            requires ln < 0x4000000u64, SCALE == 0x100000u64;
        assert(ln * SCALE / (visits as int) <= ln * SCALE) by (nonlinear_arith)
            requires visits >= 1, ln * SCALE >= 0;
    }
    let s: u64 = isqrt(t);
    proof {
        if s >= 0x800000 {
            assert(s * s >= 0x800000u64 * 0x800000u64) by (nonlinear_arith)
                requires s >= 0x800000u64;
        }
        assert(bias * s <= BIAS_MAX * 0x800000u64) by (nonlinear_arith)
            requires bias <= BIAS_MAX, s < 0x800000u64, s >= 0, bias >= 0;
        assert(bias * s / (SCALE as int) <= BIAS_MAX * 0x800000u64 / (SCALE as int)) by (nonlinear_arith)
            requires bias * s <= BIAS_MAX * 0x800000u64, SCALE >= 1;
    }
    let explore128: u128 = (bias as u128) * (s as u128) / (SCALE as u128);
    let explore: u64 = explore128 as u64;
    exploit + explore
}

} // verus!
