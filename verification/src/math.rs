//! Fixed-point scalar arithmetic: the global scale, integer square root,
//! and the scaled products that the integrator applies each step.

use vstd::prelude::*;
use vstd::arithmetic::div_mod::{lemma_div_is_ordered, lemma_div_is_ordered_by_denominator};
use vstd::arithmetic::mul::{lemma_mul_inequality, lemma_mul_upper_bound};

verus! {

/// Sub-units per simulation-space unit: a scalar value `v` stands for the
/// real quantity `v / SCALE`.
pub const SCALE: i64 = 1_000_000;

/// The gravitational constant of this unit system, pre-multiplied by
/// `SCALE * SCALE`: `G_SCALED == 0.66743015 * SCALE * SCALE`, exactly.
pub const G_SCALED: i64 = 667_430_150_000;

/// Largest position magnitude a step accepts.
pub const POS_BOUND: i64 = 1_000_000_000_000_000_000;

/// Largest velocity magnitude a step accepts.
pub const VEL_BOUND: i64 = 1_000_000_000_000_000_000;

/// Largest mass a body may carry.
pub const MASS_BOUND: i64 = 1_000_000_000_000;

/// Largest timestep a step accepts: one simulation-time unit.
pub const DT_BOUND: i64 = 1_000_000;

/// Largest number of bodies a registry may hold.
pub const LEN_BOUND: usize = 10_000;

/// Magnitude of an integer.
pub open spec fn abs_val(x: int) -> int {
    if x < 0 {
        -x
    } else {
        x
    }
}

/// The floor of the square root of `n`.
pub open spec fn sqrt_floor(n: nat) -> nat
    decreases n,
{
    if n == 0 {
        0
    } else {
        let r = sqrt_floor((n - 1) as nat);
        if (r + 1) * (r + 1) <= n {
            r + 1
        } else {
            r
        }
    }
}

/// `sqrt_floor(n)` is the unique integer whose square is at most `n`
/// while the next square is beyond `n`.
pub proof fn lemma_sqrt_floor_bounds(n: nat)
    ensures
        sqrt_floor(n) * sqrt_floor(n) <= n,
        n < (sqrt_floor(n) + 1) * (sqrt_floor(n) + 1),
    decreases n,
{
    if n == 0 {
        assert(sqrt_floor(n) == 0);
        assert(n < (sqrt_floor(n) + 1) * (sqrt_floor(n) + 1)) by (nonlinear_arith)
            requires
                n == 0,
                sqrt_floor(n) == 0,
        ;
    } else {
        let r = sqrt_floor((n - 1) as nat);
        lemma_sqrt_floor_bounds((n - 1) as nat);
        assert(r * r <= n - 1);
        assert(n - 1 < (r + 1) * (r + 1));
        if (r + 1) * (r + 1) <= n {
            assert(sqrt_floor(n) == r + 1);
            assert(n < ((r + 1) + 1) * ((r + 1) + 1)) by (nonlinear_arith)
                requires
                    n - 1 < (r + 1) * (r + 1),
            ;
            assert(sqrt_floor(n) * sqrt_floor(n) <= n);
            assert(n < (sqrt_floor(n) + 1) * (sqrt_floor(n) + 1));
        } else {
            assert(sqrt_floor(n) == r);
            assert(sqrt_floor(n) * sqrt_floor(n) <= n);
            assert(n < (sqrt_floor(n) + 1) * (sqrt_floor(n) + 1));
        }
    }
}

/// Any nonnegative `x` with `x * x <= n` lies at or below `sqrt_floor(n)`.
pub proof fn lemma_sqrt_floor_at_least(n: nat, x: int)
    requires
        0 <= x,
        x * x <= n,
    ensures
        x <= sqrt_floor(n),
{
    lemma_sqrt_floor_bounds(n);
    let r = sqrt_floor(n) as int;
    assert(x <= r) by (nonlinear_arith)
        requires
            0 <= x,
            0 <= r,
            x * x <= n,
            n < (r + 1) * (r + 1),
    ;
}

/// Binary search for the floor of the square root.
pub fn isqrt(n: u128) -> (r: u128)
    requires
        n < 85_070_591_730_234_615_865_843_651_857_942_052_864u128,
    ensures
        r == sqrt_floor(n as nat),
{
    proof {
        lemma_sqrt_floor_bounds(n as nat);
    }
    let mut lo: u128 = 0;
    let mut hi: u128 = 9_223_372_036_854_775_808u128;
    while lo + 1 < hi
        invariant
            lo < hi,
            hi <= 9_223_372_036_854_775_808u128,
            lo * lo <= n,
            n < hi * hi,
        decreases hi - lo,
    {
        let mid = lo + (hi - lo) / 2;
        proof {
            assert(mid < hi);
            assert((mid as int) * (mid as int) < 85_070_591_730_234_615_865_843_651_857_942_052_864int)
                by (nonlinear_arith)
                requires
                    mid < 9_223_372_036_854_775_808u128,
            ;
        }
        if mid * mid <= n {
            lo = mid;
        } else {
            hi = mid;
        }
    }
    proof {
        lemma_sqrt_floor_bounds(n as nat);
        let s = sqrt_floor(n as nat) as int;
        assert(lo as int <= s) by {
            lemma_sqrt_floor_at_least(n as nat, lo as int);
        }
        assert(s <= lo as int) by (nonlinear_arith)
            requires
                0 <= s,
                s * s <= n as int,
                n < (lo + 1) * (lo + 1),
                lo as int + 1 == hi as int,
        ;
    }
    lo
}

/// The velocity and position increments of a step: a scalar `a` times the
/// timestep `dt`, brought back to scalar scale, with the magnitude rounded
/// toward zero.
pub open spec fn scaled_delta(a: int, dt: int) -> int {
    if a < 0 {
        -(((-a) * dt) / (SCALE as int))
    } else {
        (a * dt) / (SCALE as int)
    }
}

/// A step increment never exceeds `a` itself in magnitude while the
/// timestep stays at or below one simulation-time unit.
pub proof fn lemma_scaled_delta_bound(a: int, dt: int)
    requires
        0 <= dt <= SCALE,
    ensures
        abs_val(scaled_delta(a, dt)) <= abs_val(a),
{
    let m = abs_val(a);
    lemma_mul_inequality(dt, SCALE as int, m);
    assert(m * dt == dt * m && m * SCALE == SCALE * m) by (nonlinear_arith);
    lemma_div_is_ordered(m * dt, m * SCALE, SCALE as int);
    assert((m * SCALE) / (SCALE as int) == m) by (nonlinear_arith)
        requires
            0 <= m,
    ;
}

/// Computes `scaled_delta` on machine integers.
pub fn scaled_delta_exec(a: i128, dt: i64) -> (r: i128)
    requires
        -4_000_000_000_000_000_000 <= a <= 4_000_000_000_000_000_000,
        0 <= dt <= SCALE,
    ensures
        r == scaled_delta(a as int, dt as int),
        abs_val(r as int) <= abs_val(a as int),
{
    proof {
        lemma_scaled_delta_bound(a as int, dt as int);
    }
    if a < 0 {
        let m: u128 = (-a) as u128;
        proof {
            assert((m as int) * (dt as int) <= 4_000_000_000_000_000_000int * (SCALE as int))
                by (nonlinear_arith)
                requires
                    m <= 4_000_000_000_000_000_000u128,
                    0 <= dt <= SCALE,
            ;
        }
        let q: u128 = (m * (dt as u128)) / (SCALE as u128);
        -(q as i128)
    } else {
        let m: u128 = a as u128;
        proof {
            assert((m as int) * (dt as int) <= 4_000_000_000_000_000_000int * (SCALE as int))
                by (nonlinear_arith)
                requires
                    m <= 4_000_000_000_000_000_000u128,
                    0 <= dt <= SCALE,
            ;
        }
        let q: u128 = (m * (dt as u128)) / (SCALE as u128);
        q as i128
    }
}

/// Bounds a quotient `x / d` by `b / c` when `x` stays at or below `b`
/// and the denominator at or above `c`.
pub proof fn lemma_div_bounded(x: int, d: int, b: int, c: int)
    requires
        0 <= x <= b,
        0 < c <= d,
    ensures
        x / d <= b / c,
{
    lemma_div_is_ordered_by_denominator(x, c, d);
    lemma_div_is_ordered(x, b, c);
}

/// Bounds a product by the product of the bounds.
pub proof fn lemma_mul_bounded(x: int, y: int, xb: int, yb: int)
    requires
        0 <= x <= xb,
        0 <= y <= yb,
    ensures
        0 <= x * y <= xb * yb,
{
    lemma_mul_upper_bound(x, xb, y, yb);
    assert(0 <= x * y) by (nonlinear_arith)
        requires
            0 <= x,
            0 <= y,
    ;
}

} // verus!
