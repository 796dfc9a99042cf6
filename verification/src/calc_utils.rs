//! Fixed-point vector arithmetic for agent motion.
//!
//! Simulation coordinates are integers with `CELL_SCALE` sub-units per grid
//! cell, so a direction vector of magnitude `CELL_SCALE` stands for a unit
//! vector.  Normalization divides a difference vector by its Euclidean
//! magnitude, computed with an exact integer square root.

use vstd::prelude::*;

use crate::utility_types::Sim2D;
use crate::utility_types::CELL_SCALE;

verus! {

/// Largest magnitude a simulation coordinate may take; far enough out that
/// squared differences stay well inside `i64`.
pub const MAX_SIM_COORD: i64 = 500_000_000;

/// The integer square root, rounded down.
pub open spec fn sqrt_floor(n: nat) -> nat
    decreases n,
{
    if n == 0 {
        0
    } else {
        let r = sqrt_floor((n - 1) as nat);
        if (r + 1) * (r + 1) <= n {
            r + 1
        } else {
            r
        }
    }
}

/// Squaring keeps order on the non-negative integers.
pub proof fn lemma_square_ordered(a: int, b: int)
    by (nonlinear_arith)
    requires
        0 <= a <= b,
    ensures
        a * a <= b * b,
{
}

/// `sqrt_floor(n)` is the unique integer whose square is at most `n` while
/// the next square is beyond it.
pub proof fn lemma_sqrt_floor_bounds(n: nat)
    ensures
        sqrt_floor(n) * sqrt_floor(n) <= n,
        n < (sqrt_floor(n) + 1) * (sqrt_floor(n) + 1),
    decreases n,
{
    if n == 0 {
        assert(sqrt_floor(0) == 0);
        assert(0nat < (0nat + 1) * (0nat + 1)) by (nonlinear_arith);
    } else {
        lemma_sqrt_floor_bounds((n - 1) as nat);
        let r = sqrt_floor((n - 1) as nat);
        assert(r * r <= n - 1);
        assert(n - 1 < (r + 1) * (r + 1));
        if (r + 1) * (r + 1) <= n {
            assert(sqrt_floor(n) == r + 1);
            assert(n < (r + 2) * (r + 2)) by (nonlinear_arith)
                requires
                    n <= (r + 1) * (r + 1),
                    r >= 0,
            ;
        } else {
            assert(sqrt_floor(n) == r);
        }
    }
}

/// Any integer bracketed by its own square and the next is the rounded-down
/// square root.
pub proof fn lemma_sqrt_floor_unique(n: nat, r: nat)
    requires
        r * r <= n,
        n < (r + 1) * (r + 1),
    ensures
        r == sqrt_floor(n),
{
    lemma_sqrt_floor_bounds(n);
    let s = sqrt_floor(n);
    if r < s {
        lemma_square_ordered(r as int + 1, s as int);
        assert(false);
    }
    if s < r {
        lemma_square_ordered(s as int + 1, r as int);
        assert(false);
    }
}

/// The integer square root, rounded down, by bisection.
pub fn isqrt(n: i64) -> (r: i64)
    requires
        0 <= n <= 2_000_000_000_000_000_000,
    ensures
        r == sqrt_floor(n as nat),
        0 <= r < 1_500_000_000,
{
    let mut lo: i64 = 0;
    let mut hi: i64 = 1_500_000_000;
    proof {
        assert(n < 1_500_000_000i64 * 1_500_000_000i64);
    }
    while lo + 1 < hi
        invariant
            0 <= lo < hi <= 1_500_000_000,
            lo * lo <= n,
            n < hi * hi,
        decreases hi - lo,
    {
        let mid: i64 = lo + (hi - lo) / 2;
        proof {
            assert(lo < mid < hi);
            lemma_square_ordered(mid as int, 1_500_000_000);
        }
        if mid * mid <= n {
            lo = mid;
        } else {
            hi = mid;
        }
    }
    proof {
        lemma_sqrt_floor_unique(n as nat, lo as nat);
    }
    lo
}

/// Division of a signed numerator by a positive divisor, rounding toward
/// zero, written over non-negative division only.
pub open spec fn div_toward_zero(a: int, b: int) -> int
    recommends
        b > 0,
{
    if a >= 0 {
        a / b
    } else {
        -((-a) / b)
    }
}

/// The squares of bounded components are non-negative and their sum stays
/// well inside `i64`.
pub proof fn lemma_sum_squares_bounded(dx: int, dy: int)
    by (nonlinear_arith)
    requires
        -1_000_000_000 <= dx <= 1_000_000_000,
        -1_000_000_000 <= dy <= 1_000_000_000,
    ensures
        0 <= dx * dx,
        0 <= dy * dy,
        dx * dx + dy * dy <= 2_000_000_000_000_000_000,
{
}

/// The normalized direction from `loc` toward `dest`, in fixed point: the
/// difference vector scaled by `CELL_SCALE` and divided by its Euclidean
/// magnitude (rounded down).  The zero vector when the two points coincide
/// to within the magnitude's resolution.
pub open spec fn motion_vector_spec(loc: Sim2D, dest: Sim2D) -> (int, int) {
    let dx = dest.x - loc.x;
    let dy = dest.y - loc.y;
    let m = sqrt_floor((dx * dx + dy * dy) as nat);
    if m == 0 {
        (0, 0)
    } else {
        (div_toward_zero(dx * CELL_SCALE, m as int), div_toward_zero(dy * CELL_SCALE, m as int))
    }
}

/// Each component of a normalized direction is at most one cell's worth of
/// sub-units in magnitude: the magnitude bounds both components.
pub proof fn lemma_motion_vector_bounded(loc: Sim2D, dest: Sim2D)
    requires
        -MAX_SIM_COORD <= loc.x <= MAX_SIM_COORD,
        -MAX_SIM_COORD <= loc.y <= MAX_SIM_COORD,
        -MAX_SIM_COORD <= dest.x <= MAX_SIM_COORD,
        -MAX_SIM_COORD <= dest.y <= MAX_SIM_COORD,
    ensures
        -CELL_SCALE <= motion_vector_spec(loc, dest).0 <= CELL_SCALE,
        -CELL_SCALE <= motion_vector_spec(loc, dest).1 <= CELL_SCALE,
{
    let dx = dest.x - loc.x as int;
    let dy = dest.y - loc.y as int;
    lemma_sum_squares_bounded(dx, dy);
    let n = (dx * dx + dy * dy) as nat;
    let m = sqrt_floor(n);
    lemma_sqrt_floor_bounds(n);
    if m != 0 {
        lemma_component_le_magnitude(dx, dy, m as int);
        lemma_component_le_magnitude(dy, dx, m as int);
        lemma_scaled_component_bounded(dx, m as int);
        lemma_scaled_component_bounded(dy, m as int);
    }
}

/// A component of a vector is at most the (rounded-down) magnitude.
proof fn lemma_component_le_magnitude(dx: int, dy: int, m: int)
    by (nonlinear_arith)
    requires
        m >= 1,
        dx * dx + dy * dy < (m + 1) * (m + 1),
    ensures
        -m <= dx <= m,
{
}

/// Scaling a component by `CELL_SCALE` and dividing by a magnitude at least
/// as large keeps it within one cell's worth of sub-units.
proof fn lemma_scaled_component_bounded(dx: int, m: int)
    requires
        m >= 1,
        -m <= dx <= m,
    ensures
        -CELL_SCALE <= div_toward_zero(dx * CELL_SCALE, m) <= CELL_SCALE,
{
    if dx >= 0 {
        assert(dx * CELL_SCALE <= m * CELL_SCALE) by (nonlinear_arith)
            requires
                0 <= dx <= m,
        ;
        vstd::arithmetic::div_mod::lemma_div_is_ordered(dx * CELL_SCALE, m * CELL_SCALE, m);
        vstd::arithmetic::div_mod::lemma_div_multiples_vanish(CELL_SCALE as int, m);
    } else {
        assert((-dx) * CELL_SCALE <= m * CELL_SCALE) by (nonlinear_arith)
            requires
                0 <= -dx <= m,
        ;
        vstd::arithmetic::div_mod::lemma_div_is_ordered((-dx) * CELL_SCALE, m * CELL_SCALE, m);
        vstd::arithmetic::div_mod::lemma_div_multiples_vanish(CELL_SCALE as int, m);
        vstd::arithmetic::div_mod::lemma_div_pos_is_pos((-dx) * CELL_SCALE, m);
    }
}

/// The normalized direction from `loc` toward `dest`, as a fixed-point pair
/// scaled by `CELL_SCALE`.  The zero vector when the points (nearly)
/// coincide, so steering toward one's own position moves nowhere instead of
/// dividing by zero.
pub fn normalize_motion_vector(loc: Sim2D, dest: Sim2D) -> (r: (i64, i64))
    requires
        -MAX_SIM_COORD <= loc.x <= MAX_SIM_COORD,
        -MAX_SIM_COORD <= loc.y <= MAX_SIM_COORD,
        -MAX_SIM_COORD <= dest.x <= MAX_SIM_COORD,
        -MAX_SIM_COORD <= dest.y <= MAX_SIM_COORD,
    ensures
        (r.0 as int, r.1 as int) == motion_vector_spec(loc, dest),
        -CELL_SCALE <= r.0 <= CELL_SCALE,
        -CELL_SCALE <= r.1 <= CELL_SCALE,
{
    proof {
        lemma_motion_vector_bounded(loc, dest);
    }
    let dx: i64 = dest.x - loc.x;
    let dy: i64 = dest.y - loc.y;
    proof {
        lemma_sum_squares_bounded(dx as int, dy as int);
    }
    let m: i64 = isqrt(dx * dx + dy * dy);
    if m == 0 {
        (0, 0)
    } else {
        let rx: i64 = if dx >= 0 {
            (dx * CELL_SCALE) / m
        } else {
            -((-dx * CELL_SCALE) / m)
        };
        let ry: i64 = if dy >= 0 {
            (dy * CELL_SCALE) / m
        } else {
            -((-dy * CELL_SCALE) / m)
        };
        (rx, ry)
    }
}

} // verus!
