//! Saturating fixed-point arithmetic on raw `u32` coordinate values.
//!
//! A coordinate is a fixed-point number with `SCALE` as 1.0 (14 fractional
//! bits). All sums and products saturate at `u32::MAX` instead of wrapping.

use vstd::arithmetic::div_mod::{lemma_div_is_ordered, lemma_div_multiples_vanish};
use vstd::prelude::*;

verus! {

/// Largest representable distance; the queries use it as the
/// "no candidate yet" sentinel.
pub const MAX_DIST: u32 = 4294967295;

/// The raw value that stands for 1.0: coordinates carry 14 fractional bits.
pub const SCALE: u32 = 16384;

/// Clamp an unbounded non-negative sum to the coordinate range.
pub open spec fn sat32(x: int) -> int {
    if x > u32::MAX as int {
        u32::MAX as int
    } else {
        x
    }
}

/// Absolute difference of two coordinates.
pub open spec fn abs_diff(a: int, b: int) -> int {
    if a >= b {
        a - b
    } else {
        b - a
    }
}

/// Fixed-point square: `x * x` rescaled by `SCALE`, saturating.
pub open spec fn ssq(x: int) -> int {
    sat32((x * x) / (SCALE as int))
}

pub fn sat_add(a: u32, b: u32) -> (r: u32)
    ensures
        r as int == sat32(a + b),
{
    let s: u64 = a as u64 + b as u64;
    if s > u32::MAX as u64 {
        u32::MAX
    } else {
        s as u32
    }
}

pub fn sat_sub(a: u32, b: u32) -> (r: u32)
    ensures
        r as int == if a >= b {
            a - b
        } else {
            0
        },
{
    if a >= b {
        a - b
    } else {
        0
    }
}

pub fn abs_diff_exec(a: u32, b: u32) -> (r: u32)
    ensures
        r as int == abs_diff(a as int, b as int),
{
    if a >= b {
        a - b
    } else {
        b - a
    }
}

pub fn ssq_exec(x: u32) -> (r: u32)
    ensures
        r as int == ssq(x as int),
{
    proof {
        assert((x as u64) * (x as u64) <= 4294967295u64 * 4294967295u64) by (nonlinear_arith)
            requires
                x <= 4294967295u32,
        ;
    }
    let p: u64 = (x as u64) * (x as u64) / 16384;
    if p > u32::MAX as u64 {
        u32::MAX
    } else {
        p as u32
    }
}

/// `ssq` grows with its argument.
pub proof fn lemma_ssq_monotone(x: int, y: int)
    requires
        0 <= x <= y,
    ensures
        ssq(x) <= ssq(y),
{
    assert(x * x <= y * y) by (nonlinear_arith)
        requires
            0 <= x <= y,
    ;
    lemma_div_is_ordered(x * x, y * y, SCALE as int);
}

/// Below 1.0 (raw `SCALE`), squaring does not increase a value.
pub proof fn lemma_ssq_le_self(x: int)
    requires
        0 <= x <= SCALE as int,
    ensures
        ssq(x) <= x,
{
    assert(x * x <= (SCALE as int) * x) by (nonlinear_arith)
        requires
            0 <= x <= SCALE as int,
    ;
    lemma_div_is_ordered(x * x, (SCALE as int) * x, SCALE as int);
    lemma_div_multiples_vanish(x, SCALE as int);
}

} // verus!
