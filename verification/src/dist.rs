//! Distance metrics over raw fixed-point coordinates, and the arithmetic
//! facts behind the queries' branch-and-bound pruning.

use crate::num::{abs_diff, abs_diff_exec, sat32, sat_add, ssq, ssq_exec, SCALE};
use vstd::prelude::*;

verus! {

/// The distance metrics the queries understand. Both run over raw
/// fixed-point coordinates and saturate at `u32::MAX`.
#[derive(Clone, Copy, PartialEq, Eq, Structural)]
pub enum Metric {
    /// Sum of absolute coordinate differences.
    Manhattan,
    /// Sum of squared coordinate differences, rescaled by `SCALE`.
    SquaredEuclidean,
}

/// One coordinate's contribution to the distance.
pub open spec fn term(m: Metric, a: int, b: int) -> int {
    match m {
        Metric::Manhattan => abs_diff(a, b),
        Metric::SquaredEuclidean => ssq(abs_diff(a, b)),
    }
}

/// The saturating sum of the first `n` coordinate contributions.
pub open spec fn dist_prefix(m: Metric, a: Seq<u32>, b: Seq<u32>, n: int) -> int
    decreases n,
{
    if n <= 0 {
        0
    } else {
        sat32(dist_prefix(m, a, b, n - 1) + term(m, a[n - 1] as int, b[n - 1] as int))
    }
}

/// The distance between two points of equal dimension.
pub open spec fn dist_spec(m: Metric, a: Seq<u32>, b: Seq<u32>) -> int {
    dist_prefix(m, a, b, a.len() as int)
}

/// The saturating sum of the squared per-dimension offsets: the running
/// lower bound that the queries carry while descending.
pub open spec fn off_prefix(off: Seq<u32>, n: int) -> int
    decreases n,
{
    if n <= 0 {
        0
    } else {
        sat32(off_prefix(off, n - 1) + ssq(off[n - 1] as int))
    }
}

/// Distance from a coordinate to an interval.
pub open spec fn gap(q: int, lo: int, hi: int) -> int {
    if q < lo {
        lo - q
    } else if q > hi {
        q - hi
    } else {
        0
    }
}

pub proof fn lemma_term_bounds(m: Metric, a: int, b: int)
    requires
        0 <= a <= u32::MAX as int,
        0 <= b <= u32::MAX as int,
    ensures
        0 <= term(m, a, b) <= u32::MAX as int,
{
    let d = abs_diff(a, b);
    if m == Metric::SquaredEuclidean {
        assert(d * d >= 0) by (nonlinear_arith);
        assert((d * d) / (SCALE as int) >= 0) by {
            vstd::arithmetic::div_mod::lemma_div_is_ordered(0, d * d, SCALE as int);
            assert(0int / (SCALE as int) == 0) by (nonlinear_arith);
        }
    } else {
        assert(0 <= d);
    }
}

pub proof fn lemma_ssq_bounds(x: int)
    requires
        0 <= x,
    ensures
        0 <= ssq(x) <= u32::MAX as int,
{
    assert(x * x >= 0) by (nonlinear_arith);
    assert((x * x) / (SCALE as int) >= 0) by {
        vstd::arithmetic::div_mod::lemma_div_is_ordered(0, x * x, SCALE as int);
        assert(0int / (SCALE as int) == 0) by (nonlinear_arith);
    }
}

pub proof fn lemma_dist_prefix_bounds(m: Metric, a: Seq<u32>, b: Seq<u32>, n: int)
    ensures
        0 <= dist_prefix(m, a, b, n) <= u32::MAX as int,
    decreases n,
{
    if n > 0 {
        lemma_dist_prefix_bounds(m, a, b, n - 1);
        lemma_term_bounds(m, a[n - 1] as int, b[n - 1] as int);
    }
}

pub proof fn lemma_off_prefix_bounds(off: Seq<u32>, n: int)
    ensures
        0 <= off_prefix(off, n) <= u32::MAX as int,
    decreases n,
{
    if n > 0 {
        lemma_off_prefix_bounds(off, n - 1);
        lemma_ssq_bounds(off[n - 1] as int);
    }
}

/// With per-dimension lower bounds on the coordinate differences (below
/// `SCALE` under the Manhattan metric), the saturating sum of squared
/// offsets bounds the distance from below.
pub proof fn lemma_off_bounds_dist(m: Metric, q: Seq<u32>, p: Seq<u32>, off: Seq<u32>, n: int)
    requires
        forall|d: int|
            0 <= d < n ==> #[trigger] off[d] as int <= abs_diff(q[d] as int, p[d] as int),
        m == Metric::Manhattan ==> forall|d: int|
            0 <= d < n ==> #[trigger] off[d] as int <= SCALE as int,
    ensures
        off_prefix(off, n) <= dist_prefix(m, q, p, n),
    decreases n,
{
    if n > 0 {
        lemma_off_bounds_dist(m, q, p, off, n - 1);
        let o = off[n - 1] as int;
        let d = abs_diff(q[n - 1] as int, p[n - 1] as int);
        if m == Metric::SquaredEuclidean {
            crate::num::lemma_ssq_monotone(o, d);
        } else {
            crate::num::lemma_ssq_le_self(o);
        }
        lemma_ssq_bounds(o);
        lemma_term_bounds(m, q[n - 1] as int, p[n - 1] as int);
    }
}

/// Raising one offset (the crossing into the further child) shifts the
/// running bound by exactly the squared-offset difference, saturating.
pub proof fn lemma_off_prefix_update(off: Seq<u32>, d: int, v: u32, n: int)
    requires
        0 <= d < n <= off.len(),
        off[d] <= v,
    ensures
        off_prefix(off.update(d, v), n) == sat32(
            off_prefix(off, n) + (ssq(v as int) - ssq(off[d] as int)),
        ),
    decreases n,
{
    let o2 = off.update(d, v);
    crate::num::lemma_ssq_monotone(off[d] as int, v as int);
    lemma_ssq_bounds(off[d] as int);
    lemma_ssq_bounds(v as int);
    lemma_off_prefix_bounds(off, n - 1);
    lemma_off_prefix_bounds(off, n);
    if n - 1 == d {
        assert(off_prefix(o2, n - 1) == off_prefix(off, n - 1)) by {
            lemma_off_prefix_same(off, o2, n - 1);
        }
    } else {
        lemma_off_prefix_update(off, d, v, n - 1);
        lemma_ssq_bounds(off[n - 1] as int);
    }
}

/// The running bound only reads the first `n` offsets.
pub proof fn lemma_off_prefix_same(a: Seq<u32>, b: Seq<u32>, n: int)
    requires
        forall|d: int| 0 <= d < n ==> a[d] == b[d],
    ensures
        off_prefix(a, n) == off_prefix(b, n),
    decreases n,
{
    if n > 0 {
        lemma_off_prefix_same(a, b, n - 1);
    }
}

/// The distance between two points.
pub fn dist(m: Metric, a: &Vec<u32>, b: &Vec<u32>) -> (r: u32)
    requires
        a@.len() == b@.len(),
    ensures
        r as int == dist_spec(m, a@, b@),
{
    let mut acc: u32 = 0;
    let mut i: usize = 0;
    while i < a.len()
        invariant
            a@.len() == b@.len(),
            i <= a@.len(),
            acc as int == dist_prefix(m, a@, b@, i as int),
        decreases a@.len() - i,
    {
        let d = abs_diff_exec(a[i], b[i]);
        let t = match m {
            Metric::Manhattan => d,
            Metric::SquaredEuclidean => ssq_exec(d),
        };
        acc = sat_add(acc, t);
        i += 1;
    }
    acc
}

} // verus!
