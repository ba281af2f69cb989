//! Library-wide laws, stated over the tree's mathematical model and proved
//! once and for all.

use crate::dist::Metric;
use crate::query::nearest_one_post;
use crate::tree::{leaf_wf, KdTree};
use vstd::prelude::*;

verus! {

/// Size accounting: on any well-formed tree the stored count equals the
/// number of stored pairs. Together with `add`'s postcondition (one pair
/// gained, count up by one) and `remove`'s (`removed` pairs lost, count
/// down by `removed`), the count after any sequence of operations equals
/// the pairs added less the pairs successfully removed.
pub proof fn lemma_size_counts_pairs(t: KdTree)
    requires
        t.wf(),
    ensures
        t.size as int == t.entries().len(),
{
}

/// Leaf capacity: every bucket in a well-formed tree — so after any
/// sequence of operations — holds at most `b` pairs.
pub proof fn lemma_leaf_capacity(t: KdTree, j: int)
    requires
        t.wf(),
        0 <= j < t.leaves@.len(),
    ensures
        t.leaves@[j].items@.len() <= t.b,
{
    assert(leaf_wf(t.leaves@[j], t.k as int, t.b as int));
}

/// Split arithmetic: a full bucket of `b` pairs parts into halves of
/// `b / 2` and `b - b / 2` pairs; with the pair whose arrival forced the
/// split the children hold `b + 1` pairs between them, and either child
/// still has room within the capacity `b`.
pub proof fn lemma_split_sizes(b: int)
    requires
        2 <= b,
    ensures
        b / 2 + (b - b / 2) == b,
        b / 2 + 1 <= b,
        (b - b / 2) + 1 <= b,
{
}

/// Nearest-one agreement: under an admissible pruning bound (always for
/// squared Euclidean; for Manhattan whenever everything stays at or below
/// `SCALE`), any result satisfying `nearest_one`'s contract carries exactly
/// the minimum distance an exhaustive scan of the stored pairs would find.
pub proof fn lemma_nearest_one_is_scan_minimum(t: KdTree, q: Seq<u32>, metric: Metric, r: (u32, u32))
    requires
        t.wf(),
        nearest_one_post(t, q, metric, r),
        crate::query::admissible(t, q, metric),
    ensures
        forall|i: int|
            0 <= i < t.entries().len() ==> crate::dist::dist_spec(
                metric,
                q,
                (#[trigger] t.entries()[i]).0,
            ) >= r.0 as int,
        r.0 == u32::MAX || exists|i: int|
            0 <= i < t.entries().len() && crate::dist::dist_spec(
                metric,
                q,
                (#[trigger] t.entries()[i]).0,
            ) == r.0 as int,
{
    if !(r.0 == u32::MAX && r.1 == 0) {
        let i = choose|i: int|
            0 <= i < t.entries().len() && (#[trigger] t.entries()[i]).1 == r.1
                && crate::dist::dist_spec(metric, q, t.entries()[i].0) == r.0 as int;
        assert(crate::dist::dist_spec(metric, q, t.entries()[i].0) == r.0 as int);
    }
}

/// Nearest-n agreement: under an admissible pruning bound, every kept result
/// is at least as close as anything left out — the kept distances are the
/// `qty` smallest a scan over the stored pairs would collect.
pub proof fn lemma_nearest_n_keeps_the_closest(
    t: KdTree,
    q: Seq<u32>,
    qty: usize,
    metric: Metric,
    res: Seq<(u32, u32)>,
    i: int,
)
    requires
        t.wf(),
        crate::query::admissible(t, q, metric),
        crate::query::nearest_n_post(t, q, qty, metric, res),
        0 <= i < res.len(),
    ensures
        forall|pr: (u32, u32)|
            crate::topk::scored(metric, q, t.entries()).to_multiset().count(pr)
                > #[trigger] res.to_multiset().count(pr) ==> res[i].0 <= pr.0,
{
    assert forall|pr: (u32, u32)|
        crate::topk::scored(metric, q, t.entries()).to_multiset().count(pr)
            > #[trigger] res.to_multiset().count(pr) implies res[i].0 <= pr.0 by {
        assert(res.last() == res[res.len() - 1]);
        if i < res.len() - 1 {
            assert(crate::topk::le_cand(res[i], res[res.len() - 1]));
        }
    }
}

/// Every stored point carries the tree's dimension.
pub proof fn lemma_entries_have_dimension_k(t: KdTree)
    requires
        t.wf(),
    ensures
        forall|i: int| 0 <= i < t.entries().len() ==> (#[trigger] t.entries()[i]).0.len() == t.k,
{
    crate::tree::lemma_subtree_in_box(
        t.stems@,
        t.leaves@,
        t.root_index as int,
        0,
        t.k as int,
        t.lo0(),
        t.hi0(),
    );
    assert forall|i: int| 0 <= i < t.entries().len() implies (#[trigger] t.entries()[i]).0.len()
        == t.k by {
        assert(crate::tree::point_in_box(t.entries()[i].0, t.k as int, t.lo0(), t.hi0()));
    }
}

/// Round trip: a tree rebuilt from its own parts is the original tree, so
/// after `from_parts` of an unmodified `to_parts` every query — `size`,
/// `nearest_one`, `nearest_n`, and the rest — answers exactly as before.
pub proof fn lemma_parts_round_trip(t: KdTree)
    ensures
        (KdTree {
            stems: t.stems,
            leaves: t.leaves,
            root_index: t.root_index,
            size: t.size,
            k: t.k,
            b: t.b,
        }) == t,
{
}

/// What the descent-target leaf holds is part of the stored pairs, so a
/// removal count never exceeds the pair's tree-wide multiplicity. Combined
/// with `add`'s placement clause (the added pair sits in the target leaf of
/// the new state) and `remove`'s exact count, a pair is removable right
/// after it was added, and removing a pair stored exactly once removes
/// exactly it.
pub proof fn lemma_target_leaf_within_entries(t: KdTree, q: Seq<u32>, pr: (Seq<u32>, u32))
    requires
        t.wf(),
    ensures
        t.descent_leaf_pairs(q).to_multiset().count(pr) <= t.entries().to_multiset().count(pr),
{
    crate::tree::lemma_target_count(
        t.stems@,
        t.leaves@,
        t.root_index as int,
        0,
        t.k as int,
        q,
        pr,
    );
}

/// An absent item is never reported: when no stored pair carries item `it`
/// (and `it` is not the empty-tree sentinel item 0), no result satisfying
/// `nearest_one`'s contract can name it. In particular, after `add(p, it)`
/// followed by a `remove(p, it)` that took every pair with item `it` back
/// out, a later `nearest_one` cannot return `it`.
pub proof fn lemma_absent_item_not_returned(
    t: KdTree,
    q: Seq<u32>,
    metric: Metric,
    r: (u32, u32),
    it: u32,
)
    requires
        t.wf(),
        nearest_one_post(t, q, metric, r),
        it != 0,
        forall|i: int| 0 <= i < t.entries().len() ==> (#[trigger] t.entries()[i]).1 != it,
    ensures
        r.1 != it,
{
    if !(r.0 == u32::MAX && r.1 == 0) {
        let i = choose|i: int|
            0 <= i < t.entries().len() && (#[trigger] t.entries()[i]).1 == r.1
                && crate::dist::dist_spec(metric, q, t.entries()[i].0) == r.0 as int;
        assert(t.entries()[i].1 != it);
    }
}

} // verus!
