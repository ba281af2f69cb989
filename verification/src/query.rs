//! Nearest-neighbour queries: branch-and-bound traversal with a running
//! squared-offset lower bound for pruning.

use crate::construct::vec_set;
use crate::dist::{
    dist, dist_spec, gap, lemma_dist_prefix_bounds, lemma_off_bounds_dist, lemma_off_prefix_bounds,
    lemma_off_prefix_update, off_prefix, Metric,
};
use crate::num::{abs_diff, abs_diff_exec, sat_add, sat_sub, ssq, ssq_exec, SCALE};
use crate::topk::{accept_candidate, cands_sorted, scored, NearestIter};
use crate::tree::{
    cap_ok, is_stem, leaf_pairs, lemma_subtree_capped, lemma_subtree_in_box, node_inv, node_ok,
    point_below, point_in_box, stems_ok, subtree, KdTree, LEAF_OFFSET,
};
use vstd::multiset::Multiset;
use vstd::prelude::*;

verus! {

/// When the squared-offset pruning bound is provably admissible: always for
/// squared Euclidean; for Manhattan when every stored coordinate, split
/// value and query coordinate stays at or below `SCALE` (1.0).
pub open spec fn admissible(t: KdTree, q: Seq<u32>, m: Metric) -> bool {
    m == Metric::SquaredEuclidean || (t.bounded(SCALE as int) && point_below(q, SCALE as int))
}

/// The same condition, for one subtree.
pub open spec fn adm_node(
    stems: Seq<crate::tree::StemNode>,
    leaves: Seq<crate::tree::LeafNode>,
    idx: int,
    q: Seq<u32>,
    m: Metric,
) -> bool {
    m == Metric::SquaredEuclidean || (cap_ok(stems, leaves, idx, SCALE as int) && point_below(
        q,
        SCALE as int,
    ))
}

/// What `nearest_one` promises: the sentinel pair on an empty tree, a result
/// that names a stored pair at its true distance otherwise, and — whenever
/// the pruning bound is admissible — a distance no stored pair beats.
pub open spec fn nearest_one_post(t: KdTree, q: Seq<u32>, metric: Metric, r: (u32, u32)) -> bool {
    &&& (t.entries().len() == 0 ==> r == (u32::MAX, 0u32))
    &&& ((r.0 == u32::MAX && r.1 == 0) || exists|i: int|
        0 <= i < t.entries().len() && (#[trigger] t.entries()[i]).1 == r.1 && dist_spec(
            metric,
            q,
            t.entries()[i].0,
        ) == r.0 as int)
    &&& (admissible(t, q, metric) ==> forall|i: int|
        0 <= i < t.entries().len() ==> dist_spec(metric, q, (#[trigger] t.entries()[i]).0)
            >= r.0 as int)
}

/// What `nearest_n` promises: a sorted list of as many results as the tree
/// and `qty` allow, each naming a stored pair at its true distance, and —
/// whenever the pruning bound is admissible — holding the `qty` smallest
/// distances: any scored pair beyond those kept is at least the worst kept
/// distance away.
pub open spec fn nearest_n_post(
    t: KdTree,
    q: Seq<u32>,
    qty: usize,
    metric: Metric,
    res: Seq<(u32, u32)>,
) -> bool {
    &&& cands_sorted(res)
    &&& res.len() == (if qty as int <= t.entries().len() {
        qty as int
    } else {
        t.entries().len() as int
    })
    &&& res.to_multiset().subset_of(scored(metric, q, t.entries()).to_multiset())
    &&& (admissible(t, q, metric) ==> forall|pr: (u32, u32)|
        scored(metric, q, t.entries()).to_multiset().count(pr) > #[trigger] res.to_multiset().count(
            pr,
        ) ==> res.len() == qty && (qty > 0 ==> pr.0 >= res.last().0))
}

impl KdTree {
    /// The stored pair nearest to `query`. On an empty tree (and whenever no
    /// pair beats the sentinel) the result is `(u32::MAX, 0)`.
    pub fn nearest_one(&self, query: &Vec<u32>, metric: Metric) -> (r: (u32, u32))
        requires
            self.wf(),
            query@.len() == self.k,
        ensures
            nearest_one_post(*self, query@, metric, r),
    {
        let mut off: Vec<u32> = Vec::new();
        let mut i: usize = 0;
        while i < self.k
            invariant
                i <= self.k,
                off@.len() == i,
                forall|d: int| 0 <= d < i ==> off@[d] == 0u32,
            decreases self.k - i,
        {
            off.push(0);
            i += 1;
        }
        proof {
            lemma_off_prefix_zero(off@, self.k as int);
            assert forall|d: int| 0 <= d < self.k implies #[trigger] off@[d] as int <= gap(
                query@[d] as int,
                self.lo0()[d],
                self.hi0()[d],
            ) by {}
        }
        let r = self.nearest_one_rec(
            query,
            metric,
            self.root_index,
            0,
            0,
            u32::MAX,
            &mut off,
            0,
            Ghost(self.lo0()),
            Ghost(self.hi0()),
        );
        r
    }

    /// One node of the branch-and-bound descent. `rd` is the saturating sum
    /// of the squared offsets in `off`, a lower bound on the distance from
    /// the query to any point stored under `idx`.
    #[verifier::rlimit(100)]
    fn nearest_one_rec(
        &self,
        query: &Vec<u32>,
        metric: Metric,
        idx: u32,
        dim: usize,
        best_item: u32,
        best_dist: u32,
        off: &mut Vec<u32>,
        rd: u32,
        Ghost(lo): Ghost<Seq<int>>,
        Ghost(hi): Ghost<Seq<int>>,
    ) -> (r: (u32, u32))
        requires
            self.arena_wf(),
            query@.len() == self.k,
            dim < self.k,
            lo.len() == self.k,
            hi.len() == self.k,
            old(off)@.len() == self.k,
            node_ok(idx as int, self.stems@.len() as int, self.leaves@.len() as int),
            node_inv(self.stems@, self.leaves@, idx as int, dim as int, self.k as int, lo, hi),
            forall|d: int|
                0 <= d < self.k ==> #[trigger] old(off)@[d] as int <= gap(
                    query@[d] as int,
                    lo[d],
                    hi[d],
                ),
            rd as int == off_prefix(old(off)@, self.k as int),
        ensures
            final(off)@ == old(off)@,
            r.0 <= best_dist,
            (r.0 == best_dist && r.1 == best_item) || exists|i: int|
                0 <= i < subtree(self.stems@, self.leaves@, idx as int).len() && (#[trigger] subtree(
                    self.stems@,
                    self.leaves@,
                    idx as int,
                )[i]).1 == r.1 && dist_spec(
                    metric,
                    query@,
                    subtree(self.stems@, self.leaves@, idx as int)[i].0,
                ) == r.0 as int,
            adm_node(self.stems@, self.leaves@, idx as int, query@, metric) ==> forall|i: int|
                0 <= i < subtree(self.stems@, self.leaves@, idx as int).len() ==> dist_spec(
                    metric,
                    query@,
                    (#[trigger] subtree(self.stems@, self.leaves@, idx as int)[i]).0,
                ) >= r.0 as int,
            // a leaf is scanned in full, so there the result is minimal
            // whatever the metric
            !is_stem(idx as int) ==> forall|i: int|
                0 <= i < subtree(self.stems@, self.leaves@, idx as int).len() ==> dist_spec(
                    metric,
                    query@,
                    (#[trigger] subtree(self.stems@, self.leaves@, idx as int)[i]).0,
                ) >= r.0 as int,
        decreases (if is_stem(idx as int) {
            self.stems@.len() - idx as int
        } else {
            0
        }),
    {
        let ghost sub = subtree(self.stems@, self.leaves@, idx as int);
        let ghost k = self.k as int;
        if idx < LEAF_OFFSET {
            let s = self.stems[idx as usize];
            let ghost v = s.split_val as int;
            let next = if dim + 1 == self.k {
                0
            } else {
                dim + 1
            };
            let old_off = off[dim];
            let new_off = abs_diff_exec(query[dim], s.split_val);
            let go_left = query[dim] < s.split_val;
            let closer = if go_left {
                s.left
            } else {
                s.right
            };
            let further = if go_left {
                s.right
            } else {
                s.left
            };
            let ghost clo = if go_left {
                lo
            } else {
                lo.update(dim as int, v)
            };
            let ghost chi = if go_left {
                hi.update(dim as int, v)
            } else {
                hi
            };
            let ghost flo = if go_left {
                lo.update(dim as int, v)
            } else {
                lo
            };
            let ghost fhi = if go_left {
                hi
            } else {
                hi.update(dim as int, v)
            };
            let ghost csub = subtree(self.stems@, self.leaves@, closer as int);
            let ghost fsub = subtree(self.stems@, self.leaves@, further as int);
            proof {
                assert forall|d: int| 0 <= d < k implies #[trigger] off@[d] as int <= gap(
                    query@[d] as int,
                    clo[d],
                    chi[d],
                ) by {
                    if d == dim as int {
                        assert(lo[d] <= v <= hi[d]);
                    }
                }
            }
            let (d1, i1) = self.nearest_one_rec(
                query,
                metric,
                closer,
                next,
                best_item,
                best_dist,
                off,
                rd,
                Ghost(clo),
                Ghost(chi),
            );
            let mut bd = best_dist;
            let mut bi = best_item;
            if d1 < bd {
                bd = d1;
                bi = i1;
            }
            proof {
                assert(bd == d1);
            }
            let so_new = ssq_exec(new_off);
            let so_old = ssq_exec(old_off);
            let rd2 = sat_add(rd, sat_sub(so_new, so_old));
            let ghost off2 = off@.update(dim as int, new_off);
            proof {
                // the split value lies between the current bounds, so the new
                // offset can only grow
                assert(lo[dim as int] <= v <= hi[dim as int]);
                assert(old_off as int <= gap(query@[dim as int] as int, lo[dim as int], hi[dim as int]));
                assert(gap(query@[dim as int] as int, lo[dim as int], hi[dim as int]) <= abs_diff(
                    query@[dim as int] as int,
                    v,
                ));
                assert(old_off <= new_off);
                crate::num::lemma_ssq_monotone(old_off as int, new_off as int);
                lemma_off_prefix_update(off@, dim as int, new_off, k);
                lemma_off_prefix_bounds(off@, k);
                crate::dist::lemma_ssq_bounds(new_off as int);
                crate::dist::lemma_ssq_bounds(old_off as int);
                assert(rd2 as int == off_prefix(off2, k));
                // the updated offsets bound the further child's box
                assert forall|d: int| 0 <= d < k implies #[trigger] off2[d] as int <= gap(
                    query@[d] as int,
                    flo[d],
                    fhi[d],
                ) by {
                    if d != dim as int {
                        assert(off2[d] == off@[d]);
                    }
                }
            }
            let r;
            if rd2 <= bd {
                vec_set(off, dim, new_off);
                let (d2, i2) = self.nearest_one_rec(
                    query,
                    metric,
                    further,
                    next,
                    bi,
                    bd,
                    off,
                    rd2,
                    Ghost(flo),
                    Ghost(fhi),
                );
                vec_set(off, dim, old_off);
                proof {
                    assert(off@ =~= old(off)@);
                }
                if d2 < bd {
                    bd = d2;
                    bi = i2;
                }
                proof {
                    assert(bd == d2);
                }
                r = (bd, bi);
            } else {
                proof {
                    // pruned: every point in the further subtree is at least
                    // rd2 away, which already exceeds the best distance
                    if adm_node(self.stems@, self.leaves@, idx as int, query@, metric) {
                        lemma_subtree_in_box(
                            self.stems@,
                            self.leaves@,
                            further as int,
                            next as int,
                            k,
                            flo,
                            fhi,
                        );
                        if metric == Metric::Manhattan {
                            lemma_subtree_capped(
                                self.stems@,
                                self.leaves@,
                                further as int,
                                SCALE as int,
                            );
                        }
                        assert forall|i: int| 0 <= i < fsub.len() implies dist_spec(
                            metric,
                            query@,
                            (#[trigger] fsub[i]).0,
                        ) >= rd2 as int by {
                            let p = fsub[i].0;
                            assert(point_in_box(p, k, flo, fhi));
                            assert forall|d: int| 0 <= d < k implies #[trigger] off2[d] as int
                                <= abs_diff(query@[d] as int, p[d] as int) by {
                                if d == dim as int {
                                    assert(flo[d] <= p[d] as int <= fhi[d]);
                                } else {
                                    assert(off2[d] == off@[d]);
                                    assert(flo[d] == lo[d] && fhi[d] == hi[d]);
                                    assert(lo[d] <= p[d] as int <= hi[d]);
                                }
                            }
                            if metric == Metric::Manhattan {
                                assert forall|d: int| 0 <= d < k implies #[trigger] off2[d] as int
                                    <= SCALE as int by {
                                    assert(p[d] as int <= SCALE as int);
                                    assert(query@[d] as int <= SCALE as int);
                                    assert(off2[d] as int <= abs_diff(query@[d] as int, p[d] as int));
                                }
                            }
                            lemma_off_bounds_dist(metric, query@, p, off2, k);
                            assert(p.len() == k);
                        }
                    }
                }
                r = (bd, bi);
            }
            proof {
                let sl = subtree(self.stems@, self.leaves@, s.left as int);
                let sr = subtree(self.stems@, self.leaves@, s.right as int);
                assert(sub == sl + sr);
                if go_left {
                    assert(forall|j: int| 0 <= j < sl.len() ==> #[trigger] csub[j] == sub[j]);
                    assert(forall|j: int|
                        0 <= j < sr.len() ==> #[trigger] fsub[j] == sub[sl.len() + j]);
                } else {
                    assert(forall|j: int| 0 <= j < sl.len() ==> #[trigger] fsub[j] == sub[j]);
                    assert(forall|j: int|
                        0 <= j < sr.len() ==> #[trigger] csub[j] == sub[sl.len() + j]);
                }
                if adm_node(self.stems@, self.leaves@, idx as int, query@, metric) {
                    assert(adm_node(self.stems@, self.leaves@, closer as int, query@, metric));
                    assert(adm_node(self.stems@, self.leaves@, further as int, query@, metric));
                    assert forall|i: int| 0 <= i < sub.len() implies dist_spec(
                        metric,
                        query@,
                        (#[trigger] sub[i]).0,
                    ) >= r.0 as int by {
                        if i < sl.len() {
                            if go_left {
                                assert(sub[i] == csub[i]);
                            } else {
                                assert(sub[i] == fsub[i]);
                            }
                        } else {
                            if go_left {
                                assert(sub[i] == fsub[i - sl.len()]);
                            } else {
                                assert(sub[i] == csub[i - sl.len()]);
                            }
                        }
                    }
                }
            }
            r
        } else {
            let li = (idx - LEAF_OFFSET) as usize;
            let lf = &self.leaves[li];
            let ghost ps = leaf_pairs(self.leaves@[li as int]);
            let n = lf.items.len();
            let mut bd = best_dist;
            let mut bi = best_item;
            let mut t: usize = 0;
            while t < n
                invariant
                    self.arena_wf(),
                    query@.len() == self.k,
                    li < self.leaves@.len(),
                    lf == self.leaves@[li as int],
                    ps == leaf_pairs(self.leaves@[li as int]),
                    n == lf.items@.len(),
                    lf.points@.len() == n,
                    t <= n,
                    bd <= best_dist,
                    (bd == best_dist && bi == best_item) || exists|i: int|
                        0 <= i < t && (#[trigger] ps[i]).1 == bi && dist_spec(
                            metric,
                            query@,
                            ps[i].0,
                        ) == bd as int,
                    forall|i: int|
                        0 <= i < t ==> dist_spec(metric, query@, (#[trigger] ps[i]).0) >= bd as int,
                decreases n - t,
            {
                let d = dist(metric, query, &lf.points[t]);
                if d < bd {
                    bd = d;
                    bi = lf.items[t];
                    proof {
                        assert(ps[t as int].1 == bi);
                        assert(ps[t as int].0 == lf.points@[t as int]@);
                    }
                }
                t += 1;
            }
            proof {
                assert(sub == ps);
            }
            (bd, bi)
        }
    }
}

/// Whether a candidate at distance `d` would still be taken.
fn belongs(best: &Vec<(u32, u32)>, qty: usize, d: u32) -> (r: bool)
    ensures
        r == (best@.len() < qty || (best@.len() > 0 && d < best@.last().0)),
{
    best.len() < qty || (best.len() > 0 && d < best[best.len() - 1].0)
}

impl KdTree {
    /// The `qty` stored pairs nearest to `query`, yielded in ascending
    /// distance order (ties toward larger items).
    pub fn nearest_n(&self, query: &Vec<u32>, qty: usize, metric: Metric) -> (r: NearestIter)
        requires
            self.wf(),
            query@.len() == self.k,
        ensures
            r.pos == 0,
            r.remaining() == r.results@,
            nearest_n_post(*self, query@, qty, metric, r.results@),
    {
        broadcast use vstd::seq_lib::group_to_multiset_ensures;
        broadcast use vstd::multiset::group_multiset_axioms;

        let mut best: Vec<(u32, u32)> = Vec::new();
        let mut off: Vec<u32> = Vec::new();
        let mut i: usize = 0;
        while i < self.k
            invariant
                i <= self.k,
                off@.len() == i,
                forall|d: int| 0 <= d < i ==> off@[d] == 0u32,
            decreases self.k - i,
        {
            off.push(0);
            i += 1;
        }
        proof {
            lemma_off_prefix_zero(off@, self.k as int);
            assert forall|d: int| 0 <= d < self.k implies #[trigger] off@[d] as int <= gap(
                query@[d] as int,
                self.lo0()[d],
                self.hi0()[d],
            ) by {}
        }
        let ghost m0 = best@;
        self.nearest_n_rec(
            query,
            metric,
            self.root_index,
            0,
            qty,
            &mut best,
            &mut off,
            0,
            Ghost(self.lo0()),
            Ghost(self.hi0()),
        );
        proof {
            assert(m0.to_multiset() =~= Multiset::<(u32, u32)>::empty());
            assert(m0.to_multiset().add(
                scored(metric, query@, self.entries()).to_multiset(),
            ) =~= scored(metric, query@, self.entries()).to_multiset());
        }
        let r = NearestIter { results: best, pos: 0 };
        proof {
            assert(r.remaining() =~= r.results@);
        }
        r
    }

    /// One node of the k-nearest descent: like the nearest-one descent, but
    /// bounded by the current worst candidate instead of the single best.
    #[verifier::rlimit(100)]
    fn nearest_n_rec(
        &self,
        query: &Vec<u32>,
        metric: Metric,
        idx: u32,
        dim: usize,
        qty: usize,
        best: &mut Vec<(u32, u32)>,
        off: &mut Vec<u32>,
        rd: u32,
        Ghost(lo): Ghost<Seq<int>>,
        Ghost(hi): Ghost<Seq<int>>,
    )
        requires
            self.arena_wf(),
            query@.len() == self.k,
            dim < self.k,
            lo.len() == self.k,
            hi.len() == self.k,
            old(off)@.len() == self.k,
            node_ok(idx as int, self.stems@.len() as int, self.leaves@.len() as int),
            node_inv(self.stems@, self.leaves@, idx as int, dim as int, self.k as int, lo, hi),
            forall|d: int|
                0 <= d < self.k ==> #[trigger] old(off)@[d] as int <= gap(
                    query@[d] as int,
                    lo[d],
                    hi[d],
                ),
            rd as int == off_prefix(old(off)@, self.k as int),
            cands_sorted(old(best)@),
            old(best)@.len() <= qty,
        ensures
            final(off)@ == old(off)@,
            cands_sorted(final(best)@),
            final(best)@.len() == (if old(best)@.len() + subtree(
                self.stems@,
                self.leaves@,
                idx as int,
            ).len() <= qty {
                old(best)@.len() + subtree(self.stems@, self.leaves@, idx as int).len()
            } else {
                qty as nat
            }),
            final(best)@.to_multiset().subset_of(
                old(best)@.to_multiset().add(
                    scored(
                        metric,
                        query@,
                        subtree(self.stems@, self.leaves@, idx as int),
                    ).to_multiset(),
                ),
            ),
            old(best)@.len() == qty && qty > 0 ==> final(best)@.len() == qty && final(best)@.last().0 <= old(best)@.last().0,
            adm_node(self.stems@, self.leaves@, idx as int, query@, metric) ==> forall|pr: (u32, u32)|
                old(best)@.to_multiset().add(
                    scored(
                        metric,
                        query@,
                        subtree(self.stems@, self.leaves@, idx as int),
                    ).to_multiset(),
                ).count(pr) > #[trigger] final(best)@.to_multiset().count(pr) ==> final(best)@.len() == qty && (qty > 0 ==> pr.0 >= final(best)@.last().0),
        decreases (if is_stem(idx as int) {
            self.stems@.len() - idx as int
        } else {
            0
        }),
    {
        broadcast use vstd::seq_lib::group_to_multiset_ensures;
        broadcast use vstd::multiset::group_multiset_axioms;

        let ghost sub = subtree(self.stems@, self.leaves@, idx as int);
        let ghost k = self.k as int;
        let ghost m0 = old(best)@;
        if idx < LEAF_OFFSET {
            let s = self.stems[idx as usize];
            let ghost v = s.split_val as int;
            let next = if dim + 1 == self.k {
                0
            } else {
                dim + 1
            };
            let old_off = off[dim];
            let new_off = abs_diff_exec(query[dim], s.split_val);
            let go_left = query[dim] < s.split_val;
            let closer = if go_left {
                s.left
            } else {
                s.right
            };
            let further = if go_left {
                s.right
            } else {
                s.left
            };
            let ghost clo = if go_left {
                lo
            } else {
                lo.update(dim as int, v)
            };
            let ghost chi = if go_left {
                hi.update(dim as int, v)
            } else {
                hi
            };
            let ghost flo = if go_left {
                lo.update(dim as int, v)
            } else {
                lo
            };
            let ghost fhi = if go_left {
                hi
            } else {
                hi.update(dim as int, v)
            };
            let ghost csub = subtree(self.stems@, self.leaves@, closer as int);
            let ghost fsub = subtree(self.stems@, self.leaves@, further as int);
            let ghost sc = scored(metric, query@, csub);
            let ghost sf = scored(metric, query@, fsub);
            proof {
                assert forall|d: int| 0 <= d < k implies #[trigger] off@[d] as int <= gap(
                    query@[d] as int,
                    clo[d],
                    chi[d],
                ) by {
                    if d == dim as int {
                        assert(lo[d] <= v <= hi[d]);
                    }
                }
            }
            if belongs(best, qty, rd) {
                self.nearest_n_rec(
                    query,
                    metric,
                    closer,
                    next,
                    qty,
                    best,
                    off,
                    rd,
                    Ghost(clo),
                    Ghost(chi),
                );
            } else {
                proof {
                    // the whole closer subtree is at least rd away, and rd
                    // already fails to beat the worst kept candidate
                    if adm_node(self.stems@, self.leaves@, closer as int, query@, metric) {
                        lemma_prune(
                            self.stems@,
                            self.leaves@,
                            closer as int,
                            next as int,
                            k,
                            clo,
                            chi,
                            query@,
                            metric,
                            off@,
                            rd,
                        );
                    }
                }
            }
            let ghost m1 = best@;
            let so_new = ssq_exec(new_off);
            let so_old = ssq_exec(old_off);
            let rd2 = sat_add(rd, sat_sub(so_new, so_old));
            let ghost off2 = off@.update(dim as int, new_off);
            proof {
                assert(lo[dim as int] <= v <= hi[dim as int]);
                assert(old_off as int <= gap(
                    query@[dim as int] as int,
                    lo[dim as int],
                    hi[dim as int],
                ));
                assert(gap(query@[dim as int] as int, lo[dim as int], hi[dim as int]) <= abs_diff(
                    query@[dim as int] as int,
                    v,
                ));
                assert(old_off <= new_off);
                crate::num::lemma_ssq_monotone(old_off as int, new_off as int);
                lemma_off_prefix_update(off@, dim as int, new_off, k);
                lemma_off_prefix_bounds(off@, k);
                crate::dist::lemma_ssq_bounds(new_off as int);
                crate::dist::lemma_ssq_bounds(old_off as int);
                assert(rd2 as int == off_prefix(off2, k));
                assert forall|d: int| 0 <= d < k implies #[trigger] off2[d] as int <= gap(
                    query@[d] as int,
                    flo[d],
                    fhi[d],
                ) by {
                    if d != dim as int {
                        assert(off2[d] == off@[d]);
                    }
                }
            }
            if belongs(best, qty, rd2) {
                vec_set(off, dim, new_off);
                self.nearest_n_rec(
                    query,
                    metric,
                    further,
                    next,
                    qty,
                    best,
                    off,
                    rd2,
                    Ghost(flo),
                    Ghost(fhi),
                );
                vec_set(off, dim, old_off);
                proof {
                    assert(off@ =~= old(off)@);
                }
            } else {
                proof {
                    if adm_node(self.stems@, self.leaves@, further as int, query@, metric) {
                        lemma_prune(
                            self.stems@,
                            self.leaves@,
                            further as int,
                            next as int,
                            k,
                            flo,
                            fhi,
                            query@,
                            metric,
                            off2,
                            rd2,
                        );
                    }
                }
            }
            proof {
                let sl = subtree(self.stems@, self.leaves@, s.left as int);
                let sr = subtree(self.stems@, self.leaves@, s.right as int);
                assert(sub == sl + sr);
                assert(scored(metric, query@, sub) =~= scored(metric, query@, sl) + scored(
                    metric,
                    query@,
                    sr,
                ));
                vstd::seq_lib::lemma_multiset_commutative(
                    scored(metric, query@, sl),
                    scored(metric, query@, sr),
                );
                assert(sc.to_multiset().add(sf.to_multiset()) =~= scored(
                    metric,
                    query@,
                    sub,
                ).to_multiset());
                let total = m0.to_multiset().add(scored(metric, query@, sub).to_multiset());
                assert(total =~= m0.to_multiset().add(sc.to_multiset()).add(sf.to_multiset()));
                if adm_node(self.stems@, self.leaves@, idx as int, query@, metric) {
                    assert(adm_node(self.stems@, self.leaves@, closer as int, query@, metric));
                    assert(adm_node(self.stems@, self.leaves@, further as int, query@, metric));
                    assert forall|pr: (u32, u32)|
                        total.count(pr) > #[trigger] best@.to_multiset().count(pr) implies best@.len()
                        == qty && (qty > 0 ==> pr.0 >= best@.last().0) by {
                        if m0.to_multiset().add(sc.to_multiset()).count(pr)
                            > m1.to_multiset().count(pr) {
                        } else {
                            assert(m1.to_multiset().add(sf.to_multiset()).count(pr)
                                > best@.to_multiset().count(pr));
                        }
                    }
                }
                assert(best@.to_multiset().subset_of(total)) by {
                    assert forall|pr: (u32, u32)| #[trigger] best@.to_multiset().count(pr)
                        <= total.count(pr) by {
                        assert(best@.to_multiset().count(pr) <= m1.to_multiset().count(pr)
                            + sf.to_multiset().count(pr));
                        assert(m1.to_multiset().count(pr) <= m0.to_multiset().count(pr)
                            + sc.to_multiset().count(pr));
                    }
                }
            }
        } else {
            let li = (idx - LEAF_OFFSET) as usize;
            let lf = &self.leaves[li];
            let ghost ps = leaf_pairs(self.leaves@[li as int]);
            let ghost sps = scored(metric, query@, ps);
            let n = lf.items.len();
            let mut t: usize = 0;
            while t < n
                invariant
                    self.arena_wf(),
                    query@.len() == self.k,
                    li < self.leaves@.len(),
                    lf == self.leaves@[li as int],
                    ps == leaf_pairs(self.leaves@[li as int]),
                    sps == scored(metric, query@, ps),
                    n == lf.items@.len(),
                    lf.points@.len() == n,
                    t <= n,
                    cands_sorted(best@),
                    best@.len() == (if m0.len() + t <= qty {
                        m0.len() + t
                    } else {
                        qty as int
                    }),
                    best@.to_multiset().subset_of(
                        m0.to_multiset().add(sps.subrange(0, t as int).to_multiset()),
                    ),
                    m0.len() == qty && qty > 0 ==> best@.len() == qty && best@.last().0
                        <= m0.last().0,
                    forall|pr: (u32, u32)|
                        m0.to_multiset().add(sps.subrange(0, t as int).to_multiset()).count(pr)
                            > #[trigger] best@.to_multiset().count(pr) ==> best@.len() == qty && (
                        qty > 0 ==> pr.0 >= best@.last().0),
                decreases n - t,
            {
                broadcast use vstd::seq_lib::group_to_multiset_ensures;
                broadcast use vstd::multiset::group_multiset_axioms;

                let ghost bpre = best@;
                let d = dist(metric, query, &lf.points[t]);
                proof {
                    lemma_dist_prefix_bounds(metric, query@, lf.points@[t as int]@, k);
                    assert(sps[t as int] == (d, lf.items@[t as int]));
                }
                let item_t = lf.items[t];
                accept_candidate(best, qty, d, item_t);
                proof {
                    assert(sps.subrange(0, t + 1) =~= sps.subrange(0, t as int).push(
                        sps[t as int],
                    ));
                    let pm = m0.to_multiset().add(sps.subrange(0, t as int).to_multiset());
                    let nm = m0.to_multiset().add(sps.subrange(0, t + 1).to_multiset());
                    assert(nm =~= pm.insert((d, item_t)));
                    if bpre.len() < qty {
                        assert forall|pr: (u32, u32)|
                            nm.count(pr) > #[trigger] best@.to_multiset().count(pr) implies best@.len()
                            == qty && (qty > 0 ==> pr.0 >= best@.last().0) by {
                            assert(pm.count(pr) > bpre.to_multiset().count(pr));
                        }
                    } else if qty > 0 && d < bpre.last().0 {
                        assert forall|pr: (u32, u32)|
                            nm.count(pr) > #[trigger] best@.to_multiset().count(pr) implies best@.len()
                            == qty && (qty > 0 ==> pr.0 >= best@.last().0) by {
                            if pr == bpre.last() {
                                assert(pr.0 >= best@.last().0);
                            } else if pr == (d, item_t) {
                                assert(best@.to_multiset().count(pr) >= 1 + bpre.to_multiset().remove(
                                    bpre.last(),
                                ).count(pr) - 1);
                                assert(pm.count(pr) > bpre.to_multiset().count(pr));
                            } else {
                                assert(pm.count(pr) > bpre.to_multiset().count(pr));
                            }
                        }
                    } else {
                        assert(best@ == bpre);
                        assert forall|pr: (u32, u32)|
                            nm.count(pr) > #[trigger] best@.to_multiset().count(pr) implies best@.len()
                            == qty && (qty > 0 ==> pr.0 >= best@.last().0) by {
                            if pr != (d, item_t) {
                                assert(pm.count(pr) > bpre.to_multiset().count(pr));
                            }
                        }
                    }
                }
                t += 1;
            }
            proof {
                assert(sub == ps);
                assert(sps.subrange(0, n as int) =~= sps);
            }
        }
    }
}

/// Everything under a pruned node is at least the running bound away.
#[verifier::rlimit(60)]
proof fn lemma_prune(
    stems: Seq<crate::tree::StemNode>,
    leaves: Seq<crate::tree::LeafNode>,
    idx: int,
    dim: int,
    k: int,
    lo: Seq<int>,
    hi: Seq<int>,
    q: Seq<u32>,
    m: Metric,
    off: Seq<u32>,
    rd: u32,
)
    requires
        stems_ok(stems, leaves.len() as int),
        node_ok(idx, stems.len() as int, leaves.len() as int),
        node_inv(stems, leaves, idx, dim, k, lo, hi),
        adm_node(stems, leaves, idx, q, m),
        0 <= dim < k,
        q.len() == k,
        off.len() == k,
        lo.len() == k,
        hi.len() == k,
        forall|d: int| 0 <= d < k ==> #[trigger] off[d] as int <= gap(q[d] as int, lo[d], hi[d]),
        rd as int == off_prefix(off, k),
    ensures
        forall|i: int|
            0 <= i < subtree(stems, leaves, idx).len() ==> dist_spec(
                m,
                q,
                (#[trigger] subtree(stems, leaves, idx)[i]).0,
            ) >= rd as int,
        forall|i: int|
            0 <= i < scored(m, q, subtree(stems, leaves, idx)).len() ==> (#[trigger] scored(
                m,
                q,
                subtree(stems, leaves, idx),
            )[i]).0 >= rd,
{
    let sub = subtree(stems, leaves, idx);
    lemma_subtree_in_box(stems, leaves, idx, dim, k, lo, hi);
    if m == Metric::Manhattan {
        lemma_subtree_capped(stems, leaves, idx, SCALE as int);
    }
    assert forall|i: int| 0 <= i < sub.len() implies dist_spec(m, q, (#[trigger] sub[i]).0)
        >= rd as int by {
        let p = sub[i].0;
        assert(point_in_box(p, k, lo, hi));
        assert forall|d: int| 0 <= d < k implies #[trigger] off[d] as int <= abs_diff(
            q[d] as int,
            p[d] as int,
        ) by {
            assert(lo[d] <= p[d] as int <= hi[d]);
        }
        if m == Metric::Manhattan {
            assert forall|d: int| 0 <= d < k implies #[trigger] off[d] as int <= SCALE as int by {
                assert(p[d] as int <= SCALE as int);
                assert(q[d] as int <= SCALE as int);
                assert(off[d] as int <= abs_diff(q[d] as int, p[d] as int));
            }
        }
        lemma_off_bounds_dist(m, q, p, off, k);
        assert(p.len() == k);
    }
    assert forall|i: int| 0 <= i < scored(m, q, sub).len() implies (#[trigger] scored(
        m,
        q,
        sub,
    )[i]).0 >= rd by {
        lemma_dist_prefix_bounds(m, q, sub[i].0, q.len() as int);
        assert(dist_spec(m, q, sub[i].0) >= rd as int);
    }
}

/// All-zero offsets give a zero bound.
pub proof fn lemma_off_prefix_zero(off: Seq<u32>, n: int)
    requires
        forall|d: int| 0 <= d < n ==> off[d] == 0u32,
    ensures
        off_prefix(off, n) == 0,
    decreases n,
{
    if n > 0 {
        lemma_off_prefix_zero(off, n - 1);
        assert(ssq(0) == 0) by {
            assert(0int * 0int == 0) by (nonlinear_arith);
            assert(0int / (SCALE as int) == 0) by (nonlinear_arith);
        }
    }
}

} // verus!
