//! The bucket k-d tree and its mathematical model.
//!
//! Nodes live in two append-only arenas (`stems`, `leaves`) addressed by `u32`
//! indices. An index below `LEAF_OFFSET` names a stem; from `LEAF_OFFSET` on it
//! names leaf `idx - LEAF_OFFSET`. Because a stem only ever points at nodes
//! created after it, a stem's stem children carry strictly larger indices,
//! which grounds every recursion over the structure.

use vstd::prelude::*;

verus! {

/// Arena indices at or above this value name leaves; below it, stems.
pub const LEAF_OFFSET: u32 = 2147483648;

/// An internal node: points with coordinate `<= split_val` along the node's
/// split dimension (depth modulo `k`) lie under `left`, the rest under `right`.
#[derive(Clone, Copy)]
pub struct StemNode {
    pub split_val: u32,
    pub left: u32,
    pub right: u32,
}

/// A bucket of up to `b` point/item pairs held in two parallel vectors.
pub struct LeafNode {
    pub points: Vec<Vec<u32>>,
    pub items: Vec<u32>,
}

/// The tree: two arenas, the root node index, and the stored-pair count.
pub struct KdTree {
    pub stems: Vec<StemNode>,
    pub leaves: Vec<LeafNode>,
    pub root_index: u32,
    pub size: u32,
    pub k: usize,
    pub b: usize,
}

pub open spec fn leaf_off() -> int {
    LEAF_OFFSET as int
}

pub open spec fn is_stem(idx: int) -> bool {
    0 <= idx < leaf_off()
}

/// A valid node reference given arena sizes `ns` (stems) and `nl` (leaves).
pub open spec fn node_ok(idx: int, ns: int, nl: int) -> bool {
    0 <= idx && (if idx < leaf_off() {
        idx < ns
    } else {
        idx - leaf_off() < nl
    })
}

/// A valid child reference of the stem at index `i`: stem children point
/// strictly forward in the arena.
pub open spec fn child_ok(c: int, i: int, ns: int, nl: int) -> bool {
    &&& node_ok(c, ns, nl)
    &&& (c < leaf_off() ==> i < c)
}

pub open spec fn stem_ok(s: StemNode, i: int, ns: int, nl: int) -> bool {
    &&& child_ok(s.left as int, i, ns, nl)
    &&& child_ok(s.right as int, i, ns, nl)
}

pub open spec fn stems_ok(stems: Seq<StemNode>, nl: int) -> bool {
    forall|i: int|
        0 <= i < stems.len() ==> stem_ok(#[trigger] stems[i], i, stems.len() as int, nl)
}

/// Parallel point and item sequences read as one sequence of pairs.
pub open spec fn zip_pairs(ps: Seq<Vec<u32>>, is: Seq<u32>) -> Seq<(Seq<u32>, u32)> {
    Seq::new(is.len(), |i: int| (ps[i]@, is[i]))
}

/// The point/item pairs of one leaf, in slot order.
pub open spec fn leaf_pairs(l: LeafNode) -> Seq<(Seq<u32>, u32)> {
    zip_pairs(l.points@, l.items@)
}

/// All pairs stored under a node, left subtree first.
pub open spec fn subtree(stems: Seq<StemNode>, leaves: Seq<LeafNode>, idx: int) -> Seq<
    (Seq<u32>, u32),
>
    decreases (if is_stem(idx) {
        stems.len() - idx
    } else {
        0
    }),
    when stems_ok(stems, leaves.len() as int) && node_ok(idx, stems.len() as int, leaves.len() as int)
{
    if is_stem(idx) {
        subtree(stems, leaves, stems[idx].left as int) + subtree(
            stems,
            leaves,
            stems[idx].right as int,
        )
    } else {
        leaf_pairs(leaves[idx - leaf_off()])
    }
}

/// Every node index occurring in the subtree under `idx`, itself included.
pub open spec fn node_list(stems: Seq<StemNode>, nl: int, idx: int) -> Seq<int>
    decreases (if is_stem(idx) {
        stems.len() - idx
    } else {
        0
    }),
    when stems_ok(stems, nl) && node_ok(idx, stems.len() as int, nl)
{
    if is_stem(idx) {
        seq![idx] + node_list(stems, nl, stems[idx].left as int) + node_list(
            stems,
            nl,
            stems[idx].right as int,
        )
    } else {
        seq![idx]
    }
}

pub open spec fn distinct(s: Seq<int>) -> bool {
    forall|i: int, j: int| 0 <= i < j < s.len() ==> s[i] != s[j]
}

pub open spec fn next_dim(dim: int, k: int) -> int {
    if dim + 1 == k {
        0
    } else {
        dim + 1
    }
}

/// A point of dimension `k` lying inside the per-dimension box `[lo, hi]`.
pub open spec fn point_in_box(p: Seq<u32>, k: int, lo: Seq<int>, hi: Seq<int>) -> bool {
    &&& p.len() == k
    &&& forall|d: int| 0 <= d < k ==> lo[d] <= #[trigger] p[d] as int <= hi[d]
}

/// The geometric invariant: every stem's split value lies inside the box that
/// the path so far allows, and every stored point lies inside the box of the
/// leaf that holds it.
pub open spec fn node_inv(
    stems: Seq<StemNode>,
    leaves: Seq<LeafNode>,
    idx: int,
    dim: int,
    k: int,
    lo: Seq<int>,
    hi: Seq<int>,
) -> bool
    decreases (if is_stem(idx) {
        stems.len() - idx
    } else {
        0
    }),
    when stems_ok(stems, leaves.len() as int) && node_ok(idx, stems.len() as int, leaves.len() as int)
{
    if is_stem(idx) {
        let s = stems[idx];
        &&& lo[dim] <= s.split_val as int <= hi[dim]
        &&& node_inv(
            stems,
            leaves,
            s.left as int,
            next_dim(dim, k),
            k,
            lo,
            hi.update(dim, s.split_val as int),
        )
        &&& node_inv(
            stems,
            leaves,
            s.right as int,
            next_dim(dim, k),
            k,
            lo.update(dim, s.split_val as int),
            hi,
        )
    } else {
        let ps = leaf_pairs(leaves[idx - leaf_off()]);
        forall|i: int| 0 <= i < ps.len() ==> point_in_box((#[trigger] ps[i]).0, k, lo, hi)
    }
}

/// All split values and coordinates under `idx` lie at or below `c`.
pub open spec fn cap_ok(stems: Seq<StemNode>, leaves: Seq<LeafNode>, idx: int, c: int) -> bool
    decreases (if is_stem(idx) {
        stems.len() - idx
    } else {
        0
    }),
    when stems_ok(stems, leaves.len() as int) && node_ok(idx, stems.len() as int, leaves.len() as int)
{
    if is_stem(idx) {
        let s = stems[idx];
        &&& s.split_val as int <= c
        &&& cap_ok(stems, leaves, s.left as int, c)
        &&& cap_ok(stems, leaves, s.right as int, c)
    } else {
        let ps = leaf_pairs(leaves[idx - leaf_off()]);
        forall|i: int, d: int|
            0 <= i < ps.len() && 0 <= d < ps[i].0.len() ==> #[trigger] ps[i].0[d] as int <= c
    }
}

/// Every coordinate of `p` lies at or below `c`.
pub open spec fn point_below(p: Seq<u32>, c: int) -> bool {
    forall|d: int| 0 <= d < p.len() ==> #[trigger] p[d] as int <= c
}

/// The leaf that the uniform descent rule (`coordinate <= split value` goes
/// left) reaches from `idx` for the point `q`.
pub open spec fn target_leaf(
    stems: Seq<StemNode>,
    nl: int,
    idx: int,
    dim: int,
    k: int,
    q: Seq<u32>,
) -> int
    decreases (if is_stem(idx) {
        stems.len() - idx
    } else {
        0
    }),
    when stems_ok(stems, nl) && node_ok(idx, stems.len() as int, nl)
{
    if is_stem(idx) {
        let s = stems[idx];
        if q[dim] as int <= s.split_val as int {
            target_leaf(stems, nl, s.left as int, next_dim(dim, k), k, q)
        } else {
            target_leaf(stems, nl, s.right as int, next_dim(dim, k), k, q)
        }
    } else {
        idx
    }
}

pub open spec fn leaf_wf(l: LeafNode, k: int, b: int) -> bool {
    &&& l.points@.len() == l.items@.len()
    &&& l.items@.len() <= b
    &&& forall|i: int| 0 <= i < l.points@.len() ==> (#[trigger] l.points@[i])@.len() == k
}

impl KdTree {
    /// All stored pairs, in traversal order.
    pub open spec fn entries(self) -> Seq<(Seq<u32>, u32)> {
        subtree(self.stems@, self.leaves@, self.root_index as int)
    }

    pub open spec fn leaves_wf(self) -> bool {
        forall|j: int|
            0 <= j < self.leaves@.len() ==> leaf_wf(
                #[trigger] self.leaves@[j],
                self.k as int,
                self.b as int,
            )
    }

    pub open spec fn lo0(self) -> Seq<int> {
        Seq::new(self.k as nat, |d: int| 0)
    }

    pub open spec fn hi0(self) -> Seq<int> {
        Seq::new(self.k as nat, |d: int| u32::MAX as int)
    }

    /// The arena-level part of well-formedness: bounds on `k` and `b`, arena
    /// sizes within the index encoding, stem children valid and forward
    /// pointing, and every leaf a well-formed bucket.
    pub open spec fn arena_wf(self) -> bool {
        &&& 1 <= self.k
        &&& 2 <= self.b
        &&& self.stems@.len() <= leaf_off()
        &&& self.leaves@.len() <= leaf_off()
        &&& stems_ok(self.stems@, self.leaves@.len() as int)
        &&& self.leaves_wf()
    }

    /// Well-formedness: holds after construction and is preserved by every
    /// operation. In particular every leaf holds at most `b` pairs, every
    /// stored point has dimension `k`, and `size` counts the stored pairs.
    pub open spec fn wf(self) -> bool {
        &&& self.arena_wf()
        &&& node_ok(self.root_index as int, self.stems@.len() as int, self.leaves@.len() as int)
        &&& self.leaves_wf()
        &&& distinct(node_list(self.stems@, self.leaves@.len() as int, self.root_index as int))
        &&& node_inv(
            self.stems@,
            self.leaves@,
            self.root_index as int,
            0,
            self.k as int,
            self.lo0(),
            self.hi0(),
        )
        &&& self.size as int == self.entries().len()
    }

    /// Every split value and every stored coordinate lies at or below `c`.
    /// Queries under the Manhattan metric are exact on such trees when the
    /// query also stays at or below `c == SCALE`.
    pub open spec fn bounded(self, c: int) -> bool {
        cap_ok(self.stems@, self.leaves@, self.root_index as int, c)
    }

    /// The arena node of the leaf that the uniform descent reaches for `q`.
    pub open spec fn descent_leaf(self, q: Seq<u32>) -> int {
        target_leaf(
            self.stems@,
            self.leaves@.len() as int,
            self.root_index as int,
            0,
            self.k as int,
            q,
        )
    }

    /// The pairs stored in that leaf.
    pub open spec fn descent_leaf_pairs(self, q: Seq<u32>) -> Seq<(Seq<u32>, u32)> {
        leaf_pairs(self.leaves@[self.descent_leaf(q) - leaf_off()])
    }
}

/// Every index named by `node_list` is a valid node, stems listed under `idx`
/// sit at or after `idx` in the arena, and the list starts with `idx`.
pub proof fn lemma_node_list_props(stems: Seq<StemNode>, nl: int, idx: int)
    requires
        stems_ok(stems, nl),
        node_ok(idx, stems.len() as int, nl),
    ensures
        node_list(stems, nl, idx).contains(idx),
        forall|n: int|
            #[trigger] node_list(stems, nl, idx).contains(n) ==> node_ok(
                n,
                stems.len() as int,
                nl,
            ) && (is_stem(n) ==> n >= idx),
    decreases (if is_stem(idx) {
        stems.len() - idx
    } else {
        0
    }),
{
    if is_stem(idx) {
        let s = stems[idx];
        lemma_node_list_props(stems, nl, s.left as int);
        lemma_node_list_props(stems, nl, s.right as int);
        let l = node_list(stems, nl, idx);
        assert(l[0] == idx);
        assert(l.contains(idx));
        assert forall|n: int| #[trigger] l.contains(n) implies node_ok(n, stems.len() as int, nl)
            && (is_stem(n) ==> n >= idx) by {
            let i = choose|i: int| 0 <= i < l.len() && l[i] == n;
            let ll = node_list(stems, nl, s.left as int);
            let lr = node_list(stems, nl, s.right as int);
            if i == 0 {
            } else if i <= ll.len() {
                assert(ll[i - 1] == n);
                assert(ll.contains(n));
            } else {
                assert(lr[i - 1 - ll.len()] == n);
                assert(lr.contains(n));
            }
        }
    } else {
        let l = node_list(stems, nl, idx);
        assert(l[0] == idx);
        assert(l.contains(idx));
        assert forall|n: int| #[trigger] l.contains(n) implies node_ok(n, stems.len() as int, nl)
            && (is_stem(n) ==> n >= idx) by {
            let i = choose|i: int| 0 <= i < l.len() && l[i] == n;
            assert(n == idx);
        }
    }
}

/// Every pair stored under a node lies inside that node's box.
pub proof fn lemma_subtree_in_box(
    stems: Seq<StemNode>,
    leaves: Seq<LeafNode>,
    idx: int,
    dim: int,
    k: int,
    lo: Seq<int>,
    hi: Seq<int>,
)
    requires
        stems_ok(stems, leaves.len() as int),
        node_ok(idx, stems.len() as int, leaves.len() as int),
        node_inv(stems, leaves, idx, dim, k, lo, hi),
        0 <= dim < k,
        lo.len() == k,
        hi.len() == k,
    ensures
        forall|i: int|
            0 <= i < subtree(stems, leaves, idx).len() ==> point_in_box(
                (#[trigger] subtree(stems, leaves, idx)[i]).0,
                k,
                lo,
                hi,
            ),
    decreases (if is_stem(idx) {
        stems.len() - idx
    } else {
        0
    }),
{
    if is_stem(idx) {
        let s = stems[idx];
        let v = s.split_val as int;
        lemma_subtree_in_box(
            stems,
            leaves,
            s.left as int,
            next_dim(dim, k),
            k,
            lo,
            hi.update(dim, v),
        );
        lemma_subtree_in_box(
            stems,
            leaves,
            s.right as int,
            next_dim(dim, k),
            k,
            lo.update(dim, v),
            hi,
        );
        let sl = subtree(stems, leaves, s.left as int);
        let sr = subtree(stems, leaves, s.right as int);
        assert forall|i: int| 0 <= i < subtree(stems, leaves, idx).len() implies point_in_box(
            (#[trigger] subtree(stems, leaves, idx)[i]).0,
            k,
            lo,
            hi,
        ) by {
            if i < sl.len() {
                assert(subtree(stems, leaves, idx)[i] == sl[i]);
                assert(point_in_box(sl[i].0, k, lo, hi.update(dim, v)));
            } else {
                assert(subtree(stems, leaves, idx)[i] == sr[i - sl.len()]);
                assert(point_in_box(sr[i - sl.len()].0, k, lo.update(dim, v), hi));
            }
        }
    }
}

/// Every coordinate stored under a capped node lies at or below the cap.
pub proof fn lemma_subtree_capped(stems: Seq<StemNode>, leaves: Seq<LeafNode>, idx: int, c: int)
    requires
        stems_ok(stems, leaves.len() as int),
        node_ok(idx, stems.len() as int, leaves.len() as int),
        cap_ok(stems, leaves, idx, c),
    ensures
        forall|i: int, d: int|
            0 <= i < subtree(stems, leaves, idx).len() && 0 <= d < subtree(
                stems,
                leaves,
                idx,
            )[i].0.len() ==> #[trigger] subtree(stems, leaves, idx)[i].0[d] as int <= c,
    decreases (if is_stem(idx) {
        stems.len() - idx
    } else {
        0
    }),
{
    if is_stem(idx) {
        let s = stems[idx];
        lemma_subtree_capped(stems, leaves, s.left as int, c);
        lemma_subtree_capped(stems, leaves, s.right as int, c);
        let sl = subtree(stems, leaves, s.left as int);
        let sr = subtree(stems, leaves, s.right as int);
        assert forall|i: int, d: int|
            0 <= i < subtree(stems, leaves, idx).len() && 0 <= d < subtree(
                stems,
                leaves,
                idx,
            )[i].0.len() implies #[trigger] subtree(stems, leaves, idx)[i].0[d] as int <= c by {
            if i < sl.len() {
                assert(subtree(stems, leaves, idx)[i] == sl[i]);
                assert(sl[i].0[d] as int <= c);
            } else {
                assert(subtree(stems, leaves, idx)[i] == sr[i - sl.len()]);
                assert(sr[i - sl.len()].0[d] as int <= c);
            }
        }
    }
}

/// The descent target is a leaf of the subtree it was searched in.
pub proof fn lemma_target_props(
    stems: Seq<StemNode>,
    nl: int,
    idx: int,
    dim: int,
    k: int,
    q: Seq<u32>,
)
    requires
        stems_ok(stems, nl),
        node_ok(idx, stems.len() as int, nl),
    ensures
        !is_stem(target_leaf(stems, nl, idx, dim, k, q)),
        node_ok(target_leaf(stems, nl, idx, dim, k, q), stems.len() as int, nl),
        node_list(stems, nl, idx).contains(target_leaf(stems, nl, idx, dim, k, q)),
    decreases (if is_stem(idx) {
        stems.len() - idx
    } else {
        0
    }),
{
    if is_stem(idx) {
        let s = stems[idx];
        let child = if q[dim] as int <= s.split_val as int {
            s.left as int
        } else {
            s.right as int
        };
        lemma_target_props(stems, nl, child, next_dim(dim, k), k, q);
        let t = target_leaf(stems, nl, idx, dim, k, q);
        let cl = node_list(stems, nl, child);
        let i = choose|i: int| 0 <= i < cl.len() && cl[i] == t;
        let l = node_list(stems, nl, idx);
        if child == s.left as int {
            assert(l[1 + i] == t);
        } else {
            assert(l[1 + node_list(stems, nl, s.left as int).len() + i] == t);
        }
    } else {
        assert(node_list(stems, nl, idx)[0] == idx);
    }
}

/// Whatever the descent-target leaf holds is among the pairs stored under
/// the node the descent started from.
pub proof fn lemma_target_count(
    stems: Seq<StemNode>,
    leaves: Seq<LeafNode>,
    idx: int,
    dim: int,
    k: int,
    q: Seq<u32>,
    pr: (Seq<u32>, u32),
)
    requires
        stems_ok(stems, leaves.len() as int),
        node_ok(idx, stems.len() as int, leaves.len() as int),
    ensures
        leaf_pairs(
            leaves[target_leaf(stems, leaves.len() as int, idx, dim, k, q) - leaf_off()],
        ).to_multiset().count(pr) <= subtree(stems, leaves, idx).to_multiset().count(pr),
    decreases (if is_stem(idx) {
        stems.len() - idx
    } else {
        0
    }),
{
    broadcast use vstd::multiset::group_multiset_axioms;

    if is_stem(idx) {
        let s = stems[idx];
        let child = if q[dim] as int <= s.split_val as int {
            s.left as int
        } else {
            s.right as int
        };
        lemma_target_count(stems, leaves, child, next_dim(dim, k), k, q, pr);
        vstd::seq_lib::lemma_multiset_commutative(
            subtree(stems, leaves, s.left as int),
            subtree(stems, leaves, s.right as int),
        );
    }
}

/// Two arena states that agree on every node under `idx` give the same
/// subtree, node list, geometric invariant, cap, and descent target.
#[verifier::rlimit(30)]
pub proof fn lemma_frame(
    s1: Seq<StemNode>,
    l1: Seq<LeafNode>,
    s2: Seq<StemNode>,
    l2: Seq<LeafNode>,
    idx: int,
    dim: int,
    k: int,
    lo: Seq<int>,
    hi: Seq<int>,
    c: int,
    q: Seq<u32>,
)
    requires
        stems_ok(s1, l1.len() as int),
        stems_ok(s2, l2.len() as int),
        node_ok(idx, s1.len() as int, l1.len() as int),
        forall|n: int|
            #[trigger] node_list(s1, l1.len() as int, idx).contains(n) ==> (is_stem(n) ==> n
                < s2.len() && s2[n] == s1[n]) && (!is_stem(n) ==> n - leaf_off() < l2.len()
                && l2[n - leaf_off()] == l1[n - leaf_off()]),
    ensures
        node_ok(idx, s2.len() as int, l2.len() as int),
        node_list(s2, l2.len() as int, idx) == node_list(s1, l1.len() as int, idx),
        subtree(s2, l2, idx) == subtree(s1, l1, idx),
        node_inv(s2, l2, idx, dim, k, lo, hi) == node_inv(s1, l1, idx, dim, k, lo, hi),
        cap_ok(s2, l2, idx, c) == cap_ok(s1, l1, idx, c),
        target_leaf(s2, l2.len() as int, idx, dim, k, q) == target_leaf(
            s1,
            l1.len() as int,
            idx,
            dim,
            k,
            q,
        ),
    decreases (if is_stem(idx) {
        s1.len() - idx
    } else {
        0
    }),
{
    let n1 = node_list(s1, l1.len() as int, idx);
    lemma_node_list_props(s1, l1.len() as int, idx);
    assert(n1.contains(idx));
    if is_stem(idx) {
        let s = s1[idx];
        assert(s2[idx] == s1[idx]);
        let ll = node_list(s1, l1.len() as int, s.left as int);
        let lr = node_list(s1, l1.len() as int, s.right as int);
        assert(n1 == seq![idx] + ll + lr);
        assert forall|n: int| #[trigger] ll.contains(n) implies n1.contains(n) by {
            let i = choose|i: int| 0 <= i < ll.len() && ll[i] == n;
            assert(n1[1 + i] == n);
        }
        assert forall|n: int| #[trigger] lr.contains(n) implies n1.contains(n) by {
            let i = choose|i: int| 0 <= i < lr.len() && lr[i] == n;
            assert(n1[1 + ll.len() + i] == n);
        }
        lemma_frame(
            s1,
            l1,
            s2,
            l2,
            s.left as int,
            next_dim(dim, k),
            k,
            lo,
            hi.update(dim, s.split_val as int),
            c,
            q,
        );
        lemma_frame(
            s1,
            l1,
            s2,
            l2,
            s.right as int,
            next_dim(dim, k),
            k,
            lo.update(dim, s.split_val as int),
            hi,
            c,
            q,
        );
        assert(node_list(s2, l2.len() as int, idx) == node_list(s1, l1.len() as int, idx));
        assert(subtree(s2, l2, idx) == subtree(s1, l1, idx));
    } else {
        assert(l2[idx - leaf_off()] == l1[idx - leaf_off()]);
        assert(node_list(s2, l2.len() as int, idx) == node_list(s1, l1.len() as int, idx));
        assert(subtree(s2, l2, idx) == subtree(s1, l1, idx));
    }
}

} // verus!
