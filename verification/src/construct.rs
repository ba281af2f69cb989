//! Construction: creating a tree, adding pairs (with leaf splitting), and
//! removing pairs by point and item identity.

use crate::tree::{
    cap_ok, distinct, is_stem, leaf_off, leaf_pairs, leaf_wf, lemma_frame, lemma_node_list_props,
    next_dim, node_inv, node_list, node_ok, point_below, point_in_box, stem_ok, stems_ok, subtree,
    target_leaf, zip_pairs, KdTree, LeafNode, StemNode, LEAF_OFFSET,
};
use vstd::multiset::Multiset;
use vstd::prelude::*;

verus! {

/// Write one slot of a vector.
pub(crate) fn vec_set<T>(v: &mut Vec<T>, i: usize, x: T)
    requires
        i < old(v)@.len(),
    ensures
        final(v)@ == old(v)@.update(i as int, x),
{
    let r = &mut v[i];
    *r = x;
}

/// Copy a point.
pub(crate) fn clone_point(p: &Vec<u32>) -> (r: Vec<u32>)
    ensures
        r@ == p@,
{
    let mut r: Vec<u32> = Vec::new();
    let mut i: usize = 0;
    while i < p.len()
        invariant
            i <= p@.len(),
            r@ == p@.subrange(0, i as int),
        decreases p@.len() - i,
    {
        r.push(p[i]);
        i += 1;
    }
    proof {
        assert(r@ =~= p@);
    }
    r
}

/// Copy an item vector.
pub(crate) fn clone_items(v: &Vec<u32>) -> (r: Vec<u32>)
    ensures
        r@ == v@,
{
    clone_point(v)
}

/// Copy a point vector.
pub(crate) fn clone_points(ps: &Vec<Vec<u32>>) -> (r: Vec<Vec<u32>>)
    ensures
        r@.len() == ps@.len(),
        forall|i: int| 0 <= i < r@.len() ==> (#[trigger] r@[i])@ == ps@[i]@,
{
    let mut r: Vec<Vec<u32>> = Vec::new();
    let mut i: usize = 0;
    while i < ps.len()
        invariant
            i <= ps@.len(),
            r@.len() == i,
            forall|j: int| 0 <= j < i ==> (#[trigger] r@[j])@ == ps@[j]@,
        decreases ps@.len() - i,
    {
        let p = clone_point(&ps[i]);
        r.push(p);
        i += 1;
    }
    r
}

/// Coordinate-wise equality of two points.
pub(crate) fn points_eq(a: &Vec<u32>, b: &Vec<u32>) -> (r: bool)
    ensures
        r == (a@ == b@),
{
    if a.len() != b.len() {
        proof {
            assert(a@ != b@);
        }
        return false;
    }
    let mut i: usize = 0;
    while i < a.len()
        invariant
            a@.len() == b@.len(),
            i <= a@.len(),
            forall|j: int| 0 <= j < i ==> a@[j] == b@[j],
        decreases a@.len() - i,
    {
        if a[i] != b[i] {
            return false;
        }
        i += 1;
    }
    proof {
        assert(a@ =~= b@);
    }
    true
}

/// Membership in a one-element-plus-two-lists concatenation.
pub(crate) proof fn lemma_list3_contains(x: int, a: Seq<int>, b: Seq<int>)
    ensures
        forall|n: int| #[trigger]
            (seq![x] + a + b).contains(n) <==> (n == x || a.contains(n) || b.contains(n)),
{
    let l = seq![x] + a + b;
    assert forall|n: int| #[trigger] l.contains(n) implies (n == x || a.contains(n) || b.contains(
        n,
    )) by {
        let i = choose|i: int| 0 <= i < l.len() && l[i] == n;
        if i == 0 {
        } else if i <= a.len() {
            assert(a[i - 1] == n);
        } else {
            assert(b[i - 1 - a.len()] == n);
        }
    }
    assert forall|n: int| (n == x || a.contains(n) || b.contains(n)) implies #[trigger] l.contains(
        n,
    ) by {
        if n == x {
            assert(l[0] == n);
        } else if a.contains(n) {
            let i = choose|i: int| 0 <= i < a.len() && a[i] == n;
            assert(l[1 + i] == n);
        } else {
            let i = choose|i: int| 0 <= i < b.len() && b[i] == n;
            assert(l[1 + a.len() + i] == n);
        }
    }
}

/// A one-element-plus-two-lists concatenation of disjoint, duplicate-free
/// parts is duplicate-free.
pub(crate) proof fn lemma_concat3_distinct(x: int, a: Seq<int>, b: Seq<int>)
    requires
        distinct(a),
        distinct(b),
        forall|n: int| a.contains(n) ==> !b.contains(n),
        !a.contains(x),
        !b.contains(x),
    ensures
        distinct(seq![x] + a + b),
{
    let l = seq![x] + a + b;
    assert forall|i: int, j: int| 0 <= i < j < l.len() implies l[i] != l[j] by {
        if i == 0 {
            if j <= a.len() {
                assert(a[j - 1] == l[j]);
                assert(a.contains(l[j]));
            } else {
                assert(b[j - 1 - a.len()] == l[j]);
                assert(b.contains(l[j]));
            }
        } else if i <= a.len() {
            if j <= a.len() {
                assert(a[i - 1] == l[i] && a[j - 1] == l[j]);
            } else {
                assert(a[i - 1] == l[i]);
                assert(a.contains(l[i]));
                assert(b[j - 1 - a.len()] == l[j]);
                assert(b.contains(l[j]));
            }
        } else {
            assert(b[i - 1 - a.len()] == l[i] && b[j - 1 - a.len()] == l[j]);
        }
    }
}

/// Tandem swap-remove keeps the pair multiset, less the removed pair.
pub(crate) proof fn lemma_zip_swap_remove(ps: Seq<Vec<u32>>, is: Seq<u32>, j: int)
    requires
        ps.len() == is.len(),
        0 <= j < is.len(),
    ensures
        zip_pairs(
            ps.update(j, ps.last()).drop_last(),
            is.update(j, is.last()).drop_last(),
        ).to_multiset() == zip_pairs(ps, is).to_multiset().remove((ps[j]@, is[j])),
{
    broadcast use vstd::seq_lib::group_to_multiset_ensures;
    broadcast use vstd::multiset::group_multiset_axioms;

    let z = zip_pairs(ps, is);
    let z2 = zip_pairs(ps.update(j, ps.last()).drop_last(), is.update(j, is.last()).drop_last());
    let u = z.update(j, z.last());
    assert(z2 =~= u.drop_last());
    assert(u.drop_last() =~= u.remove(u.len() - 1));
    vstd::seq_lib::to_multiset_update(z, j, z.last());
    vstd::seq_lib::to_multiset_remove(u, u.len() - 1);
    assert(u[u.len() - 1] == z.last());
    assert(z.to_multiset().contains(z[j])) by {
        vstd::seq_lib::to_multiset_contains(z, z[j]);
    }
    assert(z.to_multiset().insert(z.last()).remove(z[j]).remove(z.last()) =~= z.to_multiset().remove(
        z[j],
    ));
}

/// Decompose the node list of a stem into itself and its children's lists.
pub(crate) proof fn lemma_stem_parts(stems: Seq<StemNode>, nl: int, idx: int)
    requires
        stems_ok(stems, nl),
        node_ok(idx, stems.len() as int, nl),
        is_stem(idx),
    ensures
        node_list(stems, nl, idx) == seq![idx] + node_list(stems, nl, stems[idx].left as int)
            + node_list(stems, nl, stems[idx].right as int),
        forall|n: int|
            #[trigger] node_list(stems, nl, idx).contains(n) <==> (n == idx || node_list(
                stems,
                nl,
                stems[idx].left as int,
            ).contains(n) || node_list(stems, nl, stems[idx].right as int).contains(n)),
        distinct(node_list(stems, nl, idx)) ==> {
            let ll = node_list(stems, nl, stems[idx].left as int);
            let lr = node_list(stems, nl, stems[idx].right as int);
            &&& distinct(ll)
            &&& distinct(lr)
            &&& (forall|n: int| ll.contains(n) ==> !lr.contains(n))
            &&& !ll.contains(idx)
            &&& !lr.contains(idx)
        },
{
    let ll = node_list(stems, nl, stems[idx].left as int);
    let lr = node_list(stems, nl, stems[idx].right as int);
    let l = node_list(stems, nl, idx);
    lemma_list3_contains(idx, ll, lr);
    if distinct(l) {
        assert forall|i: int, j: int| 0 <= i < j < ll.len() implies ll[i] != ll[j] by {
            assert(l[1 + i] == ll[i] && l[1 + j] == ll[j]);
        }
        assert forall|i: int, j: int| 0 <= i < j < lr.len() implies lr[i] != lr[j] by {
            assert(l[1 + ll.len() + i] == lr[i] && l[1 + ll.len() + j] == lr[j]);
        }
        assert forall|n: int| ll.contains(n) implies !lr.contains(n) by {
            let i = choose|i: int| 0 <= i < ll.len() && ll[i] == n;
            assert(l[1 + i] == n);
            if lr.contains(n) {
                let j = choose|j: int| 0 <= j < lr.len() && lr[j] == n;
                assert(l[1 + ll.len() + j] == n);
            }
        }
        assert(!ll.contains(idx)) by {
            if ll.contains(idx) {
                let i = choose|i: int| 0 <= i < ll.len() && ll[i] == idx;
                assert(l[1 + i] == idx && l[0] == idx);
            }
        }
        assert(!lr.contains(idx)) by {
            if lr.contains(idx) {
                let j = choose|j: int| 0 <= j < lr.len() && lr[j] == idx;
                assert(l[1 + ll.len() + j] == idx && l[0] == idx);
            }
        }
    }
}

/// Box membership carries over a multiset-equal reordering of pairs.
pub(crate) proof fn lemma_same_ms_in_box(
    a: Seq<(Seq<u32>, u32)>,
    b: Seq<(Seq<u32>, u32)>,
    k: int,
    lo: Seq<int>,
    hi: Seq<int>,
)
    requires
        a.to_multiset() == b.to_multiset(),
        forall|i: int| 0 <= i < a.len() ==> point_in_box((#[trigger] a[i]).0, k, lo, hi),
    ensures
        forall|i: int| 0 <= i < b.len() ==> point_in_box((#[trigger] b[i]).0, k, lo, hi),
{
    broadcast use vstd::seq_lib::group_to_multiset_ensures;

    assert forall|i: int| 0 <= i < b.len() implies point_in_box((#[trigger] b[i]).0, k, lo, hi) by {
        assert(b.to_multiset().contains(b[i])) by {
            vstd::seq_lib::to_multiset_contains(b, b[i]);
        }
        assert(a.contains(b[i])) by {
            vstd::seq_lib::to_multiset_contains(a, b[i]);
        }
        let j = choose|j: int| 0 <= j < a.len() && a[j] == b[i];
        assert(point_in_box(a[j].0, k, lo, hi));
    }
}

/// A coordinate cap carries over a multiset-equal reordering of pairs.
pub(crate) proof fn lemma_same_ms_capped(a: Seq<(Seq<u32>, u32)>, b: Seq<(Seq<u32>, u32)>, c: int)
    requires
        a.to_multiset() == b.to_multiset(),
        forall|i: int, d: int|
            0 <= i < a.len() && 0 <= d < a[i].0.len() ==> #[trigger] a[i].0[d] as int <= c,
    ensures
        forall|i: int, d: int|
            0 <= i < b.len() && 0 <= d < b[i].0.len() ==> #[trigger] b[i].0[d] as int <= c,
{
    broadcast use vstd::seq_lib::group_to_multiset_ensures;

    assert forall|i: int, d: int|
        0 <= i < b.len() && 0 <= d < b[i].0.len() implies #[trigger] b[i].0[d] as int <= c by {
        assert(b.to_multiset().contains(b[i])) by {
            vstd::seq_lib::to_multiset_contains(b, b[i]);
        }
        assert(a.contains(b[i])) by {
            vstd::seq_lib::to_multiset_contains(a, b[i]);
        }
        let j = choose|j: int| 0 <= j < a.len() && a[j] == b[i];
        assert(a[j].0[d] as int <= c);
    }
}

/// Points sorted by ascending coordinate along `dim`.
pub(crate) open spec fn sorted_dim(ps: Seq<Vec<u32>>, dim: int) -> bool {
    forall|i: int, j: int|
        #![trigger ps[i], ps[j]]
        0 <= i < j < ps.len() ==> ps[i]@[dim] <= ps[j]@[dim]
}

/// Selection sort of parallel point and item vectors by one coordinate.
#[verifier::rlimit(30)]
pub(crate) fn sort_pairs(
    points: Vec<Vec<u32>>,
    items: Vec<u32>,
    dim: usize,
    Ghost(k): Ghost<int>,
) -> (r: (Vec<Vec<u32>>, Vec<u32>))
    requires
        points@.len() == items@.len(),
        forall|i: int| 0 <= i < points@.len() ==> (#[trigger] points@[i])@.len() == k,
        (dim as int) < k,
    ensures
        r.0@.len() == points@.len(),
        r.1@.len() == items@.len(),
        forall|i: int| 0 <= i < r.0@.len() ==> (#[trigger] r.0@[i])@.len() == k,
        zip_pairs(r.0@, r.1@).to_multiset() == zip_pairs(points@, items@).to_multiset(),
        sorted_dim(r.0@, dim as int),
{
    broadcast use vstd::seq_lib::group_to_multiset_ensures;
    broadcast use vstd::multiset::group_multiset_axioms;

    let ghost orig_ps = points@;
    let ghost orig_is = items@;
    let mut points = points;
    let mut items = items;
    let mut out_p: Vec<Vec<u32>> = Vec::new();
    let mut out_i: Vec<u32> = Vec::new();
    while points.len() > 0
        invariant
            points@.len() == items@.len(),
            out_p@.len() == out_i@.len(),
            out_p@.len() + points@.len() == orig_is.len(),
            (dim as int) < k,
            forall|i: int| 0 <= i < points@.len() ==> (#[trigger] points@[i])@.len() == k,
            forall|i: int| 0 <= i < out_p@.len() ==> (#[trigger] out_p@[i])@.len() == k,
            zip_pairs(out_p@, out_i@).to_multiset().add(zip_pairs(points@, items@).to_multiset())
                == zip_pairs(orig_ps, orig_is).to_multiset(),
            sorted_dim(out_p@, dim as int),
            forall|i: int, j: int|
                #![trigger out_p@[i], points@[j]]
                0 <= i < out_p@.len() && 0 <= j < points@.len() ==> out_p@[i]@[dim as int]
                    <= points@[j]@[dim as int],
        decreases points@.len(),
    {
        let mut m: usize = 0;
        let mut t: usize = 1;
        while t < points.len()
            invariant
                points@.len() > 0,
                m < points@.len(),
                t <= points@.len(),
                (dim as int) < k,
                forall|i: int| 0 <= i < points@.len() ==> (#[trigger] points@[i])@.len() == k,
                forall|u: int|
                    0 <= u < t ==> points@[m as int]@[dim as int] <= (#[trigger] points@[u])@[dim as int],
            decreases points@.len() - t,
        {
            if points[t][dim] < points[m][dim] {
                m = t;
            }
            t += 1;
        }
        let ghost pre_ps = points@;
        let ghost pre_is = items@;
        let ghost pre_out_p = out_p@;
        let ghost pre_out_i = out_i@;
        let p = points.swap_remove(m);
        let it = items.swap_remove(m);
        proof {
            lemma_zip_swap_remove(pre_ps, pre_is, m as int);
        }
        out_p.push(p);
        out_i.push(it);
        proof {
            let pair = (pre_ps[m as int]@, pre_is[m as int]);
            assert(zip_pairs(out_p@, out_i@) =~= zip_pairs(pre_out_p, pre_out_i).push(pair));
            vstd::seq_lib::to_multiset_build(zip_pairs(pre_out_p, pre_out_i), pair);
            assert(zip_pairs(out_p@, out_i@).to_multiset() == zip_pairs(
                pre_out_p,
                pre_out_i,
            ).to_multiset().insert(pair));
            assert(zip_pairs(pre_ps, pre_is).to_multiset().contains(pair)) by {
                assert(zip_pairs(pre_ps, pre_is)[m as int] == pair);
                vstd::seq_lib::to_multiset_contains(zip_pairs(pre_ps, pre_is), pair);
            }
            assert(zip_pairs(out_p@, out_i@).to_multiset().add(
                zip_pairs(points@, items@).to_multiset(),
            ) =~= zip_pairs(orig_ps, orig_is).to_multiset());
            // each remaining point is one of the previous ones, so the
            // extracted minimum still bounds them all
            assert forall|i: int, j: int|
                #![trigger out_p@[i], points@[j]]
                0 <= i < out_p@.len() && 0 <= j < points@.len() implies out_p@[i]@[dim as int]
                <= points@[j]@[dim as int] by {
                assert(points@[j] == pre_ps.update(m as int, pre_ps.last()).drop_last()[j]);
                if i < pre_out_p.len() {
                    assert(out_p@[i] == pre_out_p[i]);
                }
            }
        }
    }
    proof {
        assert(zip_pairs(points@, items@) =~= Seq::<(Seq<u32>, u32)>::empty());
        assert(zip_pairs(points@, items@).to_multiset() =~= Multiset::<(Seq<u32>, u32)>::empty());
        assert(zip_pairs(out_p@, out_i@).to_multiset() =~= zip_pairs(orig_ps, orig_is).to_multiset());
    }
    (out_p, out_i)
}

impl KdTree {
    /// An empty tree over points of dimension `k` with bucket capacity `b`.
    pub fn new(k: usize, b: usize) -> (r: KdTree)
        requires
            1 <= k,
            2 <= b,
        ensures
            r.wf(),
            r.k == k,
            r.b == b,
            r.size == 0,
            r.stems@.len() == 0,
            r.leaves@.len() == 1,
            r.entries() == Seq::<(Seq<u32>, u32)>::empty(),
            forall|c: int| r.bounded(c),
    {
        let mut leaves: Vec<LeafNode> = Vec::new();
        leaves.push(LeafNode { points: Vec::new(), items: Vec::new() });
        let r = KdTree { stems: Vec::new(), leaves, root_index: LEAF_OFFSET, size: 0, k, b };
        proof {
            assert(r.entries() =~= Seq::<(Seq<u32>, u32)>::empty());
        }
        r
    }

    /// An empty tree whose leaf arena is preallocated for roughly `n` stored
    /// pairs.
    pub fn with_capacity(k: usize, b: usize, n: usize) -> (r: KdTree)
        requires
            1 <= k,
            2 <= b,
        ensures
            r.wf(),
            r.k == k,
            r.b == b,
            r.size == 0,
            r.stems@.len() == 0,
            r.leaves@.len() == 1,
            r.entries() == Seq::<(Seq<u32>, u32)>::empty(),
            forall|c: int| r.bounded(c),
    {
        let mut leaves: Vec<LeafNode> = Vec::with_capacity(n / (b / 2));
        leaves.push(LeafNode { points: Vec::new(), items: Vec::new() });
        let r = KdTree { stems: Vec::new(), leaves, root_index: LEAF_OFFSET, size: 0, k, b };
        proof {
            assert(r.entries() =~= Seq::<(Seq<u32>, u32)>::empty());
        }
        r
    }

    /// The number of stored pairs.
    pub fn size(&self) -> (r: u32)
        ensures
            r == self.size,
            self.wf() ==> r as int == self.entries().len(),
    {
        self.size
    }

    /// The tree's entire state as plain values, for a caller's serialization
    /// library to write out: the two arenas, the root index, the stored
    /// count, and the construction parameters `k` and `b`.
    pub fn to_parts(self) -> (r: (Vec<StemNode>, Vec<LeafNode>, u32, u32, usize, usize))
        ensures
            r.0 == self.stems,
            r.1 == self.leaves,
            r.2 == self.root_index,
            r.3 == self.size,
            r.4 == self.k,
            r.5 == self.b,
    {
        (self.stems, self.leaves, self.root_index, self.size, self.k, self.b)
    }

    /// Rebuild a tree from the values `to_parts` handed out. Feeding back an
    /// unmodified round trip restores the original tree exactly, so every
    /// query answers as before; parts from any other source carry no
    /// well-formedness guarantee.
    pub fn from_parts(
        stems: Vec<StemNode>,
        leaves: Vec<LeafNode>,
        root_index: u32,
        size: u32,
        k: usize,
        b: usize,
    ) -> (r: KdTree)
        ensures
            r == (KdTree { stems, leaves, root_index, size, k, b }),
    {
        KdTree { stems, leaves, root_index, size, k, b }
    }

    /// Add one point/item pair. Duplicates are allowed: the pair is stored
    /// unconditionally and the stored-pair count grows by one.
    pub fn add(&mut self, query: &Vec<u32>, item: u32)
        requires
            old(self).wf(),
            query@.len() == old(self).k,
            old(self).size < u32::MAX,
            old(self).stems@.len() + 1 < leaf_off(),
            old(self).leaves@.len() + 1 < leaf_off(),
        ensures
            final(self).wf(),
            final(self).k == old(self).k,
            final(self).b == old(self).b,
            final(self).size == old(self).size + 1,
            old(self).stems@.len() <= final(self).stems@.len() <= old(self).stems@.len() + 1,
            old(self).leaves@.len() <= final(self).leaves@.len() <= old(self).leaves@.len() + 1,
            final(self).entries().to_multiset() == old(self).entries().to_multiset().insert(
                (query@, item),
            ),
            final(self).entries().len() == old(self).entries().len() + 1,
            forall|c: int|
                old(self).bounded(c) && point_below(query@, c) ==> #[trigger] final(self).bounded(
                    c,
                ),
            // placement: split values never change, no leaf off the descent
            // path is touched, and the pair ends up in the leaf that the
            // uniform descent reaches afterwards. Without a split the target
            // leaf simply gains the pair; a split (target leaf full) grows
            // each arena by exactly one node.
            forall|j: int|
                0 <= j < old(self).stems@.len() ==> (#[trigger] final(self).stems@[j]).split_val
                    == old(self).stems@[j].split_val,
            forall|j: int|
                0 <= j < old(self).leaves@.len() && j + leaf_off() != old(self).descent_leaf(query@)
                    ==> final(self).leaves@[j] == old(self).leaves@[j],
            old(self).descent_leaf_pairs(query@).len() < old(self).b ==> (final(self).stems == old(
                self,
            ).stems && final(self).root_index == old(self).root_index && final(self).leaves@.len()
                == old(self).leaves@.len() && final(self).descent_leaf_pairs(query@) == old(
                self,
            ).descent_leaf_pairs(query@).push((query@, item))),
            old(self).descent_leaf_pairs(query@).len() >= old(self).b ==> (final(self).stems@.len()
                == old(self).stems@.len() + 1 && final(self).leaves@.len() == old(
                self,
            ).leaves@.len() + 1),
            final(self).descent_leaf_pairs(query@).to_multiset().count((query@, item)) >= 1,
    {
        let ghost pre = *self;
        proof {
            assert(point_in_box(query@, self.k as int, self.lo0(), self.hi0()));
        }
        let ghost lo = self.lo0();
        let ghost hi = self.hi0();
        let root = self.root_index;
        let nr = self.add_rec(root, 0, query, item, Ghost(lo), Ghost(hi));
        self.root_index = nr;
        self.size = self.size + 1;
        proof {
            assert(self.lo0() =~= pre.lo0());
            assert(self.hi0() =~= pre.hi0());
            assert forall|c: int|
                pre.bounded(c) && point_below(query@, c) implies #[trigger] self.bounded(c) by {
                assert(cap_ok(self.stems@, self.leaves@, nr as int, c));
            }
        }
    }

    /// Remove every stored pair equal to `(query, item)` in the single leaf
    /// that the descent rule reaches, and return how many were removed.
    /// Pairs of other leaves are never touched, even if equal.
    pub fn remove(&mut self, query: &Vec<u32>, item: u32) -> (removed: usize)
        requires
            old(self).wf(),
            query@.len() == old(self).k,
        ensures
            final(self).wf(),
            final(self).k == old(self).k,
            final(self).b == old(self).b,
            final(self).size as int == old(self).size - removed,
            removed as int == old(self).descent_leaf_pairs(query@).to_multiset().count(
                (query@, item),
            ),
            final(self).entries().to_multiset().count((query@, item)) == old(self).entries().to_multiset().count((query@, item)) - removed,
            forall|pr: (Seq<u32>, u32)|
                pr != (query@, item) ==> #[trigger] final(self).entries().to_multiset().count(pr)
                    == old(self).entries().to_multiset().count(pr),
            final(self).entries().len() == old(self).entries().len() - removed,
            forall|c: int| old(self).bounded(c) ==> #[trigger] final(self).bounded(c),
            // frame: stems, the root, the arena shape and every leaf off the
            // descent path are untouched; the target leaf retains no matching
            // pair; a remove that found nothing changes nothing at all
            final(self).stems == old(self).stems,
            final(self).root_index == old(self).root_index,
            final(self).leaves@.len() == old(self).leaves@.len(),
            forall|j: int|
                0 <= j < old(self).leaves@.len() && j + leaf_off() != old(self).descent_leaf(query@)
                    ==> final(self).leaves@[j] == old(self).leaves@[j],
            final(self).descent_leaf_pairs(query@).to_multiset().count((query@, item)) == 0,
            removed == 0 ==> final(self).leaves == old(self).leaves && final(self).size == old(
                self,
            ).size,
    {
        let ghost pre = *self;
        let root = self.root_index;
        let r = self.remove_rec(root, 0, query, item, Ghost(pre.lo0()), Ghost(pre.hi0()));
        proof {
            assert(r as int <= subtree(pre.stems@, pre.leaves@, pre.root_index as int).len());
        }
        if r != 0 {
            self.size = self.size - (r as u32);
        }
        proof {
            assert(self.lo0() =~= pre.lo0());
            assert(self.hi0() =~= pre.hi0());
        }
        r
    }

    /// Descend to the target leaf and filter out the matching pairs there.
    #[verifier::rlimit(60)]
    fn remove_rec(
        &mut self,
        idx: u32,
        dim: usize,
        query: &Vec<u32>,
        item: u32,
        Ghost(lo): Ghost<Seq<int>>,
        Ghost(hi): Ghost<Seq<int>>,
    ) -> (removed: usize)
        requires
            old(self).arena_wf(),
            query@.len() == old(self).k,
            dim < old(self).k,
            lo.len() == old(self).k,
            hi.len() == old(self).k,
            node_ok(idx as int, old(self).stems@.len() as int, old(self).leaves@.len() as int),
            distinct(node_list(old(self).stems@, old(self).leaves@.len() as int, idx as int)),
            node_inv(
                old(self).stems@,
                old(self).leaves@,
                idx as int,
                dim as int,
                old(self).k as int,
                lo,
                hi,
            ),
        ensures
            final(self).arena_wf(),
            final(self).stems == old(self).stems,
            final(self).leaves@.len() == old(self).leaves@.len(),
            final(self).root_index == old(self).root_index,
            final(self).size == old(self).size,
            final(self).k == old(self).k,
            final(self).b == old(self).b,
            forall|j: int|
                0 <= j < old(self).leaves@.len() && !node_list(
                    old(self).stems@,
                    old(self).leaves@.len() as int,
                    idx as int,
                ).contains(j + leaf_off()) ==> final(self).leaves@[j] == old(self).leaves@[j],
            node_inv(
                final(self).stems@,
                final(self).leaves@,
                idx as int,
                dim as int,
                final(self).k as int,
                lo,
                hi,
            ),
            removed as int == leaf_pairs(
                old(self).leaves@[target_leaf(
                    old(self).stems@,
                    old(self).leaves@.len() as int,
                    idx as int,
                    dim as int,
                    old(self).k as int,
                    query@,
                ) - leaf_off()],
            ).to_multiset().count((query@, item)),
            subtree(final(self).stems@, final(self).leaves@, idx as int).to_multiset().count(
                (query@, item),
            ) == subtree(old(self).stems@, old(self).leaves@, idx as int).to_multiset().count(
                (query@, item),
            ) - removed,
            forall|pr: (Seq<u32>, u32)|
                pr != (query@, item) ==> #[trigger] subtree(
                    final(self).stems@,
                    final(self).leaves@,
                    idx as int,
                ).to_multiset().count(pr) == subtree(
                    old(self).stems@,
                    old(self).leaves@,
                    idx as int,
                ).to_multiset().count(pr),
            subtree(final(self).stems@, final(self).leaves@, idx as int).len() == subtree(
                old(self).stems@,
                old(self).leaves@,
                idx as int,
            ).len() - removed,
            forall|c: int|
                cap_ok(old(self).stems@, old(self).leaves@, idx as int, c) ==> #[trigger] cap_ok(
                    final(self).stems@,
                    final(self).leaves@,
                    idx as int,
                    c,
                ),
            forall|j: int|
                0 <= j < old(self).leaves@.len() && j + leaf_off() != target_leaf(
                    old(self).stems@,
                    old(self).leaves@.len() as int,
                    idx as int,
                    dim as int,
                    old(self).k as int,
                    query@,
                ) ==> final(self).leaves@[j] == old(self).leaves@[j],
            removed == 0 ==> final(self).leaves == old(self).leaves,
            leaf_pairs(
                final(self).leaves@[target_leaf(
                    old(self).stems@,
                    old(self).leaves@.len() as int,
                    idx as int,
                    dim as int,
                    old(self).k as int,
                    query@,
                ) - leaf_off()],
            ).to_multiset().count((query@, item)) == 0,
        decreases (if is_stem(idx as int) {
            old(self).stems@.len() - idx as int
        } else {
            0
        }),
    {
        broadcast use vstd::seq_lib::group_to_multiset_ensures;
        broadcast use vstd::multiset::group_multiset_axioms;

        let ghost pre = *self;
        let ghost nl0 = pre.leaves@.len() as int;
        let ghost pair = (query@, item);
        if idx < LEAF_OFFSET {
            let s = self.stems[idx as usize];
            let next = if dim + 1 == self.k {
                0
            } else {
                dim + 1
            };
            proof {
                lemma_stem_parts(pre.stems@, nl0, idx as int);
                lemma_node_list_props(pre.stems@, nl0, s.left as int);
                lemma_node_list_props(pre.stems@, nl0, s.right as int);
            }
            let go_left = query[dim] <= s.split_val;
            let child = if go_left {
                s.left
            } else {
                s.right
            };
            let ghost clo = if go_left {
                lo
            } else {
                lo.update(dim as int, s.split_val as int)
            };
            let ghost chi = if go_left {
                hi.update(dim as int, s.split_val as int)
            } else {
                hi
            };
            let r = self.remove_rec(child, next, query, item, Ghost(clo), Ghost(chi));
            proof {
                let ghost sib = if go_left {
                    s.right as int
                } else {
                    s.left as int
                };
                let ghost slo = if go_left {
                    lo.update(dim as int, s.split_val as int)
                } else {
                    lo
                };
                let ghost shi = if go_left {
                    hi
                } else {
                    hi.update(dim as int, s.split_val as int)
                };
                let ghost sl = node_list(pre.stems@, nl0, sib);
                assert forall|n: int| #[trigger] sl.contains(n) implies (is_stem(n) ==> n
                    < self.stems@.len() && self.stems@[n] == pre.stems@[n]) && (!is_stem(n) ==> n
                    - leaf_off() < self.leaves@.len() && self.leaves@[n - leaf_off()]
                    == pre.leaves@[n - leaf_off()]) by {
                    assert(node_list(pre.stems@, nl0, idx as int).contains(n));
                    let cl = node_list(pre.stems@, nl0, child as int);
                    assert(!cl.contains(n));
                }
                lemma_frame(
                    pre.stems@,
                    pre.leaves@,
                    self.stems@,
                    self.leaves@,
                    sib,
                    next as int,
                    self.k as int,
                    slo,
                    shi,
                    0,
                    query@,
                );
                assert forall|c: int|
                    cap_ok(pre.stems@, pre.leaves@, idx as int, c) implies #[trigger] cap_ok(
                    self.stems@,
                    self.leaves@,
                    idx as int,
                    c,
                ) by {
                    assert(cap_ok(pre.stems@, pre.leaves@, child as int, c));
                    assert(cap_ok(pre.stems@, pre.leaves@, sib, c));
                    assert(cap_ok(self.stems@, self.leaves@, child as int, c));
                    lemma_frame(
                        pre.stems@,
                        pre.leaves@,
                        self.stems@,
                        self.leaves@,
                        sib,
                        next as int,
                        self.k as int,
                        slo,
                        shi,
                        c,
                        query@,
                    );
                }
                if go_left {
                    assert(subtree(self.stems@, self.leaves@, idx as int) == subtree(
                        self.stems@,
                        self.leaves@,
                        child as int,
                    ) + subtree(self.stems@, self.leaves@, sib));
                    vstd::seq_lib::lemma_multiset_commutative(
                        subtree(self.stems@, self.leaves@, child as int),
                        subtree(self.stems@, self.leaves@, sib),
                    );
                    vstd::seq_lib::lemma_multiset_commutative(
                        subtree(pre.stems@, pre.leaves@, child as int),
                        subtree(pre.stems@, pre.leaves@, sib),
                    );
                } else {
                    assert(subtree(self.stems@, self.leaves@, idx as int) == subtree(
                        self.stems@,
                        self.leaves@,
                        sib,
                    ) + subtree(self.stems@, self.leaves@, child as int));
                    vstd::seq_lib::lemma_multiset_commutative(
                        subtree(self.stems@, self.leaves@, sib),
                        subtree(self.stems@, self.leaves@, child as int),
                    );
                    vstd::seq_lib::lemma_multiset_commutative(
                        subtree(pre.stems@, pre.leaves@, sib),
                        subtree(pre.stems@, pre.leaves@, child as int),
                    );
                }
            }
            r
        } else {
            let li = (idx - LEAF_OFFSET) as usize;
            let lf = &self.leaves[li];
            let mut pts = clone_points(&lf.points);
            let mut its = clone_items(&lf.items);
            let ghost z0 = leaf_pairs(pre.leaves@[li as int]);
            proof {
                assert(zip_pairs(pts@, its@) =~= z0);
            }
            let mut p_index: usize = 0;
            let mut removed: usize = 0;
            while p_index < its.len()
                invariant
                    pts@.len() == its@.len(),
                    p_index <= its@.len(),
                    removed + its@.len() == z0.len(),
                    z0.len() <= usize::MAX,
                    removed == 0 ==> zip_pairs(pts@, its@) == z0,
                    pair == (query@, item),
                    zip_pairs(pts@, its@).to_multiset().count(pair) + removed
                        == z0.to_multiset().count(pair),
                    forall|pr: (Seq<u32>, u32)|
                        pr != pair ==> #[trigger] zip_pairs(pts@, its@).to_multiset().count(pr)
                            == z0.to_multiset().count(pr),
                    forall|t: int| 0 <= t < p_index ==> zip_pairs(pts@, its@)[t] != pair,
                decreases its@.len() - p_index,
            {
                broadcast use vstd::seq_lib::group_to_multiset_ensures;
                broadcast use vstd::multiset::group_multiset_axioms;

                let ghost zc = zip_pairs(pts@, its@);
                let eq_pt = points_eq(&pts[p_index], query);
                if eq_pt && its[p_index] == item {
                    proof {
                        lemma_zip_swap_remove(pts@, its@, p_index as int);
                        assert(zc[p_index as int] == pair);
                        assert(zc.to_multiset().contains(pair)) by {
                            vstd::seq_lib::to_multiset_contains(zc, zc[p_index as int]);
                        }
                    }
                    pts.swap_remove(p_index);
                    its.swap_remove(p_index);
                    removed = removed + 1;
                    proof {
                        assert(zip_pairs(pts@, its@) =~= zc.update(
                            p_index as int,
                            zc.last(),
                        ).drop_last());
                        assert forall|t: int| 0 <= t < p_index implies zip_pairs(pts@, its@)[t]
                            != pair by {
                            assert(zip_pairs(pts@, its@)[t] == zc[t]);
                        }
                    }
                } else {
                    proof {
                        assert(zc[p_index as int] != pair);
                    }
                    p_index = p_index + 1;
                }
            }
            let ghost zf = zip_pairs(pts@, its@);
            proof {
                assert(zf.to_multiset().count(pair) == 0) by {
                    if zf.to_multiset().count(pair) > 0 {
                        vstd::seq_lib::to_multiset_contains(zf, pair);
                        let t = choose|t: int| 0 <= t < zf.len() && zf[t] == pair;
                    }
                }
            }
            if removed > 0 {
                vec_set(&mut self.leaves, li, LeafNode { points: pts, items: its });
            }
            proof {
                assert(removed == 0 ==> leaf_pairs(self.leaves@[li as int]) == zf);
                assert(stems_ok(self.stems@, self.leaves@.len() as int));
                assert(node_list(pre.stems@, nl0, idx as int) == seq![idx as int]);
                assert(node_list(pre.stems@, nl0, idx as int).contains(idx as int)) by {
                    assert(node_list(pre.stems@, nl0, idx as int)[0] == idx as int);
                }
                assert(subtree(pre.stems@, pre.leaves@, idx as int) == z0);
                assert(subtree(self.stems@, self.leaves@, idx as int) == zf);
                assert(target_leaf(pre.stems@, nl0, idx as int, dim as int, pre.k as int, query@)
                    == idx as int);
                // every surviving pair was already stored, so the box, the
                // cap, and bucket well-formedness carry over
                assert forall|pr: (Seq<u32>, u32)| #[trigger] zf.to_multiset().count(pr)
                    <= z0.to_multiset().count(pr) by {}
                assert forall|t: int| 0 <= t < zf.len() implies z0.contains(#[trigger] zf[t]) by {
                    vstd::seq_lib::to_multiset_contains(zf, zf[t]);
                    vstd::seq_lib::to_multiset_contains(z0, zf[t]);
                }
                assert forall|t: int| 0 <= t < zf.len() implies point_in_box(
                    (#[trigger] zf[t]).0,
                    self.k as int,
                    lo,
                    hi,
                ) by {
                    let u = choose|u: int| 0 <= u < z0.len() && z0[u] == zf[t];
                    assert(point_in_box(z0[u].0, self.k as int, lo, hi));
                }
                assert forall|j: int| 0 <= j < self.leaves@.len() implies leaf_wf(
                    #[trigger] self.leaves@[j],
                    self.k as int,
                    self.b as int,
                ) by {
                    if j != li {
                        assert(self.leaves@[j] == pre.leaves@[j]);
                    } else {
                        assert forall|t: int| 0 <= t < pts@.len() implies (#[trigger] pts@[t])@.len()
                            == self.k as int by {
                            assert(point_in_box(zf[t].0, self.k as int, lo, hi));
                            assert(zf[t].0 == pts@[t]@);
                        }
                    }
                }
                assert forall|c: int|
                    cap_ok(pre.stems@, pre.leaves@, idx as int, c) implies #[trigger] cap_ok(
                    self.stems@,
                    self.leaves@,
                    idx as int,
                    c,
                ) by {
                    assert forall|t: int, d: int|
                        0 <= t < zf.len() && 0 <= d < zf[t].0.len() implies #[trigger] zf[t].0[d]
                        as int <= c by {
                        let u = choose|u: int| 0 <= u < z0.len() && z0[u] == zf[t];
                        assert(z0[u].0[d] as int <= c);
                    }
                }
            }
            removed
        }
    }

    /// Append one pair to the leaf in arena slot `li`.
    fn leaf_append(&mut self, li: usize, query: &Vec<u32>, item: u32)
        requires
            li < old(self).leaves@.len(),
            old(self).leaves@[li as int].points@.len() == old(self).leaves@[li as int].items@.len(),
        ensures
            final(self).stems == old(self).stems,
            final(self).root_index == old(self).root_index,
            final(self).size == old(self).size,
            final(self).k == old(self).k,
            final(self).b == old(self).b,
            final(self).leaves@.len() == old(self).leaves@.len(),
            forall|j: int|
                0 <= j < old(self).leaves@.len() && j != li ==> final(self).leaves@[j] == old(self).leaves@[j],
            leaf_pairs(final(self).leaves@[li as int]) == leaf_pairs(
                old(self).leaves@[li as int],
            ).push((query@, item)),
            final(self).leaves@[li as int].points@.len() == old(self).leaves@[li as int].points@.len() + 1,
            final(self).leaves@[li as int].items@.len() == old(self).leaves@[li as int].items@.len() + 1,
            forall|i: int|
                0 <= i < old(self).leaves@[li as int].points@.len() ==> (#[trigger] final(self).leaves@[li as int].points@[i])@ == old(self).leaves@[li as int].points@[i]@,
            final(self).leaves@[li as int].points@[old(self).leaves@[li as int].points@.len() as int]@
                == query@,
    {
        let lf = &self.leaves[li];
        let mut npts = clone_points(&lf.points);
        let mut nits = clone_items(&lf.items);
        let pt = clone_point(query);
        npts.push(pt);
        nits.push(item);
        let ghost pre = *self;
        vec_set(&mut self.leaves, li, LeafNode { points: npts, items: nits });
        proof {
            assert(leaf_pairs(self.leaves@[li as int]) =~= leaf_pairs(pre.leaves@[li as int]).push(
                (query@, item),
            ));
        }
    }

    /// Insert `(query, item)` under node `idx`; return the node standing
    /// where `idx` stood (a fresh stem after a split, `idx` itself otherwise).
    #[verifier::rlimit(60)]
    fn add_rec(
        &mut self,
        idx: u32,
        dim: usize,
        query: &Vec<u32>,
        item: u32,
        Ghost(lo): Ghost<Seq<int>>,
        Ghost(hi): Ghost<Seq<int>>,
    ) -> (ret: u32)
        requires
            old(self).arena_wf(),
            query@.len() == old(self).k,
            dim < old(self).k,
            lo.len() == old(self).k,
            hi.len() == old(self).k,
            node_ok(idx as int, old(self).stems@.len() as int, old(self).leaves@.len() as int),
            distinct(node_list(old(self).stems@, old(self).leaves@.len() as int, idx as int)),
            node_inv(
                old(self).stems@,
                old(self).leaves@,
                idx as int,
                dim as int,
                old(self).k as int,
                lo,
                hi,
            ),
            point_in_box(query@, old(self).k as int, lo, hi),
            old(self).stems@.len() + 1 < leaf_off(),
            old(self).leaves@.len() + 1 < leaf_off(),
        ensures
            final(self).arena_wf(),
            final(self).k == old(self).k,
            final(self).b == old(self).b,
            final(self).root_index == old(self).root_index,
            final(self).size == old(self).size,
            old(self).stems@.len() <= final(self).stems@.len() <= old(self).stems@.len() + 1,
            old(self).leaves@.len() <= final(self).leaves@.len() <= old(self).leaves@.len() + 1,
            forall|j: int|
                0 <= j < old(self).stems@.len() && !node_list(
                    old(self).stems@,
                    old(self).leaves@.len() as int,
                    idx as int,
                ).contains(j) ==> final(self).stems@[j] == old(self).stems@[j],
            forall|j: int|
                0 <= j < old(self).leaves@.len() && !node_list(
                    old(self).stems@,
                    old(self).leaves@.len() as int,
                    idx as int,
                ).contains(j + leaf_off()) ==> final(self).leaves@[j] == old(self).leaves@[j],
            node_ok(ret as int, final(self).stems@.len() as int, final(self).leaves@.len() as int),
            ret == idx || ret as int == old(self).stems@.len(),
            distinct(
                node_list(final(self).stems@, final(self).leaves@.len() as int, ret as int),
            ),
            forall|n: int|
                #[trigger] node_list(
                    final(self).stems@,
                    final(self).leaves@.len() as int,
                    ret as int,
                ).contains(n) ==> node_list(
                    old(self).stems@,
                    old(self).leaves@.len() as int,
                    idx as int,
                ).contains(n) || (is_stem(n) && n >= old(self).stems@.len()) || (n >= leaf_off()
                    && n - leaf_off() >= old(self).leaves@.len()),
            node_inv(
                final(self).stems@,
                final(self).leaves@,
                ret as int,
                dim as int,
                final(self).k as int,
                lo,
                hi,
            ),
            subtree(final(self).stems@, final(self).leaves@, ret as int).to_multiset() == subtree(
                old(self).stems@,
                old(self).leaves@,
                idx as int,
            ).to_multiset().insert((query@, item)),
            subtree(final(self).stems@, final(self).leaves@, ret as int).len() == subtree(
                old(self).stems@,
                old(self).leaves@,
                idx as int,
            ).len() + 1,
            forall|c: int|
                cap_ok(old(self).stems@, old(self).leaves@, idx as int, c) && point_below(query@, c)
                    ==> #[trigger] cap_ok(final(self).stems@, final(self).leaves@, ret as int, c),
            forall|j: int|
                0 <= j < old(self).stems@.len() ==> (#[trigger] final(self).stems@[j]).split_val
                    == old(self).stems@[j].split_val,
            forall|j: int|
                0 <= j < old(self).leaves@.len() && j + leaf_off() != target_leaf(
                    old(self).stems@,
                    old(self).leaves@.len() as int,
                    idx as int,
                    dim as int,
                    old(self).k as int,
                    query@,
                ) ==> final(self).leaves@[j] == old(self).leaves@[j],
            leaf_pairs(
                old(self).leaves@[target_leaf(
                    old(self).stems@,
                    old(self).leaves@.len() as int,
                    idx as int,
                    dim as int,
                    old(self).k as int,
                    query@,
                ) - leaf_off()],
            ).len() < old(self).b ==> (final(self).stems == old(self).stems && final(self).leaves@.len() == old(self).leaves@.len() && ret == idx && leaf_pairs(
                final(self).leaves@[target_leaf(
                    old(self).stems@,
                    old(self).leaves@.len() as int,
                    idx as int,
                    dim as int,
                    old(self).k as int,
                    query@,
                ) - leaf_off()],
            ) == leaf_pairs(
                old(self).leaves@[target_leaf(
                    old(self).stems@,
                    old(self).leaves@.len() as int,
                    idx as int,
                    dim as int,
                    old(self).k as int,
                    query@,
                ) - leaf_off()],
            ).push((query@, item))),
            leaf_pairs(
                old(self).leaves@[target_leaf(
                    old(self).stems@,
                    old(self).leaves@.len() as int,
                    idx as int,
                    dim as int,
                    old(self).k as int,
                    query@,
                ) - leaf_off()],
            ).len() >= old(self).b ==> (final(self).stems@.len() == old(self).stems@.len() + 1
                && final(self).leaves@.len() == old(self).leaves@.len() + 1),
            leaf_pairs(
                final(self).leaves@[target_leaf(
                    final(self).stems@,
                    final(self).leaves@.len() as int,
                    ret as int,
                    dim as int,
                    final(self).k as int,
                    query@,
                ) - leaf_off()],
            ).to_multiset().count((query@, item)) >= 1,
        decreases (if is_stem(idx as int) {
            old(self).stems@.len() - idx as int
        } else {
            0
        }),
    {
        broadcast use vstd::seq_lib::group_to_multiset_ensures;
        broadcast use vstd::multiset::group_multiset_axioms;

        let ghost pre = *self;
        let ghost nl0 = pre.leaves@.len() as int;
        if idx < LEAF_OFFSET {
            let s = self.stems[idx as usize];
            let next = if dim + 1 == self.k {
                0
            } else {
                dim + 1
            };
            proof {
                lemma_stem_parts(pre.stems@, nl0, idx as int);
                lemma_node_list_props(pre.stems@, nl0, s.left as int);
                lemma_node_list_props(pre.stems@, nl0, s.right as int);
            }
            let ghost ll = node_list(pre.stems@, nl0, s.left as int);
            let ghost lr = node_list(pre.stems@, nl0, s.right as int);
            let go_left = query[dim] <= s.split_val;
            let child = if go_left {
                s.left
            } else {
                s.right
            };
            let ghost clo = if go_left {
                lo
            } else {
                lo.update(dim as int, s.split_val as int)
            };
            let ghost chi = if go_left {
                hi.update(dim as int, s.split_val as int)
            } else {
                hi
            };
            let rc = self.add_rec(child, next, query, item, Ghost(clo), Ghost(chi));
            let ghost mid = *self;
            if rc != child {
                let mut s2 = s;
                if go_left {
                    s2.left = rc;
                } else {
                    s2.right = rc;
                }
                vec_set(&mut self.stems, idx as usize, s2);
            }
            proof {
                assert(self.stems@[idx as int].split_val == s.split_val);
                assert(self.stems@[idx as int].left == (if go_left {
                    rc
                } else {
                    s.left
                }));
                assert(self.stems@[idx as int].right == (if go_left {
                    s.right
                } else {
                    rc
                }));
                let ghost sib = if go_left {
                    s.right as int
                } else {
                    s.left as int
                };
                let ghost sl = if go_left {
                    lr
                } else {
                    ll
                };
                let ghost cl = if go_left {
                    ll
                } else {
                    lr
                };
                let cln = node_list(mid.stems@, mid.leaves@.len() as int, rc as int);
                lemma_node_list_props(mid.stems@, mid.leaves@.len() as int, rc as int);
                // the child's result subtree does not mention this stem or the
                // sibling's nodes, so updating the stem leaves it unchanged
                assert(stems_ok(self.stems@, self.leaves@.len() as int)) by {
                    assert forall|i: int| 0 <= i < self.stems@.len() implies stem_ok(
                        #[trigger] self.stems@[i],
                        i,
                        self.stems@.len() as int,
                        self.leaves@.len() as int,
                    ) by {
                        if i == idx as int {
                            assert(node_ok(
                                rc as int,
                                mid.stems@.len() as int,
                                mid.leaves@.len() as int,
                            ));
                        } else {
                            assert(stem_ok(
                                mid.stems@[i],
                                i,
                                mid.stems@.len() as int,
                                mid.leaves@.len() as int,
                            ));
                        }
                    }
                }
                assert forall|n: int| #[trigger] cln.contains(n) implies !(n == idx as int)
                    && (is_stem(n) ==> n < self.stems@.len() && self.stems@[n] == mid.stems@[n]) && (
                !is_stem(n) ==> n - leaf_off() < self.leaves@.len() && self.leaves@[n - leaf_off()]
                    == mid.leaves@[n - leaf_off()]) by {
                    assert(cl.contains(n) || (is_stem(n) && n >= pre.stems@.len()) || (n
                        >= leaf_off() && n - leaf_off() >= pre.leaves@.len()));
                }
                lemma_frame(
                    mid.stems@,
                    mid.leaves@,
                    self.stems@,
                    self.leaves@,
                    rc as int,
                    next as int,
                    self.k as int,
                    clo,
                    chi,
                    0,
                    query@,
                );
                assert forall|c: int|
                    cap_ok(mid.stems@, mid.leaves@, rc as int, c) implies #[trigger] cap_ok(
                    self.stems@,
                    self.leaves@,
                    rc as int,
                    c,
                ) by {
                    lemma_frame(
                        mid.stems@,
                        mid.leaves@,
                        self.stems@,
                        self.leaves@,
                        rc as int,
                        next as int,
                        self.k as int,
                        clo,
                        chi,
                        c,
                        query@,
                    );
                }
                // the sibling subtree is untouched throughout
                assert forall|n: int| #[trigger] sl.contains(n) implies (is_stem(n) ==> n
                    < self.stems@.len() && self.stems@[n] == pre.stems@[n]) && (!is_stem(n) ==> n
                    - leaf_off() < self.leaves@.len() && self.leaves@[n - leaf_off()]
                    == pre.leaves@[n - leaf_off()]) by {
                    assert(node_list(pre.stems@, nl0, idx as int).contains(n));
                    assert(n != idx as int);
                }
                assert forall|c: int|
                    cap_ok(pre.stems@, pre.leaves@, sib, c) implies #[trigger] cap_ok(
                    self.stems@,
                    self.leaves@,
                    sib,
                    c,
                ) by {
                    lemma_frame(
                        pre.stems@,
                        pre.leaves@,
                        self.stems@,
                        self.leaves@,
                        sib,
                        next as int,
                        self.k as int,
                        clo,
                        chi,
                        c,
                        query@,
                    );
                }
                lemma_frame(
                    pre.stems@,
                    pre.leaves@,
                    self.stems@,
                    self.leaves@,
                    sib,
                    next as int,
                    self.k as int,
                    (if go_left {
                        lo.update(dim as int, s.split_val as int)
                    } else {
                        lo
                    }),
                    (if go_left {
                        hi
                    } else {
                        hi.update(dim as int, s.split_val as int)
                    }),
                    0,
                    query@,
                );
                // assemble the node list of the result and its distinctness
                let fl = node_list(self.stems@, self.leaves@.len() as int, idx as int);
                let fc = node_list(self.stems@, self.leaves@.len() as int, rc as int);
                let fs = node_list(self.stems@, self.leaves@.len() as int, sib);
                lemma_stem_parts(self.stems@, self.leaves@.len() as int, idx as int);
                assert(fc == cln);
                assert(fs == sl);
                assert forall|n: int| fc.contains(n) implies !fs.contains(n) by {
                    lemma_node_list_props(pre.stems@, nl0, sib);
                }
                assert forall|n: int| fc.contains(n) || fs.contains(n) implies n != idx as int by {
                    lemma_node_list_props(pre.stems@, nl0, sib);
                }
                if go_left {
                    lemma_concat3_distinct(idx as int, fc, fs);
                    assert(node_list(self.stems@, self.leaves@.len() as int, idx as int)
                        == seq![idx as int] + fc + fs);
                } else {
                    lemma_concat3_distinct(idx as int, fs, fc);
                    assert(node_list(self.stems@, self.leaves@.len() as int, idx as int)
                        == seq![idx as int] + fs + fc);
                }
                // the subtree under idx now carries the new pair
                if go_left {
                    assert(subtree(self.stems@, self.leaves@, idx as int) == subtree(
                        self.stems@,
                        self.leaves@,
                        rc as int,
                    ) + subtree(self.stems@, self.leaves@, sib));
                    vstd::seq_lib::lemma_multiset_commutative(
                        subtree(self.stems@, self.leaves@, rc as int),
                        subtree(self.stems@, self.leaves@, sib),
                    );
                    vstd::seq_lib::lemma_multiset_commutative(
                        subtree(pre.stems@, pre.leaves@, s.left as int),
                        subtree(pre.stems@, pre.leaves@, s.right as int),
                    );
                    assert(subtree(self.stems@, self.leaves@, idx as int).to_multiset()
                        =~= subtree(pre.stems@, pre.leaves@, idx as int).to_multiset().insert(
                        (query@, item),
                    ));
                } else {
                    assert(subtree(self.stems@, self.leaves@, idx as int) == subtree(
                        self.stems@,
                        self.leaves@,
                        sib,
                    ) + subtree(self.stems@, self.leaves@, rc as int));
                    vstd::seq_lib::lemma_multiset_commutative(
                        subtree(self.stems@, self.leaves@, sib),
                        subtree(self.stems@, self.leaves@, rc as int),
                    );
                    vstd::seq_lib::lemma_multiset_commutative(
                        subtree(pre.stems@, pre.leaves@, s.left as int),
                        subtree(pre.stems@, pre.leaves@, s.right as int),
                    );
                    assert(subtree(self.stems@, self.leaves@, idx as int).to_multiset()
                        =~= subtree(pre.stems@, pre.leaves@, idx as int).to_multiset().insert(
                        (query@, item),
                    ));
                }
                assert forall|c: int|
                    cap_ok(pre.stems@, pre.leaves@, idx as int, c) && point_below(query@, c)
                        implies #[trigger] cap_ok(self.stems@, self.leaves@, idx as int, c) by {
                    assert(cap_ok(pre.stems@, pre.leaves@, s.left as int, c));
                    assert(cap_ok(pre.stems@, pre.leaves@, s.right as int, c));
                    assert(cap_ok(mid.stems@, mid.leaves@, rc as int, c));
                    assert(cap_ok(self.stems@, self.leaves@, rc as int, c));
                    assert(cap_ok(self.stems@, self.leaves@, sib, c));
                }
            }
            idx
        } else {
            let li = (idx - LEAF_OFFSET) as usize;
            let leaf_len = self.leaves[li].items.len();
            if leaf_len < self.b {
                self.leaf_append(li, query, item);
                proof {
                    assert(node_list(pre.stems@, nl0, idx as int) == seq![idx as int]);
                    assert(node_list(pre.stems@, nl0, idx as int).contains(idx as int)) by {
                        assert(node_list(pre.stems@, nl0, idx as int)[0] == idx as int);
                    }
                    assert(stems_ok(self.stems@, self.leaves@.len() as int));
                    assert(node_list(self.stems@, self.leaves@.len() as int, idx as int)
                        == seq![idx as int]);
                    assert(node_list(self.stems@, self.leaves@.len() as int, idx as int).contains(
                        idx as int,
                    )) by {
                        assert(node_list(self.stems@, self.leaves@.len() as int, idx as int)[0]
                            == idx as int);
                    }
                    assert(subtree(self.stems@, self.leaves@, idx as int) == leaf_pairs(
                        self.leaves@[li as int],
                    ));
                    assert(subtree(self.stems@, self.leaves@, idx as int).to_multiset() == subtree(
                        pre.stems@,
                        pre.leaves@,
                        idx as int,
                    ).to_multiset().insert((query@, item)));
                    assert forall|j: int|
                        0 <= j < self.leaves@.len() implies leaf_wf(
                        #[trigger] self.leaves@[j],
                        self.k as int,
                        self.b as int,
                    ) by {
                        if j != li {
                            assert(self.leaves@[j] == pre.leaves@[j]);
                        }
                    }
                    let ps = leaf_pairs(self.leaves@[li as int]);
                    assert forall|i: int| 0 <= i < ps.len() implies point_in_box(
                        (#[trigger] ps[i]).0,
                        self.k as int,
                        lo,
                        hi,
                    ) by {
                        let old_ps = leaf_pairs(pre.leaves@[li as int]);
                        if i < old_ps.len() {
                            assert(ps[i] == old_ps[i]);
                        }
                    }
                    assert forall|c: int|
                        cap_ok(pre.stems@, pre.leaves@, idx as int, c) && point_below(query@, c)
                            implies #[trigger] cap_ok(self.stems@, self.leaves@, idx as int, c) by {
                        let ps2 = leaf_pairs(self.leaves@[li as int]);
                        let old_ps = leaf_pairs(pre.leaves@[li as int]);
                        assert forall|i: int, d: int|
                            0 <= i < ps2.len() && 0 <= d < ps2[i].0.len() implies #[trigger] ps2[i].0[d]
                            as int <= c by {
                            if i < old_ps.len() {
                                assert(ps2[i] == old_ps[i]);
                            }
                        }
                    }
                }
                idx
            } else {
                proof {
                    assert(node_list(pre.stems@, nl0, idx as int) == seq![idx as int]);
                    assert(node_list(pre.stems@, nl0, idx as int).contains(idx as int)) by {
                        assert(node_list(pre.stems@, nl0, idx as int)[0] == idx as int);
                    }
                }
                let r = self.split_and_add(li, idx, dim, query, item, Ghost(lo), Ghost(hi));
                proof {
                    let fl = node_list(self.stems@, self.leaves@.len() as int, r as int);
                    assert forall|n: int| #[trigger] fl.contains(n) implies node_list(
                        pre.stems@,
                        nl0,
                        idx as int,
                    ).contains(n) || (is_stem(n) && n >= pre.stems@.len()) || (n >= leaf_off() && n
                        - leaf_off() >= pre.leaves@.len()) by {
                        let t = choose|t: int| 0 <= t < fl.len() && fl[t] == n;
                        assert(t == 0 || t == 1 || t == 2);
                    }
                }
                r
            }
        }
    }

    /// Split the full leaf in slot `li` about the median along `dim`,
    /// promote a fresh stem over the two halves, and insert the pair into
    /// the half that the uniform descent rule (`coordinate <= split value`
    /// goes left) picks, so that a later descent finds it again. Returns the
    /// new stem's index.
    #[verifier::rlimit(100)]
    fn split_and_add(
        &mut self,
        li: usize,
        idx: u32,
        dim: usize,
        query: &Vec<u32>,
        item: u32,
        Ghost(lo): Ghost<Seq<int>>,
        Ghost(hi): Ghost<Seq<int>>,
    ) -> (ret: u32)
        requires
            old(self).arena_wf(),
            query@.len() == old(self).k,
            dim < old(self).k,
            lo.len() == old(self).k,
            hi.len() == old(self).k,
            !is_stem(idx as int),
            idx as int - leaf_off() == li as int,
            li < old(self).leaves@.len(),
            old(self).leaves@[li as int].items@.len() == old(self).b,
            node_inv(
                old(self).stems@,
                old(self).leaves@,
                idx as int,
                dim as int,
                old(self).k as int,
                lo,
                hi,
            ),
            point_in_box(query@, old(self).k as int, lo, hi),
            old(self).stems@.len() + 1 < leaf_off(),
            old(self).leaves@.len() + 1 < leaf_off(),
        ensures
            final(self).arena_wf(),
            final(self).k == old(self).k,
            final(self).b == old(self).b,
            final(self).root_index == old(self).root_index,
            final(self).size == old(self).size,
            final(self).stems@.len() == old(self).stems@.len() + 1,
            final(self).leaves@.len() == old(self).leaves@.len() + 1,
            forall|j: int|
                0 <= j < old(self).stems@.len() ==> final(self).stems@[j] == old(self).stems@[j],
            forall|j: int|
                0 <= j < old(self).leaves@.len() && j != li ==> final(self).leaves@[j] == old(self).leaves@[j],
            node_ok(ret as int, final(self).stems@.len() as int, final(self).leaves@.len() as int),
            ret as int == old(self).stems@.len(),
            distinct(
                node_list(final(self).stems@, final(self).leaves@.len() as int, ret as int),
            ),
            node_list(final(self).stems@, final(self).leaves@.len() as int, ret as int) == seq![
                ret as int,
                idx as int,
                old(self).leaves@.len() + leaf_off(),
            ],
            node_inv(
                final(self).stems@,
                final(self).leaves@,
                ret as int,
                dim as int,
                final(self).k as int,
                lo,
                hi,
            ),
            subtree(final(self).stems@, final(self).leaves@, ret as int).to_multiset() == subtree(
                old(self).stems@,
                old(self).leaves@,
                idx as int,
            ).to_multiset().insert((query@, item)),
            subtree(final(self).stems@, final(self).leaves@, ret as int).len() == subtree(
                old(self).stems@,
                old(self).leaves@,
                idx as int,
            ).len() + 1,
            forall|c: int|
                cap_ok(old(self).stems@, old(self).leaves@, idx as int, c) && point_below(query@, c)
                    ==> #[trigger] cap_ok(final(self).stems@, final(self).leaves@, ret as int, c),
            // the split partitions the full bucket plus the fresh pair about
            // the median: the halves hold floor(b/2) and b - floor(b/2) of
            // the old pairs, every left point is at most the split value,
            // every right point at least it, and the median itself (a pair
            // at the split value) goes right
            leaf_pairs(final(self).leaves@[li as int]).to_multiset().add(
                leaf_pairs(final(self).leaves@[old(self).leaves@.len() as int]).to_multiset(),
            ) == leaf_pairs(old(self).leaves@[li as int]).to_multiset().insert((query@, item)),
            query@[dim as int] as int <= final(self).stems@[ret as int].split_val as int ==> (
            final(self).leaves@[li as int].items@.len() == old(self).b / 2 + 1 && final(self).leaves@[old(self).leaves@.len() as int].items@.len() == old(self).b - old(self).b
                / 2),
            query@[dim as int] as int > final(self).stems@[ret as int].split_val as int ==> (final(self).leaves@[li as int].items@.len() == old(self).b / 2 && final(self).leaves@[old(self).leaves@.len() as int].items@.len() == old(self).b - old(self).b / 2
                + 1),
            forall|t: int|
                0 <= t < leaf_pairs(final(self).leaves@[li as int]).len() ==> (#[trigger] leaf_pairs(
                    final(self).leaves@[li as int],
                )[t]).0[dim as int] as int <= final(self).stems@[ret as int].split_val as int,
            forall|t: int|
                0 <= t < leaf_pairs(final(self).leaves@[old(self).leaves@.len() as int]).len()
                    ==> (#[trigger] leaf_pairs(
                    final(self).leaves@[old(self).leaves@.len() as int],
                )[t]).0[dim as int] as int >= final(self).stems@[ret as int].split_val as int,
            exists|t: int|
                0 <= t < leaf_pairs(final(self).leaves@[old(self).leaves@.len() as int]).len()
                    && (#[trigger] leaf_pairs(
                    final(self).leaves@[old(self).leaves@.len() as int],
                )[t]).0[dim as int] == final(self).stems@[ret as int].split_val,
            leaf_pairs(
                final(self).leaves@[target_leaf(
                    final(self).stems@,
                    final(self).leaves@.len() as int,
                    ret as int,
                    dim as int,
                    final(self).k as int,
                    query@,
                ) - leaf_off()],
            ).to_multiset().count((query@, item)) >= 1,
    {
        broadcast use vstd::seq_lib::group_to_multiset_ensures;
        broadcast use vstd::multiset::group_multiset_axioms;

        let ghost pre = *self;
        let ghost z = leaf_pairs(pre.leaves@[li as int]);
        let lf = &self.leaves[li];
        let cp = clone_points(&lf.points);
        let ci = clone_items(&lf.items);
        proof {
            assert(zip_pairs(cp@, ci@) =~= z);
        }
        let (sp, si) = sort_pairs(cp, ci, dim, Ghost(self.k as int));
        let ghost zs = zip_pairs(sp@, si@);
        let b = self.b;
        let pivot = b / 2;
        let split_val = sp[pivot][dim];
        let mut left_p: Vec<Vec<u32>> = Vec::new();
        let mut left_i: Vec<u32> = Vec::new();
        let mut i: usize = 0;
        while i < pivot
            invariant
                i <= pivot,
                pivot < sp@.len(),
                sp@.len() == si@.len(),
                left_p@.len() == i,
                left_i@.len() == i,
                forall|j: int| 0 <= j < i ==> (#[trigger] left_p@[j])@ == sp@[j]@,
                forall|j: int| 0 <= j < i ==> left_i@[j] == si@[j],
            decreases pivot - i,
        {
            let p = clone_point(&sp[i]);
            left_p.push(p);
            left_i.push(si[i]);
            i += 1;
        }
        let mut right_p: Vec<Vec<u32>> = Vec::new();
        let mut right_i: Vec<u32> = Vec::new();
        let mut j = pivot;
        while j < b
            invariant
                pivot <= j <= b,
                b == sp@.len(),
                sp@.len() == si@.len(),
                right_p@.len() == j - pivot,
                right_i@.len() == j - pivot,
                forall|t: int| 0 <= t < j - pivot ==> (#[trigger] right_p@[t])@ == sp@[t + pivot]@,
                forall|t: int| 0 <= t < j - pivot ==> right_i@[t] == si@[t + pivot],
            decreases b - j,
        {
            let p = clone_point(&sp[j]);
            right_p.push(p);
            right_i.push(si[j]);
            j += 1;
        }
        let ghost left_half = zs.subrange(0, pivot as int);
        let ghost right_half = zs.subrange(pivot as int, zs.len() as int);
        vec_set(&mut self.leaves, li, LeafNode { points: left_p, items: left_i });
        self.leaves.push(LeafNode { points: right_p, items: right_i });
        let rn_leaf: usize = self.leaves.len() - 1;
        let right_node: u32 = (rn_leaf as u32) + LEAF_OFFSET;
        let ns: u32 = self.stems.len() as u32;
        self.stems.push(StemNode { split_val, left: idx, right: right_node });
        proof {
            assert(leaf_pairs(self.leaves@[li as int]) =~= left_half);
            assert(leaf_pairs(self.leaves@[rn_leaf as int]) =~= right_half);
            assert(stems_ok(self.stems@, self.leaves@.len() as int)) by {
                assert forall|t: int| 0 <= t < self.stems@.len() implies stem_ok(
                    #[trigger] self.stems@[t],
                    t,
                    self.stems@.len() as int,
                    self.leaves@.len() as int,
                ) by {
                    if t < pre.stems@.len() {
                        assert(stem_ok(
                            pre.stems@[t],
                            t,
                            pre.stems@.len() as int,
                            pre.leaves@.len() as int,
                        ));
                    }
                }
            }
        }
        let target: usize = if query[dim] <= split_val {
            li
        } else {
            rn_leaf
        };
        let ghost mid = *self;
        self.leaf_append(target, query, item);
        proof {
            let ghost k = self.k as int;
            let ghost v = split_val as int;
            // the median is one of the stored points, so it lies in the box
            assert(z.to_multiset() == zs.to_multiset());
            assert forall|t: int| 0 <= t < zs.len() implies point_in_box(
                (#[trigger] zs[t]).0,
                k,
                lo,
                hi,
            ) by {
                lemma_same_ms_in_box(z, zs, k, lo, hi);
            }
            assert(zs[pivot as int].0 == sp@[pivot as int]@);
            assert(lo[dim as int] <= v <= hi[dim as int]) by {
                assert(point_in_box(zs[pivot as int].0, k, lo, hi));
            }
            // assemble the stem's node list
            assert(stems_ok(self.stems@, self.leaves@.len() as int));
            assert(node_list(self.stems@, self.leaves@.len() as int, ns as int) =~= seq![
                ns as int,
                idx as int,
                pre.leaves@.len() + leaf_off(),
            ]) by {
                assert(node_list(self.stems@, self.leaves@.len() as int, idx as int)
                    == seq![idx as int]);
                assert(node_list(self.stems@, self.leaves@.len() as int, right_node as int)
                    == seq![right_node as int]);
            }
            // the two halves plus the fresh pair make up the new subtree
            let fl = leaf_pairs(self.leaves@[li as int]);
            let fr = leaf_pairs(self.leaves@[rn_leaf as int]);
            assert(stems_ok(self.stems@, self.leaves@.len() as int));
            assert(node_ok(ns as int, self.stems@.len() as int, self.leaves@.len() as int));
            assert(self.stems@[ns as int].left == idx);
            assert(self.stems@[ns as int].right == right_node);
            assert(is_stem(ns as int));
            assert(node_ok(idx as int, self.stems@.len() as int, self.leaves@.len() as int));
            assert(node_ok(right_node as int, self.stems@.len() as int, self.leaves@.len() as int));
            assert(subtree(self.stems@, self.leaves@, idx as int) == fl);
            assert(subtree(self.stems@, self.leaves@, right_node as int) == fr);
            assert(subtree(self.stems@, self.leaves@, ns as int) == fl + fr);
            assert(left_half + right_half =~= zs);
            vstd::seq_lib::lemma_multiset_commutative(left_half, right_half);
            if target == li {
                assert(fl == left_half.push((query@, item)));
                assert(fr == right_half);
                vstd::seq_lib::to_multiset_build(left_half, (query@, item));
                vstd::seq_lib::lemma_multiset_commutative(fl, fr);
                assert(subtree(self.stems@, self.leaves@, ns as int).to_multiset()
                    =~= z.to_multiset().insert((query@, item)));
            } else {
                assert(fr == right_half.push((query@, item)));
                assert(fl == left_half);
                vstd::seq_lib::to_multiset_build(right_half, (query@, item));
                vstd::seq_lib::lemma_multiset_commutative(fl, fr);
                assert(subtree(self.stems@, self.leaves@, ns as int).to_multiset()
                    =~= z.to_multiset().insert((query@, item)));
            }
            assert(stems_ok(pre.stems@, pre.leaves@.len() as int));
            assert(node_ok(idx as int, pre.stems@.len() as int, pre.leaves@.len() as int));
            assert(subtree(pre.stems@, pre.leaves@, idx as int) == z);
            // geometric invariant of the new stem
            assert(node_inv(
                self.stems@,
                self.leaves@,
                ns as int,
                dim as int,
                k,
                lo,
                hi,
            )) by {
                let hi_l = hi.update(dim as int, v);
                let lo_r = lo.update(dim as int, v);
                assert forall|t: int| 0 <= t < fl.len() implies point_in_box(
                    (#[trigger] fl[t]).0,
                    k,
                    lo,
                    hi_l,
                ) by {
                    if t < pivot {
                        assert(fl[t] == zs[t]);
                        assert(point_in_box(zs[t].0, k, lo, hi));
                        assert(zs[t].0[dim as int] as int <= v);
                    } else {
                        assert(fl[t] == (query@, item));
                    }
                }
                assert forall|t: int| 0 <= t < fr.len() implies point_in_box(
                    (#[trigger] fr[t]).0,
                    k,
                    lo_r,
                    hi,
                ) by {
                    if t < right_half.len() {
                        assert(fr[t] == zs[t + pivot]);
                        assert(point_in_box(zs[t + pivot].0, k, lo, hi));
                        assert(zs[pivot as int].0[dim as int] <= zs[t + pivot].0[dim as int]);
                    } else {
                        assert(fr[t] == (query@, item));
                    }
                }
                assert(node_inv(
                    self.stems@,
                    self.leaves@,
                    idx as int,
                    next_dim(dim as int, k),
                    k,
                    lo,
                    hi_l,
                ));
                assert(node_inv(
                    self.stems@,
                    self.leaves@,
                    right_node as int,
                    next_dim(dim as int, k),
                    k,
                    lo_r,
                    hi,
                ));
            }
            // leaves stay well-formed buckets
            assert forall|t: int| 0 <= t < self.leaves@.len() implies leaf_wf(
                #[trigger] self.leaves@[t],
                k,
                self.b as int,
            ) by {
                if t != li && t != rn_leaf as int {
                    assert(self.leaves@[t] == pre.leaves@[t]);
                } else {
                    lemma_same_ms_in_box(z, zs, k, lo, hi);
                }
            }
            // the cap carries through the reordering and the new pair
            assert forall|c: int|
                cap_ok(pre.stems@, pre.leaves@, idx as int, c) && point_below(query@, c)
                    implies #[trigger] cap_ok(self.stems@, self.leaves@, ns as int, c) by {
                lemma_same_ms_capped(z, zs, c);
                assert(zs[pivot as int].0[dim as int] as int <= c);
                assert forall|t: int, d: int|
                    0 <= t < fl.len() && 0 <= d < fl[t].0.len() implies #[trigger] fl[t].0[d] as int
                    <= c by {
                    if t < pivot {
                        assert(fl[t] == zs[t]);
                    } else {
                        assert(fl[t] == (query@, item));
                    }
                }
                assert forall|t: int, d: int|
                    0 <= t < fr.len() && 0 <= d < fr[t].0.len() implies #[trigger] fr[t].0[d] as int
                    <= c by {
                    if t < right_half.len() {
                        assert(fr[t] == zs[t + pivot]);
                    } else {
                        assert(fr[t] == (query@, item));
                    }
                }
                assert(cap_ok(self.stems@, self.leaves@, idx as int, c));
                assert(cap_ok(self.stems@, self.leaves@, right_node as int, c));
            }
            // surface the partition shape: halves, bounds about the split
            // value, the median on the right, and where the fresh pair sits
            assert(self.stems@[ns as int].split_val == split_val);
            vstd::seq_lib::lemma_multiset_commutative(fl, fr);
            assert(fl.to_multiset().add(fr.to_multiset()) == z.to_multiset().insert(
                (query@, item),
            ));
            assert forall|t: int| 0 <= t < fl.len() implies (#[trigger] fl[t]).0[dim as int] as int
                <= split_val as int by {
                if t < pivot {
                    assert(fl[t] == zs[t]);
                    assert(zs[t].0 == sp@[t]@);
                    assert(sp@[t]@[dim as int] <= sp@[pivot as int]@[dim as int]);
                } else {
                    assert(fl[t] == (query@, item));
                }
            }
            assert forall|t: int| 0 <= t < fr.len() implies (#[trigger] fr[t]).0[dim as int] as int
                >= split_val as int by {
                if t < right_half.len() {
                    assert(fr[t] == zs[t + pivot]);
                    assert(zs[t + pivot].0 == sp@[t + pivot]@);
                    assert(sp@[pivot as int]@[dim as int] <= sp@[t + pivot]@[dim as int]);
                } else {
                    assert(fr[t] == (query@, item));
                }
            }
            assert(fr[0] == zs[pivot as int]);
            assert(fr[0].0[dim as int] == split_val);
            assert(target_leaf(
                self.stems@,
                self.leaves@.len() as int,
                idx as int,
                next_dim(dim as int, k),
                k,
                query@,
            ) == idx as int);
            assert(target_leaf(
                self.stems@,
                self.leaves@.len() as int,
                right_node as int,
                next_dim(dim as int, k),
                k,
                query@,
            ) == right_node as int);
            assert(target_leaf(
                self.stems@,
                self.leaves@.len() as int,
                ns as int,
                dim as int,
                k,
                query@,
            ) == (if query@[dim as int] as int <= split_val as int {
                idx as int
            } else {
                right_node as int
            }));
            if target == li {
                vstd::seq_lib::to_multiset_build(left_half, (query@, item));
                assert(fl.to_multiset().count((query@, item)) >= 1);
            } else {
                vstd::seq_lib::to_multiset_build(right_half, (query@, item));
                assert(fr.to_multiset().count((query@, item)) >= 1);
            }
        }
        ns
    }
}

} // verus!
