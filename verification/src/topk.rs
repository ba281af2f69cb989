//! The bounded candidate list behind the k-nearest query, and the iterator
//! that drains its results in ascending distance order.

use crate::dist::{dist_spec, Metric};
use vstd::prelude::*;

verus! {

/// Candidate order: ascending distance, ties broken toward larger items.
pub open spec fn le_cand(a: (u32, u32), b: (u32, u32)) -> bool {
    a.0 < b.0 || (a.0 == b.0 && a.1 >= b.1)
}

pub open spec fn cands_sorted(s: Seq<(u32, u32)>) -> bool {
    forall|i: int, j: int| 0 <= i < j < s.len() ==> le_cand(s[i], s[j])
}

/// Each stored pair scored against the query: its distance and its item.
pub open spec fn scored(m: Metric, q: Seq<u32>, es: Seq<(Seq<u32>, u32)>) -> Seq<(u32, u32)> {
    Seq::new(es.len(), |i: int| (dist_spec(m, q, es[i].0) as u32, es[i].1))
}

/// Offer one candidate to a bounded sorted list: always taken while the
/// list is short of `qty`, otherwise only if strictly closer than the
/// current worst, which it then replaces.
pub(crate) fn accept_candidate(best: &mut Vec<(u32, u32)>, qty: usize, d: u32, it: u32)
    requires
        cands_sorted(old(best)@),
        old(best)@.len() <= qty,
    ensures
        cands_sorted(final(best)@),
        final(best)@.len() <= qty,
        old(best)@.len() < qty ==> final(best)@.len() == old(best)@.len() + 1 && final(best)@.to_multiset() == old(best)@.to_multiset().insert((d, it)),
        old(best)@.len() == qty && qty > 0 && d < old(best)@.last().0 ==> final(best)@.len() == qty
            && final(best)@.to_multiset() == old(best)@.to_multiset().remove(
            old(best)@.last(),
        ).insert((d, it)),
        old(best)@.len() == qty && !(qty > 0 && d < old(best)@.last().0) ==> final(best)@ == old(best)@,
        old(best)@.len() == qty && qty > 0 ==> final(best)@.len() == qty && final(best)@.last().0
            <= old(best)@.last().0,
{
    broadcast use vstd::seq_lib::group_to_multiset_ensures;
    broadcast use vstd::multiset::group_multiset_axioms;

    let ghost orig = best@;
    if best.len() == qty {
        if qty == 0 {
            return ;
        }
        let last = best[qty - 1];
        if d < last.0 {
            best.pop();
            proof {
                assert(best@ =~= orig.drop_last());
                assert(orig.drop_last() =~= orig.remove(orig.len() - 1));
            }
        } else {
            return ;
        }
    }
    let ghost popped = best@;
    let mut pos: usize = 0;
    while pos < best.len() && cand_before(best[pos], d, it)
        invariant
            pos <= best@.len(),
            best@ == popped,
            cands_sorted(popped),
            forall|j: int| 0 <= j < pos ==> !le_cand((d, it), #[trigger] popped[j]),
        decreases best@.len() - pos,
    {
        pos += 1;
    }
    proof {
        assert(pos < popped.len() ==> le_cand((d, it), popped[pos as int]));
    }
    best.insert(pos, (d, it));
    proof {
        let f = best@;
        assert(f == popped.insert(pos as int, (d, it)));
        assert forall|i: int, j: int| 0 <= i < j < f.len() implies le_cand(f[i], f[j]) by {
            let c = (d, it);
            if i < pos && j == pos {
                assert(f[i] == popped[i]);
                assert(!le_cand(c, popped[i]));
            } else if i == pos && j > pos {
                assert(f[j] == popped[j - 1]);
                if pos < popped.len() {
                    if j - 1 > pos {
                        assert(le_cand(popped[pos as int], popped[j - 1]));
                    }
                    assert(le_cand(c, popped[pos as int]));
                }
            } else if i < pos && j > pos {
                assert(f[i] == popped[i] && f[j] == popped[j - 1]);
                if j - 1 == i {
                    assert(!le_cand(c, popped[i]));
                } else {
                    assert(le_cand(popped[i], popped[j - 1]));
                }
            } else if i < pos && j < pos {
                assert(f[i] == popped[i] && f[j] == popped[j]);
            } else {
                assert(f[i] == popped[i - 1] && f[j] == popped[j - 1]);
            }
        }
        if orig.len() == qty && qty > 0 && d < orig.last().0 {
            let f = best@;
            assert(f.len() == qty);
            if pos as int == f.len() - 1 {
                assert(f.last() == (d, it));
            } else {
                assert(f.last() == popped[f.len() - 2]);
                assert(popped[f.len() - 2] == orig[f.len() - 2]);
                assert(le_cand(orig[f.len() - 2], orig[qty - 1]));
            }
        }
    }
}

/// Whether an existing candidate still precedes a new `(d, it)` one.
fn cand_before(e: (u32, u32), d: u32, it: u32) -> (r: bool)
    ensures
        r == !le_cand((d, it), e),
{
    e.0 < d || (e.0 == d && it < e.1)
}

/// Yields the k-nearest results in ascending distance order.
pub struct NearestIter {
    pub results: Vec<(u32, u32)>,
    pub pos: usize,
}

impl NearestIter {
    /// The results not yet handed out.
    pub open spec fn remaining(self) -> Seq<(u32, u32)> {
        if self.pos <= self.results@.len() {
            self.results@.subrange(self.pos as int, self.results@.len() as int)
        } else {
            Seq::empty()
        }
    }

    /// The next (distance, item) pair, in ascending distance order.
    pub fn next(&mut self) -> (r: Option<(u32, u32)>)
        ensures
            old(self).remaining().len() == 0 ==> r == None::<(u32, u32)> && final(self).remaining()
                == old(self).remaining(),
            old(self).remaining().len() > 0 ==> r == Some(old(self).remaining()[0]) && final(self).remaining() == old(self).remaining().drop_first(),
    {
        if self.pos < self.results.len() {
            let x = self.results[self.pos];
            self.pos += 1;
            proof {
                assert(final(self).remaining() =~= old(self).remaining().drop_first());
            }
            Some(x)
        } else {
            None
        }
    }
}

} // verus!
