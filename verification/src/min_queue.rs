//! A priority queue of candidate distances that hands out the least first.

use crate::graph::Vertex;
use vstd::multiset::Multiset;
use vstd::prelude::*;
use vstd::seq_lib::to_multiset_build;
use vstd::seq_lib::to_multiset_contains;
use vstd::seq_lib::to_multiset_len;
use vstd::seq_lib::to_multiset_remove;
use vstd::seq_lib::to_multiset_update;

verus! {

/// A binary min-heap of pairs of a cost and a vertex, ordered by cost. The
/// same pair may be held more than once.
pub struct MinQueue {
    entries: Vec<(u64, Vertex)>,
}

/// Every entry but the first costs at least as much as the one above it.
spec fn heap_ordered(s: Seq<(u64, Vertex)>) -> bool {
    forall|j: int| 0 < j < s.len() ==> s[(j - 1) / 2].0 <= (#[trigger] s[j]).0
}

/// The order holds everywhere but between `hole` and the entry above it,
/// and the entries below `hole` cost at least as much as the one above it.
spec fn ordered_above(s: Seq<(u64, Vertex)>, hole: int) -> bool {
    &&& forall|j: int| 0 < j < s.len() && j != hole ==> s[(j - 1) / 2].0 <= (#[trigger] s[j]).0
    &&& forall|j: int|
        0 < j < s.len() && (j - 1) / 2 == hole && hole > 0 ==> s[(hole - 1) / 2].0 <= (
        #[trigger] s[j]).0
}

/// The order holds everywhere but between `hole` and the entries below it,
/// and those cost at least as much as the one above `hole`.
spec fn ordered_below(s: Seq<(u64, Vertex)>, hole: int) -> bool {
    &&& forall|j: int|
        0 < j < s.len() && (j - 1) / 2 != hole ==> s[(j - 1) / 2].0 <= (#[trigger] s[j]).0
    &&& forall|j: int|
        0 < j < s.len() && (j - 1) / 2 == hole && hole > 0 ==> s[(hole - 1) / 2].0 <= (
        #[trigger] s[j]).0
}

/// In a heap no entry costs less than the first.
proof fn lemma_root_is_least(s: Seq<(u64, Vertex)>, i: int)
    requires
        heap_ordered(s),
        0 <= i < s.len(),
    ensures
        s[0].0 <= s[i].0,
    decreases i,
{
    if i > 0 {
        lemma_root_is_least(s, (i - 1) / 2);
    }
}

/// Exchanging two entries changes nothing in what the sequence holds.
proof fn lemma_swap_keeps_contents(s: Seq<(u64, Vertex)>, i: int, j: int)
    requires
        0 <= i < s.len(),
        0 <= j < s.len(),
        i != j,
    ensures
        s.update(i, s[j]).update(j, s[i]).to_multiset() == s.to_multiset(),
{
    broadcast use vstd::multiset::group_multiset_axioms;

    let mid = s.update(i, s[j]);
    to_multiset_update(s, i, s[j]);
    to_multiset_update(mid, j, s[i]);
    to_multiset_contains(s, s[i]);
    to_multiset_contains(s, s[j]);
    assert(s.contains(s[i]));
    assert(s.contains(s[j]));
    assert(mid.update(j, s[i]).to_multiset() =~= s.to_multiset());
}

impl View for MinQueue {
    type V = Multiset<(u64, Vertex)>;

    /// What the queue holds, without regard to order.
    closed spec fn view(&self) -> Multiset<(u64, Vertex)> {
        self.entries@.to_multiset()
    }
}

impl MinQueue {
    /// The entries are arranged as a heap.
    pub closed spec fn wf(&self) -> bool {
        heap_ordered(self.entries@)
    }

    /// An empty queue.
    pub fn new() -> (queue: MinQueue)
        ensures
            queue.wf(),
            queue@ == Multiset::<(u64, Vertex)>::empty(),
    {
        let queue = MinQueue { entries: Vec::new() };
        proof {
            broadcast use vstd::multiset::group_multiset_axioms;

            to_multiset_len(queue.entries@);
            assert(queue@ =~= Multiset::<(u64, Vertex)>::empty());
        }
        queue
    }

    /// Number of entries held.
    pub fn len(&self) -> (n: usize)
        ensures
            n == self@.len(),
    {
        proof {
            to_multiset_len(self.entries@);
        }
        self.entries.len()
    }

    /// Whether the queue holds nothing.
    pub fn is_empty(&self) -> (empty: bool)
        ensures
            empty == (self@.len() == 0),
    {
        proof {
            to_multiset_len(self.entries@);
        }
        self.entries.len() == 0
    }

    /// Adds the pair of `cost` and `vertex`.
    pub fn push(&mut self, cost: u64, vertex: Vertex)
        requires
            old(self).wf(),
        ensures
            final(self).wf(),
            final(self)@ == old(self)@.insert((cost, vertex)),
    {
        self.entries.push((cost, vertex));
        let mut i: usize = self.entries.len() - 1;
        proof {
            to_multiset_build(old(self).entries@, (cost, vertex));
        }
        while i > 0 && self.entries[(i - 1) / 2].0 > self.entries[i].0
            invariant
                i < self.entries@.len(),
                self.entries@.to_multiset() == old(self).entries@.to_multiset().insert(
                    (cost, vertex),
                ),
                ordered_above(self.entries@, i as int),
            decreases i,
        {
            let up: usize = (i - 1) / 2;
            let lower = self.entries[i];
            let upper = self.entries[up];
            proof {
                lemma_swap_keeps_contents(self.entries@, i as int, up as int);
            }
            self.entries[i] = upper;
            self.entries[up] = lower;
            i = up;
        }
    }

    /// Takes out an entry of least cost, if there is any entry.
    pub fn pop_min(&mut self) -> (least: Option<(u64, Vertex)>)
        requires
            old(self).wf(),
        ensures
            final(self).wf(),
            match least {
                None => old(self)@.len() == 0 && final(self)@ == old(self)@,
                Some(e) => {
                    &&& old(self)@.contains(e)
                    &&& final(self)@ == old(self)@.remove(e)
                    &&& forall|x: (u64, Vertex)| #[trigger] old(self)@.contains(x) ==> e.0 <= x.0
                },
            },
    {
        proof {
            to_multiset_len(self.entries@);
        }
        if self.entries.len() == 0 {
            return None;
        }
        let least = self.entries[0];
        proof {
            broadcast use vstd::multiset::group_multiset_axioms;

            let s = self.entries@;
            to_multiset_contains(s, least);
            assert(s.contains(least));
            assert forall|x: (u64, Vertex)| #[trigger] s.to_multiset().contains(x) implies least.0
                <= x.0 by {
                to_multiset_contains(s, x);
                let k = choose|k: int| 0 <= k < s.len() && s[k] == x;
                lemma_root_is_least(s, k);
            }
            to_multiset_remove(s, s.len() - 1);
            assert(s.remove(s.len() - 1) =~= s.drop_last());
        }
        let last = self.entries.pop().unwrap();
        let n: usize = self.entries.len();
        if n == 0 {
            return Some(least);
        }
        proof {
            broadcast use vstd::multiset::group_multiset_axioms;

            to_multiset_update(self.entries@, 0, last);
            to_multiset_contains(old(self).entries@, last);
            assert(old(self).entries@.contains(last));
            assert(self.entries@.update(0, last).to_multiset() =~= old(
                self,
            ).entries@.to_multiset().remove(least));
        }
        self.entries[0] = last;
        let mut i: usize = 0;
        let mut settled = false;
        while !settled && i < n / 2
            invariant
                n == self.entries@.len(),
                i < n,
                self.entries@.to_multiset() == old(self).entries@.to_multiset().remove(least),
                !settled ==> ordered_below(self.entries@, i as int),
                settled ==> heap_ordered(self.entries@),
            decreases n - i + (if settled { 0int } else { 1int }),
        {
            let left: usize = 2 * i + 1;
            let right: usize = left + 1;
            let mut child: usize = left;
            if right < n && self.entries[right].0 < self.entries[left].0 {
                child = right;
            }
            let upper = self.entries[i];
            let lower = self.entries[child];
            if upper.0 <= lower.0 {
                settled = true;
            } else {
                proof {
                    lemma_swap_keeps_contents(self.entries@, i as int, child as int);
                }
                self.entries[i] = lower;
                self.entries[child] = upper;
                i = child;
            }
        }
        Some(least)
    }
}

} // verus!
