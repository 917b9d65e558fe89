//! The invariants of a shortest-path search that settles vertices in
//! ascending order of distance, and the steps that keep them.

use crate::graph::Graph;
use crate::graph::Vertex;
use crate::walk::lemma_vertex_set_len;
use crate::walk::Step;
use vstd::multiset::Multiset;
use vstd::prelude::*;

verus! {

impl Graph {
    /// What holds of the distances recorded so far: `best[x]` is the weight
    /// of a walk from `source` to `x`, and is bounded by the number of
    /// vertices recorded.
    pub(crate) open spec fn weights_found(&self, source: Vertex, best: Map<Vertex, u64>) -> bool {
        &&& best.dom().finite()
        &&& best.dom().len() <= self.n
        &&& best.contains_key(source)
        &&& best[source] == 0
        &&& forall|x: Vertex| #[trigger]
            best.contains_key(x) ==> {
                &&& x < self.n
                &&& best[x] <= (best.dom().len() - 1) * 0xffff_ffff
                &&& self.has_walk_of_weight(source, x, best[x] as int)
            }
    }

    /// Every edge that leaves `x` and comes before position `upto` ends at a
    /// recorded vertex whose distance the edge cannot improve.
    pub(crate) open spec fn relaxed_upto(
        &self,
        best: Map<Vertex, u64>,
        x: Vertex,
        upto: int,
    ) -> bool {
        forall|e: Step| #[trigger]
            self.is_step(e) && e.from == x && e.slot < upto ==> {
                &&& best.contains_key(self.step_target(e))
                &&& best[self.step_target(e)] <= best[x] + self.step_weight(e)
            }
    }

    /// No edge that leaves `x` can improve a distance.
    pub(crate) open spec fn relaxed(&self, best: Map<Vertex, u64>, x: Vertex) -> bool {
        self.relaxed_upto(best, x, self.degree(x as int))
    }

    /// What holds of the queue at every moment: an entry names a recorded
    /// vertex and costs no less than its distance; no entry is held twice;
    /// a vertex that is not settled has an entry at its distance, a settled
    /// one has none there; and no entry costs less than a settled distance.
    pub(crate) open spec fn pending(
        &self,
        best: Map<Vertex, u64>,
        queue: Multiset<(u64, Vertex)>,
        settled: Set<Vertex>,
    ) -> bool {
        &&& forall|x: Vertex| #[trigger] settled.contains(x) ==> best.contains_key(x)
        &&& forall|e: (u64, Vertex)| #[trigger]
            queue.count(e) > 0 ==> best.contains_key(e.1) && best[e.1] <= e.0
        &&& forall|e: (u64, Vertex)| #[trigger] queue.count(e) <= 1
        &&& forall|x: Vertex| #[trigger]
            best.contains_key(x) && !settled.contains(x) ==> queue.count((best[x], x)) > 0
        &&& forall|x: Vertex| #[trigger] settled.contains(x) ==> queue.count((best[x], x)) == 0
        &&& forall|x: Vertex, e: (u64, Vertex)| #[trigger]
            settled.contains(x) && #[trigger] queue.count(e) > 0 ==> best[x] <= e.0
    }

    /// The state between two vertices: every settled vertex is relaxed.
    pub(crate) open spec fn settling(
        &self,
        best: Map<Vertex, u64>,
        queue: Multiset<(u64, Vertex)>,
        settled: Set<Vertex>,
    ) -> bool {
        &&& self.pending(best, queue, settled)
        &&& forall|x: Vertex| #[trigger] settled.contains(x) ==> self.relaxed(best, x)
    }

    /// The state while the edges of the settled vertex `v` are relaxed, the
    /// first `upto` of them being done: no settled vertex is farther than
    /// `v`, and every other settled vertex is relaxed.
    pub(crate) open spec fn relaxing(
        &self,
        best: Map<Vertex, u64>,
        queue: Multiset<(u64, Vertex)>,
        settled: Set<Vertex>,
        v: Vertex,
        upto: int,
    ) -> bool {
        &&& self.pending(best, queue, settled)
        &&& settled.contains(v)
        &&& forall|x: Vertex| #[trigger] settled.contains(x) ==> best[x] <= best[v]
        &&& forall|x: Vertex| #[trigger] settled.contains(x) && x != v ==> self.relaxed(best, x)
        &&& self.relaxed_upto(best, v, upto)
    }

    /// The search starts with the source alone, at distance zero, queued.
    pub(crate) proof fn lemma_settling_start(&self, source: Vertex)
        requires
            self.wf(),
            source < self.n,
        ensures
            self.weights_found(source, Map::<Vertex, u64>::empty().insert(source, 0u64)),
            self.settling(
                Map::<Vertex, u64>::empty().insert(source, 0u64),
                Multiset::<(u64, Vertex)>::empty().insert((0u64, source)),
                Set::<Vertex>::empty(),
            ),
    {
        broadcast use vstd::multiset::group_multiset_axioms;

        let best = Map::<Vertex, u64>::empty().insert(source, 0u64);
        assert(best.dom() =~= Set::<Vertex>::empty().insert(source));
        assert(self.is_walk(source, source, Seq::<Step>::empty()));
        assert(self.walk_weight(Seq::<Step>::empty()) == 0);
    }

    /// An entry that costs more than the distance of its vertex is dropped.
    pub(crate) proof fn lemma_drop_stale(
        &self,
        best: Map<Vertex, u64>,
        queue: Multiset<(u64, Vertex)>,
        settled: Set<Vertex>,
        e: (u64, Vertex),
    )
        requires
            self.settling(best, queue, settled),
            queue.count(e) > 0,
            e.0 > best[e.1],
        ensures
            self.settling(best, queue.remove(e), settled),
    {
        broadcast use vstd::multiset::group_multiset_axioms;

        let rest = queue.remove(e);
        assert forall|a: (u64, Vertex)| #[trigger] rest.count(a) > 0 implies queue.count(a)
            > 0 by {}
        assert forall|a: (u64, Vertex)| #[trigger] rest.count(a) <= 1 by {
            assert(queue.count(a) <= 1);
        }
        assert forall|x: Vertex| #[trigger]
            best.contains_key(x) && !settled.contains(x) implies rest.count((best[x], x))
            > 0 by {
            assert(queue.count((best[x], x)) > 0);
        }
        assert forall|x: Vertex| #[trigger] settled.contains(x) implies rest.count((best[x], x))
            == 0 by {
            assert(queue.count((best[x], x)) == 0);
        }
        assert forall|x: Vertex, a: (u64, Vertex)| #[trigger]
            settled.contains(x) && #[trigger] rest.count(a) > 0 implies best[x] <= a.0 by {
            assert(queue.count(a) > 0);
        }
    }

    /// An entry of least cost that is at the distance of its vertex settles
    /// that vertex.
    pub(crate) proof fn lemma_settle(
        &self,
        source: Vertex,
        best: Map<Vertex, u64>,
        queue: Multiset<(u64, Vertex)>,
        settled: Set<Vertex>,
        e: (u64, Vertex),
    )
        requires
            self.weights_found(source, best),
            self.settling(best, queue, settled),
            settled.finite(),
            queue.count(e) > 0,
            forall|a: (u64, Vertex)| #[trigger] queue.contains(a) ==> e.0 <= a.0,
            e.0 <= best[e.1],
        ensures
            e.0 == best[e.1],
            !settled.contains(e.1),
            settled.insert(e.1).finite(),
            settled.insert(e.1).len() == settled.len() + 1,
            settled.insert(e.1).len() <= self.n,
            self.relaxing(best, queue.remove(e), settled.insert(e.1), e.1, 0),
    {
        broadcast use vstd::multiset::group_multiset_axioms;

        let v = e.1;
        let rest = queue.remove(e);
        let grown = settled.insert(v);
        assert(best.contains_key(v) && best[v] <= e.0);
        assert(e == (best[v], v));
        assert(!settled.contains(v));
        assert forall|x: Vertex| grown.contains(x) implies x < self.n by {
            assert(best.contains_key(x));
        }
        lemma_vertex_set_len(grown, self.n);

        assert forall|a: (u64, Vertex)| #[trigger] rest.count(a) > 0 implies queue.count(a)
            > 0 by {}
        assert forall|a: (u64, Vertex)| #[trigger] rest.count(a) <= 1 by {
            assert(queue.count(a) <= 1);
        }
        assert forall|x: Vertex| #[trigger]
            best.contains_key(x) && !grown.contains(x) implies rest.count((best[x], x)) > 0 by {
            assert(queue.count((best[x], x)) > 0);
        }
        assert forall|x: Vertex| #[trigger] grown.contains(x) implies rest.count((best[x], x))
            == 0 by {
            if x == v {
                assert(queue.count(e) <= 1);
            } else {
                assert(settled.contains(x));
                assert(queue.count((best[x], x)) == 0);
            }
        }
        assert forall|x: Vertex, a: (u64, Vertex)| #[trigger]
            grown.contains(x) && #[trigger] rest.count(a) > 0 implies best[x] <= a.0 by {
            assert(queue.count(a) > 0);
            assert(queue.contains(a));
            if x != v {
                assert(settled.contains(x));
            }
        }
        assert forall|x: Vertex| #[trigger] grown.contains(x) implies best[x] <= best[v] by {
            if x != v {
                assert(settled.contains(x));
                assert(queue.count(e) > 0);
            }
        }
        assert forall|x: Vertex| #[trigger] grown.contains(x) && x != v implies self.relaxed(
            best,
            x,
        ) by {
            assert(settled.contains(x));
        }
    }

    /// An edge that cannot improve the distance of its target needs nothing.
    pub(crate) proof fn lemma_relax_kept(
        &self,
        best: Map<Vertex, u64>,
        queue: Multiset<(u64, Vertex)>,
        settled: Set<Vertex>,
        v: Vertex,
        k: int,
    )
        requires
            self.relaxing(best, queue, settled, v, k),
            self.is_step(Step { from: v, slot: k }),
            best.contains_key(self.step_target(Step { from: v, slot: k })),
            best[self.step_target(Step { from: v, slot: k })] <= best[v] + self.step_weight(
                Step { from: v, slot: k },
            ),
        ensures
            self.relaxing(best, queue, settled, v, k + 1),
    {
        assert forall|e: Step| #[trigger] self.is_step(e) && e.from == v && e.slot < k + 1 implies {
            &&& best.contains_key(self.step_target(e))
            &&& best[self.step_target(e)] <= best[v] + self.step_weight(e)
        } by {
            if e.slot == k {
                assert(e == Step { from: v, slot: k });
            }
        }
    }

    /// The distance of `v` and the weight of an edge add up within `u64`.
    pub(crate) proof fn lemma_candidate_fits(
        &self,
        source: Vertex,
        best: Map<Vertex, u64>,
        v: Vertex,
        k: int,
    )
        requires
            self.n <= 0x1_0000_0000,
            self.weights_found(source, best),
            best.contains_key(v),
            self.is_step(Step { from: v, slot: k }),
        ensures
            best[v] + self.step_weight(Step { from: v, slot: k }) <= u64::MAX,
    {
    }

    /// An edge that improves the distance of its target, or reaches a new
    /// vertex, records the sum and queues it.
    pub(crate) proof fn lemma_relax_improved(
        &self,
        source: Vertex,
        best: Map<Vertex, u64>,
        queue: Multiset<(u64, Vertex)>,
        settled: Set<Vertex>,
        v: Vertex,
        k: int,
    )
        requires
            self.wf(),
            self.n <= 0x1_0000_0000,
            self.weights_found(source, best),
            self.relaxing(best, queue, settled, v, k),
            self.is_step(Step { from: v, slot: k }),
            best.contains_key(self.step_target(Step { from: v, slot: k })) ==> best[v]
                + self.step_weight(Step { from: v, slot: k }) < best[self.step_target(
                Step { from: v, slot: k },
            )],
        ensures
            best[v] + self.step_weight(Step { from: v, slot: k }) <= u64::MAX,
            self.weights_found(
                source,
                best.insert(
                    self.step_target(Step { from: v, slot: k }),
                    (best[v] + self.step_weight(Step { from: v, slot: k })) as u64,
                ),
            ),
            self.relaxing(
                best.insert(
                    self.step_target(Step { from: v, slot: k }),
                    (best[v] + self.step_weight(Step { from: v, slot: k })) as u64,
                ),
                queue.insert(
                    (
                        (best[v] + self.step_weight(Step { from: v, slot: k })) as u64,
                        self.step_target(Step { from: v, slot: k }),
                    ),
                ),
                settled,
                v,
                k + 1,
            ),
    {
        broadcast use vstd::multiset::group_multiset_axioms;

        let e = Step { from: v, slot: k };
        let t = self.step_target(e);
        assert(self.outedges@[v as int]@[k].0 < self.n);
        assert(best.contains_key(v));
        self.lemma_candidate_fits(source, best, v, k);
        let c = (best[v] + self.step_weight(e)) as u64;
        let best2 = best.insert(t, c);
        let queue2 = queue.insert((c, t));
        assert(!settled.contains(t)) by {
            if settled.contains(t) {
                assert(best[t] <= best[v]);
            }
        }
        assert(t != v);

        if best.contains_key(t) {
            assert(best2.dom() =~= best.dom());
        } else {
            let grown = best.dom().insert(t);
            assert(best2.dom() =~= grown);
            assert forall|x: Vertex| grown.contains(x) implies x < self.n by {
                if x != t {
                    assert(best.contains_key(x));
                }
            }
            lemma_vertex_set_len(grown, self.n);
        }
        let w = choose|w: Seq<Step>| #[trigger]
            self.is_walk(source, v, w) && self.walk_weight(w) == best[v] as int;
        self.lemma_walk_push(source, w, e);
        assert(self.is_walk(source, t, w.push(e)) && self.walk_weight(w.push(e)) == c as int);
        assert forall|x: Vertex| #[trigger] best2.contains_key(x) implies {
            &&& x < self.n
            &&& best2[x] <= (best2.dom().len() - 1) * 0xffff_ffff
            &&& self.has_walk_of_weight(source, x, best2[x] as int)
        } by {
            if x != t {
                assert(best.contains_key(x));
            }
        }

        assert forall|x: Vertex| #[trigger] settled.contains(x) implies best2.contains_key(x) by {
            assert(best.contains_key(x));
        }
        assert forall|a: (u64, Vertex)| #[trigger] queue2.count(a) > 0 implies best2.contains_key(
            a.1,
        ) && best2[a.1] <= a.0 by {
            if a != (c, t) {
                assert(queue.count(a) > 0);
            }
        }
        assert forall|a: (u64, Vertex)| #[trigger] queue2.count(a) <= 1 by {
            assert(queue.count(a) <= 1);
            if a == (c, t) && queue.count(a) > 0 {
                assert(best.contains_key(t) && best[t] <= c);
            }
        }
        assert forall|x: Vertex| #[trigger]
            best2.contains_key(x) && !settled.contains(x) implies queue2.count((best2[x], x))
            > 0 by {
            if x != t {
                assert(best.contains_key(x));
                assert(queue.count((best[x], x)) > 0);
            }
        }
        assert forall|x: Vertex| #[trigger] settled.contains(x) implies queue2.count(
            (best2[x], x),
        ) == 0 by {
            assert(queue.count((best[x], x)) == 0);
        }
        assert forall|x: Vertex, a: (u64, Vertex)| #[trigger]
            settled.contains(x) && #[trigger] queue2.count(a) > 0 implies best2[x] <= a.0 by {
            assert(best[x] <= best[v]);
            if a != (c, t) {
                assert(queue.count(a) > 0);
            }
        }
        assert forall|x: Vertex| #[trigger] settled.contains(x) implies best2[x] <= best2[v] by {
            assert(best[x] <= best[v]);
        }
        assert forall|x: Vertex| #[trigger] settled.contains(x) && x != v implies self.relaxed(
            best2,
            x,
        ) by {
            assert(self.relaxed(best, x));
            assert forall|a: Step| #[trigger] self.is_step(a) && a.from == x implies {
                &&& best2.contains_key(self.step_target(a))
                &&& best2[self.step_target(a)] <= best2[x] + self.step_weight(a)
            } by {}
        }
        assert forall|a: Step| #[trigger] self.is_step(a) && a.from == v && a.slot < k + 1 implies {
            &&& best2.contains_key(self.step_target(a))
            &&& best2[self.step_target(a)] <= best2[v] + self.step_weight(a)
        } by {
            if a.slot == k {
                assert(a == e);
            }
        }
    }

    /// When all edges of `v` are done, `v` is relaxed.
    pub(crate) proof fn lemma_relax_done(
        &self,
        best: Map<Vertex, u64>,
        queue: Multiset<(u64, Vertex)>,
        settled: Set<Vertex>,
        v: Vertex,
    )
        requires
            self.relaxing(best, queue, settled, v, self.degree(v as int)),
        ensures
            self.settling(best, queue, settled),
    {
    }

    /// Once the queue is empty, every walk from the source ends at a
    /// recorded vertex and weighs at least the distance recorded for it.
    pub(crate) proof fn lemma_relaxed_bounds_walk(
        &self,
        source: Vertex,
        best: Map<Vertex, u64>,
        settled: Set<Vertex>,
        to: Vertex,
        walk: Seq<Step>,
    )
        requires
            self.weights_found(source, best),
            self.settling(best, Multiset::<(u64, Vertex)>::empty(), settled),
            self.is_walk(source, to, walk),
        ensures
            best.contains_key(to),
            best[to] <= self.walk_weight(walk),
        decreases walk.len(),
    {
        broadcast use vstd::multiset::group_multiset_axioms;

        if walk.len() > 0 {
            let e = walk.last();
            self.lemma_relaxed_bounds_walk(source, best, settled, e.from, walk.drop_last());
            assert(settled.contains(e.from)) by {
                if !settled.contains(e.from) {
                    assert(Multiset::<(u64, Vertex)>::empty().count((best[e.from], e.from)) > 0);
                }
            }
            assert(self.relaxed(best, e.from));
        }
    }

    /// At the end of the search the map holds the weighted distances.
    pub(crate) proof fn lemma_settling_empty(
        &self,
        source: Vertex,
        best: Map<Vertex, u64>,
        settled: Set<Vertex>,
    )
        requires
            self.weights_found(source, best),
            self.settling(best, Multiset::<(u64, Vertex)>::empty(), settled),
        ensures
            self.is_weighted_distance_map(source, best),
    {
        assert forall|v: Vertex|
            {
                &&& #[trigger] best.contains_key(v) <==> self.reachable(source, v)
                &&& best.contains_key(v) ==> self.is_weighted_distance(source, v, best[v] as int)
            } by {
            if self.reachable(source, v) {
                let w = choose|w: Seq<Step>| self.is_walk(source, v, w);
                self.lemma_relaxed_bounds_walk(source, best, settled, v, w);
            }
            if best.contains_key(v) {
                assert forall|w: Seq<Step>| #[trigger] self.is_walk(source, v, w) implies best[v]
                    <= self.walk_weight(w) by {
                    self.lemma_relaxed_bounds_walk(source, best, settled, v, w);
                }
            }
        }
    }
}

} // verus!
