//! The invariants of a breadth-first search and the steps that keep them.

use crate::graph::Graph;
use crate::graph::Vertex;
use crate::walk::lemma_vertex_set_len;
use crate::walk::Step;
use vstd::prelude::*;

verus! {

impl Graph {
    /// What holds of the vertices found so far: `found[x]` is the length of
    /// a walk from `source` to `x`, and is less than the number of vertices
    /// found.
    pub(crate) open spec fn hops_found(&self, source: Vertex, found: Map<Vertex, u32>) -> bool {
        &&& found.dom().finite()
        &&& found.dom().len() <= self.n
        &&& found.contains_key(source)
        &&& found[source] == 0
        &&& forall|x: Vertex| #[trigger]
            found.contains_key(x) ==> {
                &&& x < self.n
                &&& found[x] < found.dom().len()
                &&& self.has_walk_of_length(source, x, found[x] as int)
            }
    }

    /// Every edge that leaves `x` and comes before position `upto` ends at a
    /// found vertex that is at most one hop farther than `x`.
    pub(crate) open spec fn hops_closed_upto(
        &self,
        found: Map<Vertex, u32>,
        x: Vertex,
        upto: int,
    ) -> bool {
        forall|e: Step| #[trigger]
            self.is_step(e) && e.from == x && e.slot < upto ==> {
                &&& found.contains_key(self.step_target(e))
                &&& found[self.step_target(e)] <= found[x] + 1
            }
    }

    /// Every edge that leaves `x` has been looked at.
    pub(crate) open spec fn hops_closed(&self, found: Map<Vertex, u32>, x: Vertex) -> bool {
        self.hops_closed_upto(found, x, self.degree(x as int))
    }

    /// The state while the edges of `v` are examined, the first `upto` of
    /// them being done: the queue holds found vertices in ascending order of
    /// their distance, none nearer than `v`; no found vertex is more than
    /// one hop farther than `v`; and every found vertex other than `v` is
    /// queued or closed.
    pub(crate) open spec fn expanding(
        &self,
        found: Map<Vertex, u32>,
        queue: Seq<Vertex>,
        v: Vertex,
        upto: int,
    ) -> bool {
        &&& found.contains_key(v)
        &&& forall|i: int|
            0 <= i < queue.len() ==> found.contains_key(#[trigger] queue[i]) && found[v]
                <= found[queue[i]]
        &&& forall|i: int, j: int|
            0 <= i <= j < queue.len() ==> found[#[trigger] queue[i]] <= found[#[trigger] queue[j]]
        &&& forall|x: Vertex| #[trigger] found.contains_key(x) ==> found[x] <= found[v] + 1
        &&& forall|x: Vertex| #[trigger]
            found.contains_key(x) ==> x == v || queue.contains(x) || self.hops_closed(found, x)
        &&& self.hops_closed_upto(found, v, upto)
    }

    /// The state between two vertices: as above, with the head of the queue
    /// in the place of `v`, and every found vertex queued or closed.
    pub(crate) open spec fn frontier(&self, found: Map<Vertex, u32>, queue: Seq<Vertex>) -> bool {
        &&& forall|i: int| 0 <= i < queue.len() ==> found.contains_key(#[trigger] queue[i])
        &&& forall|i: int, j: int|
            0 <= i <= j < queue.len() ==> found[#[trigger] queue[i]] <= found[#[trigger] queue[j]]
        &&& queue.len() > 0 ==> forall|x: Vertex| #[trigger]
            found.contains_key(x) ==> found[x] <= found[queue[0]] + 1
        &&& forall|x: Vertex| #[trigger]
            found.contains_key(x) ==> queue.contains(x) || self.hops_closed(found, x)
    }

    /// The search starts with the source alone, at distance zero.
    pub(crate) proof fn lemma_frontier_start(&self, source: Vertex)
        requires
            self.wf(),
            source < self.n,
        ensures
            self.hops_found(source, Map::<Vertex, u32>::empty().insert(source, 0u32)),
            self.frontier(
                Map::<Vertex, u32>::empty().insert(source, 0u32),
                Seq::<Vertex>::empty().push(source),
            ),
    {
        let found = Map::<Vertex, u32>::empty().insert(source, 0u32);
        let queue = Seq::<Vertex>::empty().push(source);
        assert(found.dom() =~= Set::<Vertex>::empty().insert(source));
        assert(self.is_walk(source, source, Seq::<Step>::empty()));
        assert(queue[0] == source);
    }

    /// Taking the head of the queue begins its expansion.
    pub(crate) proof fn lemma_frontier_pop(&self, found: Map<Vertex, u32>, queue: Seq<Vertex>)
        requires
            self.frontier(found, queue),
            queue.len() > 0,
        ensures
            self.expanding(found, queue.subrange(1, queue.len() as int), queue[0], 0),
    {
        let rest = queue.subrange(1, queue.len() as int);
        let v = queue[0];
        assert forall|i: int| 0 <= i < rest.len() implies found.contains_key(#[trigger] rest[i])
            && found[v] <= found[rest[i]] by {
            assert(rest[i] == queue[i + 1]);
        }
        assert forall|i: int, j: int| 0 <= i <= j < rest.len() implies found[#[trigger] rest[i]]
            <= found[#[trigger] rest[j]] by {
            assert(rest[i] == queue[i + 1]);
            assert(rest[j] == queue[j + 1]);
        }
        assert forall|x: Vertex| #[trigger] found.contains_key(x) implies x == v || rest.contains(
            x,
        ) || self.hops_closed(found, x) by {
            if queue.contains(x) && x != v {
                let i = choose|i: int| 0 <= i < queue.len() && queue[i] == x;
                assert(rest[i - 1] == x);
            }
        }
    }

    /// An edge that ends at a vertex already found needs nothing.
    pub(crate) proof fn lemma_expand_known(
        &self,
        found: Map<Vertex, u32>,
        queue: Seq<Vertex>,
        v: Vertex,
        k: int,
    )
        requires
            self.expanding(found, queue, v, k),
            self.is_step(Step { from: v, slot: k }),
            found.contains_key(self.step_target(Step { from: v, slot: k })),
        ensures
            self.expanding(found, queue, v, k + 1),
    {
        assert forall|e: Step| #[trigger] self.is_step(e) && e.from == v && e.slot < k + 1 implies {
            &&& found.contains_key(self.step_target(e))
            &&& found[self.step_target(e)] <= found[v] + 1
        } by {
            if e.slot == k {
                assert(e == Step { from: v, slot: k });
            }
        }
    }

    /// An edge that ends at a new vertex puts it one hop behind `v`, at the
    /// back of the queue.
    pub(crate) proof fn lemma_expand_new(
        &self,
        source: Vertex,
        found: Map<Vertex, u32>,
        queue: Seq<Vertex>,
        v: Vertex,
        k: int,
    )
        requires
            self.wf(),
            self.n <= 0x1_0000_0000,
            self.hops_found(source, found),
            self.expanding(found, queue, v, k),
            self.is_step(Step { from: v, slot: k }),
            !found.contains_key(self.step_target(Step { from: v, slot: k })),
        ensures
            found[v] + 1 <= u32::MAX,
            self.hops_found(
                source,
                found.insert(self.step_target(Step { from: v, slot: k }), (found[v] + 1) as u32),
            ),
            self.expanding(
                found.insert(self.step_target(Step { from: v, slot: k }), (found[v] + 1) as u32),
                queue.push(self.step_target(Step { from: v, slot: k })),
                v,
                k + 1,
            ),
            found.insert(
                self.step_target(Step { from: v, slot: k }),
                (found[v] + 1) as u32,
            ).dom().len() == found.dom().len() + 1,
    {
        let e = Step { from: v, slot: k };
        let u = self.step_target(e);
        assert(self.outedges@[v as int]@[k].0 < self.n);
        let grown_dom = found.dom().insert(u);
        assert forall|x: Vertex| grown_dom.contains(x) implies x < self.n by {}
        lemma_vertex_set_len(grown_dom, self.n);
        assert(found[v] + 1 <= u32::MAX);
        let d = (found[v] + 1) as u32;
        let found2 = found.insert(u, d);
        let queue2 = queue.push(u);
        assert(found2.dom() =~= grown_dom);

        let w = choose|w: Seq<Step>| #[trigger]
            self.is_walk(source, v, w) && w.len() == found[v] as int;
        self.lemma_walk_push(source, w, e);
        assert(self.is_walk(source, u, w.push(e)) && w.push(e).len() == d as int);

        assert forall|x: Vertex| #[trigger] found2.contains_key(x) implies {
            &&& x < self.n
            &&& found2[x] < found2.dom().len()
            &&& self.has_walk_of_length(source, x, found2[x] as int)
        } by {
            if x != u {
                assert(found.contains_key(x));
            }
        }

        assert forall|x: Vertex| found.contains_key(x) && self.hops_closed(
            found,
            x,
        ) implies self.hops_closed(found2, x) by {
            assert forall|a: Step| #[trigger] self.is_step(a) && a.from == x implies {
                &&& found2.contains_key(self.step_target(a))
                &&& found2[self.step_target(a)] <= found2[x] + 1
            } by {}
        }
        assert forall|i: int| 0 <= i < queue2.len() implies found2.contains_key(
            #[trigger] queue2[i],
        ) && found2[v] <= found2[queue2[i]] by {
            if i < queue.len() {
                assert(queue2[i] == queue[i]);
            }
        }
        assert forall|i: int, j: int| 0 <= i <= j < queue2.len() implies found2[
            #[trigger] queue2[i]] <= found2[#[trigger] queue2[j]] by {
            if j < queue.len() {
                assert(queue2[i] == queue[i]);
                assert(queue2[j] == queue[j]);
            } else if i < queue.len() {
                assert(queue2[i] == queue[i]);
                assert(found.contains_key(queue[i]));
            }
        }
        assert forall|x: Vertex| #[trigger] found2.contains_key(x) implies x == v
            || queue2.contains(x) || self.hops_closed(found2, x) by {
            if x == u {
                assert(queue2[queue.len() as int] == u);
            } else if queue.contains(x) {
                let i = choose|i: int| 0 <= i < queue.len() && queue[i] == x;
                assert(queue2[i] == x);
            }
        }
        assert forall|a: Step| #[trigger] self.is_step(a) && a.from == v && a.slot < k + 1 implies {
            &&& found2.contains_key(self.step_target(a))
            &&& found2[self.step_target(a)] <= found2[v] + 1
        } by {
            if a.slot == k {
                assert(a == e);
            }
        }
    }

    /// When all edges of `v` are done, `v` is closed.
    pub(crate) proof fn lemma_expand_done(
        &self,
        found: Map<Vertex, u32>,
        queue: Seq<Vertex>,
        v: Vertex,
    )
        requires
            self.expanding(found, queue, v, self.degree(v as int)),
        ensures
            self.frontier(found, queue),
    {
        if queue.len() > 0 {
            assert(found[v] <= found[queue[0]]);
        }
    }

    /// Once the queue is empty, every walk from the source ends at a found
    /// vertex and is at least as long as the distance recorded for it.
    pub(crate) proof fn lemma_closed_bounds_walk(
        &self,
        source: Vertex,
        found: Map<Vertex, u32>,
        to: Vertex,
        walk: Seq<Step>,
    )
        requires
            self.hops_found(source, found),
            self.frontier(found, Seq::<Vertex>::empty()),
            self.is_walk(source, to, walk),
        ensures
            found.contains_key(to),
            found[to] <= walk.len(),
        decreases walk.len(),
    {
        if walk.len() > 0 {
            let e = walk.last();
            self.lemma_closed_bounds_walk(source, found, e.from, walk.drop_last());
            assert(!Seq::<Vertex>::empty().contains(e.from));
            assert(self.hops_closed(found, e.from));
        }
    }

    /// At the end of the search the map holds the hop distances.
    pub(crate) proof fn lemma_frontier_empty(&self, source: Vertex, found: Map<Vertex, u32>)
        requires
            self.hops_found(source, found),
            self.frontier(found, Seq::<Vertex>::empty()),
        ensures
            self.is_hop_distance_map(source, found),
    {
        assert forall|v: Vertex|
            {
                &&& #[trigger] found.contains_key(v) <==> self.reachable(source, v)
                &&& found.contains_key(v) ==> self.is_hop_distance(source, v, found[v] as int)
            } by {
            if self.reachable(source, v) {
                let w = choose|w: Seq<Step>| self.is_walk(source, v, w);
                self.lemma_closed_bounds_walk(source, found, v, w);
            }
            if found.contains_key(v) {
                assert forall|w: Seq<Step>| #[trigger] self.is_walk(source, v, w) implies found[v]
                    <= w.len() by {
                    self.lemma_closed_bounds_walk(source, found, v, w);
                }
            }
        }
    }
}

} // verus!
