//! Walks through a graph, their lengths and weights, and what it means for a
//! number to be the distance between two vertices.

use crate::graph::Graph;
use crate::graph::Vertex;
use vstd::prelude::*;

verus! {

/// One edge of a walk: the vertex it leaves and its position in the list of
/// edges of that vertex. Parallel edges are told apart by their position.
pub struct Step {
    pub from: Vertex,
    pub slot: int,
}

impl Graph {
    /// `e` names an edge of the graph.
    pub open spec fn is_step(&self, e: Step) -> bool {
        e.from < self.n && 0 <= e.slot < self.degree(e.from as int)
    }

    /// Vertex at which the edge `e` ends.
    pub open spec fn step_target(&self, e: Step) -> Vertex {
        self.outedges@[e.from as int]@[e.slot].0
    }

    /// Weight of the edge `e`.
    pub open spec fn step_weight(&self, e: Step) -> int {
        self.outedges@[e.from as int]@[e.slot].1 as int
    }

    /// `walk` leads from `from` to `to` along edges of the graph. The empty
    /// walk leads from every vertex to itself.
    pub open spec fn is_walk(&self, from: Vertex, to: Vertex, walk: Seq<Step>) -> bool
        decreases walk.len(),
    {
        if walk.len() == 0 {
            from < self.n && to == from
        } else {
            &&& self.is_step(walk.last())
            &&& self.step_target(walk.last()) == to
            &&& self.is_walk(from, walk.last().from, walk.drop_last())
        }
    }

    /// Sum of the weights of the edges of `walk`.
    pub open spec fn walk_weight(&self, walk: Seq<Step>) -> int
        decreases walk.len(),
    {
        if walk.len() == 0 {
            0
        } else {
            self.walk_weight(walk.drop_last()) + self.step_weight(walk.last())
        }
    }

    /// Some walk leads from `from` to `to`.
    pub open spec fn reachable(&self, from: Vertex, to: Vertex) -> bool {
        exists|walk: Seq<Step>| self.is_walk(from, to, walk)
    }

    /// Some walk from `from` to `to` has exactly `hops` edges.
    pub open spec fn has_walk_of_length(&self, from: Vertex, to: Vertex, hops: int) -> bool {
        exists|walk: Seq<Step>| #[trigger] self.is_walk(from, to, walk) && walk.len() == hops
    }

    /// Some walk from `from` to `to` has exactly the weight `total`.
    pub open spec fn has_walk_of_weight(&self, from: Vertex, to: Vertex, total: int) -> bool {
        exists|walk: Seq<Step>| #[trigger]
            self.is_walk(from, to, walk) && self.walk_weight(walk) == total
    }

    /// `hops` is the least number of edges of any walk from `from` to `to`.
    pub open spec fn is_hop_distance(&self, from: Vertex, to: Vertex, hops: int) -> bool {
        &&& self.has_walk_of_length(from, to, hops)
        &&& forall|walk: Seq<Step>| #[trigger] self.is_walk(from, to, walk) ==> hops <= walk.len()
    }

    /// `total` is the least weight of any walk from `from` to `to`.
    pub open spec fn is_weighted_distance(&self, from: Vertex, to: Vertex, total: int) -> bool {
        &&& self.has_walk_of_weight(from, to, total)
        &&& forall|walk: Seq<Step>| #[trigger]
            self.is_walk(from, to, walk) ==> total <= self.walk_weight(walk)
    }

    /// `m` holds exactly the vertices that can be reached from `source`, each
    /// with its hop distance.
    pub open spec fn is_hop_distance_map(&self, source: Vertex, m: Map<Vertex, u32>) -> bool {
        forall|v: Vertex|
            {
                &&& #[trigger] m.contains_key(v) <==> self.reachable(source, v)
                &&& m.contains_key(v) ==> self.is_hop_distance(source, v, m[v] as int)
            }
    }

    /// `m` holds exactly the vertices that can be reached from `source`, each
    /// with its weighted distance.
    pub open spec fn is_weighted_distance_map(&self, source: Vertex, m: Map<Vertex, u64>) -> bool {
        forall|v: Vertex|
            {
                &&& #[trigger] m.contains_key(v) <==> self.reachable(source, v)
                &&& m.contains_key(v) ==> self.is_weighted_distance(source, v, m[v] as int)
            }
    }

    /// Every edge has weight one.
    pub open spec fn unit_weights(&self) -> bool {
        forall|e: Step| #[trigger] self.is_step(e) ==> self.step_weight(e) == 1
    }

    /// A walk ends at a vertex of the graph.
    pub proof fn lemma_walk_ends_inside(&self, from: Vertex, to: Vertex, walk: Seq<Step>)
        requires
            self.wf(),
            self.is_walk(from, to, walk),
        ensures
            to < self.n,
    {
        if walk.len() > 0 {
            let e = walk.last();
            assert(self.outedges@[e.from as int]@[e.slot].0 < self.n);
        }
    }

    /// A walk starts at a vertex of the graph.
    pub proof fn lemma_walk_starts_inside(&self, from: Vertex, to: Vertex, walk: Seq<Step>)
        requires
            self.is_walk(from, to, walk),
        ensures
            from < self.n,
        decreases walk.len(),
    {
        if walk.len() > 0 {
            self.lemma_walk_starts_inside(from, walk.last().from, walk.drop_last());
        }
    }

    /// In a graph without vertices nothing is reached, so the empty map
    /// holds all distances, from whatever source.
    pub proof fn lemma_nothing_reached_without_vertices(&self, source: Vertex)
        requires
            self.n == 0,
        ensures
            forall|v: Vertex| !self.reachable(source, v),
            self.is_hop_distance_map(source, Map::<Vertex, u32>::empty()),
            self.is_weighted_distance_map(source, Map::<Vertex, u64>::empty()),
    {
        assert forall|v: Vertex| !self.reachable(source, v) by {
            if self.reachable(source, v) {
                let w = choose|w: Seq<Step>| self.is_walk(source, v, w);
                self.lemma_walk_starts_inside(source, v, w);
            }
        }
    }

    /// A walk can be prolonged by an edge that leaves its last vertex.
    pub proof fn lemma_walk_push(&self, from: Vertex, walk: Seq<Step>, e: Step)
        requires
            self.is_walk(from, e.from, walk),
            self.is_step(e),
        ensures
            self.is_walk(from, self.step_target(e), walk.push(e)),
            self.walk_weight(walk.push(e)) == self.walk_weight(walk) + self.step_weight(e),
            walk.push(e).len() == walk.len() + 1,
    {
        assert(walk.push(e).drop_last() =~= walk);
        assert(walk.push(e).last() == e);
    }

    /// Where every edge weighs one, a walk weighs as much as it has edges.
    pub proof fn lemma_unit_walk_weight(&self, from: Vertex, to: Vertex, walk: Seq<Step>)
        requires
            self.unit_weights(),
            self.is_walk(from, to, walk),
        ensures
            self.walk_weight(walk) == walk.len(),
        decreases walk.len(),
    {
        if walk.len() > 0 {
            self.lemma_unit_walk_weight(from, walk.last().from, walk.drop_last());
        }
    }
}

/// A set of vertices below `n` has at most `n` members.
pub proof fn lemma_vertex_set_len(s: Set<Vertex>, n: usize)
    requires
        forall|x: Vertex| s.contains(x) ==> x < n,
    ensures
        s.finite(),
        s.len() <= n,
{
    let all = Set::<usize>::range(0, n);
    vstd::set_lib::range_set_properties::<usize>(0, n);
    assert(s.subset_of(all));
    vstd::set_lib::lemma_len_subset(s, all);
}

} // verus!
