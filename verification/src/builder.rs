//! Turns a sequence of points into the graph that the searches run on.

use crate::graph::Graph;
use crate::graph::Vertex;
use crate::walk::Step;
use crate::Point;
use vstd::prelude::*;

verus! {

/// The edges that leave vertex `i` of a chain of `n` vertices: one to the
/// vertex before it and one to the vertex after it, where those exist, in
/// this order and each of weight one.
pub open spec fn chain_edges(n: int, i: int) -> Seq<(usize, u32)> {
    let back = if i > 0 {
        seq![((i - 1) as usize, 1u32)]
    } else {
        Seq::<(usize, u32)>::empty()
    };
    let forth = if i + 1 < n {
        seq![((i + 1) as usize, 1u32)]
    } else {
        Seq::<(usize, u32)>::empty()
    };
    back + forth
}

impl Graph {
    /// The graph is a chain: vertex `i` is joined to `i - 1` and `i + 1`
    /// and to nothing else.
    pub open spec fn is_chain(&self) -> bool {
        &&& self.outedges@.len() == self.n
        &&& forall|i: int| 0 <= i < self.n ==> (#[trigger] self.outedges@[i])@ == chain_edges(
            self.n as int,
            i,
        )
    }

    /// A chain is a graph.
    pub proof fn lemma_chain_is_graph(&self)
        requires
            self.is_chain(),
        ensures
            self.wf(),
            self.unit_weights(),
    {
        assert forall|v: int, k: int|
            0 <= v < self.n && 0 <= k < self.outedges@[v]@.len() implies (
        #[trigger] self.outedges@[v]@[k]).0 < self.n by {
            assert(self.outedges@[v]@ == chain_edges(self.n as int, v));
        }
        assert forall|e: Step| #[trigger] self.is_step(e) implies self.step_weight(e)
            == 1 by {
            assert(self.outedges@[e.from as int]@ == chain_edges(self.n as int, e.from as int));
        }
    }
}

/// How far apart two positions are.
pub open spec fn gap(a: int, b: int) -> int {
    if a <= b {
        b - a
    } else {
        a - b
    }
}

impl Graph {
    /// An edge of a chain ends next to where it starts.
    pub proof fn lemma_chain_step(&self, e: Step)
        requires
            self.is_chain(),
            self.is_step(e),
        ensures
            self.step_target(e) < self.n,
            gap(e.from as int, self.step_target(e) as int) == 1,
    {
        assert(self.outedges@[e.from as int]@ == chain_edges(self.n as int, e.from as int));
    }

    /// In a chain there is a walk between any two vertices that has as many
    /// edges as the two are apart.
    pub proof fn lemma_chain_walk(&self, from: Vertex, to: Vertex)
        requires
            self.is_chain(),
            from < self.n,
            to < self.n,
        ensures
            self.has_walk_of_length(from, to, gap(from as int, to as int)),
        decreases gap(from as int, to as int),
    {
        if from == to {
            assert(self.is_walk(from, to, Seq::<Step>::empty()));
        } else {
            let before: Vertex = if from < to {
                (to - 1) as usize
            } else {
                (to + 1) as usize
            };
            self.lemma_chain_walk(from, before);
            let w = choose|w: Seq<Step>| #[trigger]
                self.is_walk(from, before, w) && w.len() == gap(from as int, before as int);
            let slot: int = if from < to && before > 0 {
                1
            } else {
                0
            };
            let e = Step { from: before, slot };
            assert(self.outedges@[before as int]@ == chain_edges(self.n as int, before as int));
            assert(self.is_step(e));
            assert(self.step_target(e) == to);
            self.lemma_walk_push(from, w, e);
            assert(self.is_walk(from, to, w.push(e)));
        }
    }

    /// In a chain no walk between two vertices has fewer edges than the two
    /// are apart.
    pub proof fn lemma_chain_walk_bound(&self, from: Vertex, to: Vertex, walk: Seq<Step>)
        requires
            self.is_chain(),
            self.is_walk(from, to, walk),
        ensures
            gap(from as int, to as int) <= walk.len(),
        decreases walk.len(),
    {
        if walk.len() > 0 {
            self.lemma_chain_walk_bound(from, walk.last().from, walk.drop_last());
            self.lemma_chain_step(walk.last());
        }
    }

    /// In a chain the hop distance between two vertices is how far apart
    /// they are, and every vertex is reached from every vertex: a search by
    /// hops from `source` records for each vertex `v` the gap between `v`
    /// and `source`.
    pub proof fn lemma_chain_distances(&self, source: Vertex, hops: Map<Vertex, u32>)
        requires
            self.is_chain(),
            source < self.n,
            self.is_hop_distance_map(source, hops),
        ensures
            forall|v: Vertex| hops.contains_key(v) <==> v < self.n,
            forall|v: Vertex| v < self.n ==> hops[v] == gap(source as int, v as int),
    {
        self.lemma_chain_is_graph();
        assert forall|v: Vertex| hops.contains_key(v) <==> v < self.n by {
            assert(hops.contains_key(v) <==> self.reachable(source, v));
            if v < self.n {
                self.lemma_chain_walk(source, v);
            }
            if self.reachable(source, v) {
                let w = choose|w: Seq<Step>| self.is_walk(source, v, w);
                self.lemma_walk_ends_inside(source, v, w);
            }
        }
        assert forall|v: Vertex| v < self.n implies hops[v] == gap(source as int, v as int) by {
            assert(hops.contains_key(v));
            assert(self.is_hop_distance(source, v, hops[v] as int));
            self.lemma_chain_walk(source, v);
            let w = choose|w: Seq<Step>| #[trigger]
                self.is_walk(source, v, w) && w.len() == gap(source as int, v as int);
            let u = choose|u: Seq<Step>| #[trigger]
                self.is_walk(source, v, u) && u.len() == hops[v] as int;
            self.lemma_chain_walk_bound(source, v, u);
        }
    }
}

/// Builds the graph of a sequence of points. There is one vertex per point,
/// named by the point's position. What joins two vertices is that their
/// positions are next to each other, whatever the coordinates are.
pub fn build(points: &Vec<Point>) -> (graph: Graph)
    ensures
        graph.n == points@.len(),
        graph.is_chain(),
        graph.wf(),
        graph.unit_weights(),
{
    let n = points.len();
    let mut outedges: Vec<Vec<(usize, u32)>> = Vec::new();
    let mut i: usize = 0;
    while i < n
        invariant
            i <= n,
            outedges@.len() == i,
            forall|j: int| 0 <= j < i ==> (#[trigger] outedges@[j])@ == chain_edges(n as int, j),
        decreases n - i,
    {
        let mut edges: Vec<(usize, u32)> = Vec::new();
        if i > 0 {
            edges.push((i - 1, 1));
        }
        if i < n - 1 {
            edges.push((i + 1, 1));
        }
        assert(edges@ =~= chain_edges(n as int, i as int));
        outedges.push(edges);
        i += 1;
    }
    let graph = Graph { n, outedges };
    proof {
        graph.lemma_chain_is_graph();
    }
    graph
}

} // verus!
