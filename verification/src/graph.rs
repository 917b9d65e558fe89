//! The adjacency structure that every distance computation reads, and the
//! search for distances counted in edges.

use std::collections::HashMap;
use std::collections::VecDeque;
use vstd::prelude::*;

verus! {

broadcast use vstd::std_specs::hash::group_hash_axioms;

/// A vertex is named by its index.
pub type Vertex = usize;

/// A directed graph with `n` vertices. `outedges[v]` lists the edges that
/// leave `v` as pairs of target vertex and weight, in insertion order.
#[derive(Debug)]
pub struct Graph {
    pub n: usize,
    pub outedges: Vec<Vec<(usize, u32)>>,
}

impl Graph {
    /// There is one adjacency list per vertex and every edge ends at a vertex
    /// of the graph.
    pub open spec fn wf(&self) -> bool {
        &&& self.outedges@.len() == self.n
        &&& forall|v: int, k: int|
            0 <= v < self.n && 0 <= k < self.outedges@[v]@.len() ==> (
            #[trigger] self.outedges@[v]@[k]).0 < self.n
    }

    /// Number of edges that leave `v`.
    pub open spec fn degree(&self, v: int) -> int {
        self.outedges@[v]@.len() as int
    }

    /// Checks, at run time, that the structure is a graph.
    pub fn is_valid(&self) -> (ok: bool)
        ensures
            ok == self.wf(),
    {
        if self.outedges.len() != self.n {
            return false;
        }
        let mut v: usize = 0;
        while v < self.n
            invariant
                self.outedges@.len() == self.n,
                v <= self.n,
                forall|a: int, k: int|
                    0 <= a < v && 0 <= k < self.outedges@[a]@.len() ==> (
                    #[trigger] self.outedges@[a]@[k]).0 < self.n,
            decreases self.n - v,
        {
            let edges = &self.outedges[v];
            let mut k: usize = 0;
            while k < edges.len()
                invariant
                    self.outedges@.len() == self.n,
                    v < self.n,
                    edges == &self.outedges@[v as int],
                    k <= edges@.len(),
                    forall|j: int| 0 <= j < k ==> (#[trigger] edges@[j]).0 < self.n,
                decreases edges@.len() - k,
            {
                if edges[k].0 >= self.n {
                    assert(!((self.outedges@[v as int]@[k as int]).0 < self.n));
                    return false;
                }
                k += 1;
            }
            v += 1;
        }
        true
    }
}

/// Breadth-first search from `start`: the number of edges on a shortest walk
/// to every vertex that can be reached, and no entry for the others.
///
/// In a graph with vertices `start` must be one of them. In a graph without
/// vertices nothing is reached and the map is empty, whatever `start` is.
/// A distance is held in 32 bits, so the graph may have no more than 2^32
/// vertices.
pub fn compute_distance_bfs(start: Vertex, graph: &Graph) -> (distance: HashMap<Vertex, u32>)
    requires
        graph.wf(),
        graph.n > 0 ==> start < graph.n,
        graph.n <= 0x1_0000_0000,
    ensures
        graph.n == 0 ==> distance@ == Map::<Vertex, u32>::empty(),
        graph.n > 0 ==> distance@.contains_key(start) && distance@[start] == 0,
        graph.is_hop_distance_map(start, distance@),
{
    let mut distance: HashMap<Vertex, u32> = HashMap::new();
    if graph.n == 0 {
        proof {
            graph.lemma_nothing_reached_without_vertices(start);
        }
        return distance;
    }
    let mut queue: VecDeque<Vertex> = VecDeque::new();
    queue.push_back(start);
    distance.insert(start, 0);
    proof {
        graph.lemma_frontier_start(start);
    }
    while queue.len() > 0
        invariant
            graph.wf(),
            start < graph.n,
            graph.n <= 0x1_0000_0000,
            graph.hops_found(start, distance@),
            graph.frontier(distance@, queue@),
        decreases graph.n - distance@.dom().len() + queue@.len(),
    {
        let ghost before = queue@;
        let v = queue.pop_front().unwrap();
        proof {
            graph.lemma_frontier_pop(distance@, before);
        }
        let dist_v = *distance.get(&v).unwrap();
        let edges = &graph.outedges[v];
        let ghost gap = distance@.dom().len() - queue@.len();
        let mut k: usize = 0;
        while k < edges.len()
            invariant
                graph.wf(),
                start < graph.n,
                graph.n <= 0x1_0000_0000,
                v < graph.n,
                edges == &graph.outedges@[v as int],
                k <= edges@.len(),
                graph.hops_found(start, distance@),
                graph.expanding(distance@, queue@, v, k as int),
                distance@[v] == dist_v,
                distance@.dom().len() - queue@.len() == gap,
            decreases edges@.len() - k,
        {
            let u = edges[k].0;
            if !distance.contains_key(&u) {
                proof {
                    graph.lemma_expand_new(start, distance@, queue@, v, k as int);
                }
                let dist_u = dist_v + 1;
                distance.insert(u, dist_u);
                queue.push_back(u);
            } else {
                proof {
                    graph.lemma_expand_known(distance@, queue@, v, k as int);
                }
            }
            k += 1;
        }
        proof {
            graph.lemma_expand_done(distance@, queue@, v);
        }
    }
    proof {
        assert(queue@ =~= Seq::<Vertex>::empty());
        graph.lemma_frontier_empty(start, distance@);
    }
    distance
}

} // verus!
