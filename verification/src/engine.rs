//! One search with two ways of counting distance.

use crate::dijkstra::compute_distance_dijkstra;
use crate::graph::compute_distance_bfs;
use crate::graph::Graph;
use crate::graph::Vertex;
use crate::walk::Step;
use std::collections::HashMap;
use vstd::prelude::*;

verus! {

broadcast use vstd::std_specs::hash::group_hash_axioms;

/// How the length of a walk is counted.
#[derive(Clone, Copy, Debug, PartialEq, Eq)]
pub enum Strategy {
    /// Every edge counts one, whatever its weight. The search goes breadth
    /// first.
    Unweighted,
    /// Every edge counts its weight. The search settles vertices in
    /// ascending order of distance.
    Weighted,
}

impl Graph {
    /// `d` is the distance from `from` to `to` as `strategy` counts it.
    pub open spec fn is_distance(
        &self,
        strategy: Strategy,
        from: Vertex,
        to: Vertex,
        d: int,
    ) -> bool {
        match strategy {
            Strategy::Unweighted => self.is_hop_distance(from, to, d),
            Strategy::Weighted => self.is_weighted_distance(from, to, d),
        }
    }

    /// `m` holds exactly the vertices that can be reached from `source`,
    /// each with its distance as `strategy` counts it.
    pub open spec fn is_distance_map(
        &self,
        strategy: Strategy,
        source: Vertex,
        m: Map<Vertex, u64>,
    ) -> bool {
        forall|v: Vertex|
            {
                &&& #[trigger] m.contains_key(v) <==> self.reachable(source, v)
                &&& m.contains_key(v) ==> self.is_distance(strategy, source, v, m[v] as int)
            }
    }

    /// Two searches from the same source in the same graph, with the same
    /// strategy, give the same map.
    pub proof fn lemma_distance_map_unique(
        &self,
        strategy: Strategy,
        source: Vertex,
        first: Map<Vertex, u64>,
        second: Map<Vertex, u64>,
    )
        requires
            self.is_distance_map(strategy, source, first),
            self.is_distance_map(strategy, source, second),
        ensures
            first == second,
    {
        match strategy {
            Strategy::Unweighted => {
                assert forall|v: Vertex| first.contains_key(v) == second.contains_key(v) by {
                    assert(first.contains_key(v) <==> self.reachable(source, v));
                    assert(second.contains_key(v) <==> self.reachable(source, v));
                }
                assert forall|v: Vertex| first.contains_key(v) implies first[v]
                    == second[v] by {
                    assert(second.contains_key(v));
                    self.lemma_hop_distance_unique(
                        source,
                        v,
                        first[v] as int,
                        second[v] as int,
                    );
                }
                assert(first =~= second);
            },
            Strategy::Weighted => {
                self.lemma_weighted_distance_map_unique(source, first, second);
            },
        }
    }

    /// Where every edge weighs one, the two strategies give the same map.
    pub proof fn lemma_strategies_agree(
        &self,
        source: Vertex,
        unweighted: Map<Vertex, u64>,
        weighted: Map<Vertex, u64>,
    )
        requires
            self.unit_weights(),
            self.is_distance_map(Strategy::Unweighted, source, unweighted),
            self.is_distance_map(Strategy::Weighted, source, weighted),
        ensures
            unweighted == weighted,
    {
        assert forall|v: Vertex|
            {
                &&& #[trigger] weighted.contains_key(v) <==> self.reachable(source, v)
                &&& weighted.contains_key(v) ==> self.is_distance(
                    Strategy::Unweighted,
                    source,
                    v,
                    weighted[v] as int,
                )
            } by {
            self.lemma_unit_distance(source, v, weighted[v] as int);
        }
        self.lemma_distance_map_unique(Strategy::Unweighted, source, unweighted, weighted);
    }
}

/// The same distances, held in 64 bits.
fn widen(hops: &HashMap<Vertex, u32>, vertex_count: usize) -> (wide: HashMap<Vertex, u64>)
    requires
        forall|v: Vertex| hops@.contains_key(v) ==> v < vertex_count,
    ensures
        forall|v: Vertex| wide@.contains_key(v) <==> hops@.contains_key(v),
        forall|v: Vertex| hops@.contains_key(v) ==> wide@[v] == hops@[v],
{
    let mut wide: HashMap<Vertex, u64> = HashMap::new();
    let mut v: usize = 0;
    while v < vertex_count
        invariant
            v <= vertex_count,
            forall|x: Vertex| wide@.contains_key(x) <==> x < v && hops@.contains_key(x),
            forall|x: Vertex| wide@.contains_key(x) ==> wide@[x] == hops@[x],
        decreases vertex_count - v,
    {
        match hops.get(&v) {
            Some(d) => {
                wide.insert(v, *d as u64);
            },
            None => {},
        }
        v += 1;
    }
    wide
}

/// The distance from `source` to every vertex that can be reached, counted
/// as `strategy` says, and no entry for the other vertices.
///
/// In a graph with vertices `source` must be one of them. In a graph
/// without vertices nothing is reached and the map is empty, whatever
/// `source` is. The graph may have no more than 2^32 vertices.
pub fn shortest_paths(source: Vertex, graph: &Graph, strategy: Strategy) -> (distance: HashMap<
    Vertex,
    u64,
>)
    requires
        graph.wf(),
        graph.n > 0 ==> source < graph.n,
        graph.n <= 0x1_0000_0000,
    ensures
        graph.n == 0 ==> distance@ == Map::<Vertex, u64>::empty(),
        graph.n > 0 ==> distance@.contains_key(source) && distance@[source] == 0,
        graph.is_distance_map(strategy, source, distance@),
{
    match strategy {
        Strategy::Unweighted => {
            let hops = compute_distance_bfs(source, graph);
            proof {
                assert forall|v: Vertex| hops@.contains_key(v) implies v < graph.n by {
                    assert(hops@.contains_key(v) <==> graph.reachable(source, v));
                    let w = choose|w: Seq<Step>| graph.is_walk(source, v, w);
                    graph.lemma_walk_ends_inside(source, v, w);
                }
            }
            let wide = widen(&hops, graph.n);
            proof {
                assert forall|v: Vertex|
                    {
                        &&& #[trigger] wide@.contains_key(v) <==> graph.reachable(source, v)
                        &&& wide@.contains_key(v) ==> graph.is_distance(
                            strategy,
                            source,
                            v,
                            wide@[v] as int,
                        )
                    } by {
                    assert(hops@.contains_key(v) <==> graph.reachable(source, v));
                }
                if graph.n == 0 {
                    assert(wide@ =~= Map::<Vertex, u64>::empty());
                }
            }
            wide
        },
        Strategy::Weighted => compute_distance_dijkstra(source, graph),
    }
}

} // verus!
