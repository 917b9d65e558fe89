//! Shortest distances where edges carry weights.

use crate::graph::Graph;
use crate::graph::Vertex;
use crate::min_queue::MinQueue;
use std::collections::HashMap;
use vstd::prelude::*;

verus! {

broadcast use vstd::std_specs::hash::group_hash_axioms;

/// Search from `start` in ascending order of distance: the least weight of
/// a walk to every vertex that can be reached, and no entry for the others.
///
/// Candidates wait in a priority queue. One that has been overtaken by a
/// better distance for its vertex is dropped when it comes out.
///
/// In a graph with vertices `start` must be one of them. In a graph without
/// vertices nothing is reached and the map is empty, whatever `start` is.
/// A distance is held in 64 bits and a weight in 32, so the graph may have
/// no more than 2^32 vertices.
pub fn compute_distance_dijkstra(start: Vertex, graph: &Graph) -> (distance: HashMap<Vertex, u64>)
    requires
        graph.wf(),
        graph.n > 0 ==> start < graph.n,
        graph.n <= 0x1_0000_0000,
    ensures
        graph.n == 0 ==> distance@ == Map::<Vertex, u64>::empty(),
        graph.n > 0 ==> distance@.contains_key(start) && distance@[start] == 0,
        graph.is_weighted_distance_map(start, distance@),
{
    let mut distance: HashMap<Vertex, u64> = HashMap::new();
    if graph.n == 0 {
        proof {
            graph.lemma_nothing_reached_without_vertices(start);
        }
        return distance;
    }
    let mut queue = MinQueue::new();
    distance.insert(start, 0);
    queue.push(0, start);
    let ghost mut settled = Set::<Vertex>::empty();
    proof {
        graph.lemma_settling_start(start);
    }
    while !queue.is_empty()
        invariant
            graph.wf(),
            start < graph.n,
            graph.n <= 0x1_0000_0000,
            queue.wf(),
            settled.finite(),
            settled.len() <= graph.n,
            graph.weights_found(start, distance@),
            graph.settling(distance@, queue@, settled),
        decreases graph.n - settled.len(), queue@.len(),
    {
        let ghost before = queue@;
        let (cost, v) = queue.pop_min().unwrap();
        let best = *distance.get(&v).unwrap();
        if cost > best {
            proof {
                graph.lemma_drop_stale(distance@, before, settled, (cost, v));
            }
        } else {
            proof {
                graph.lemma_settle(start, distance@, before, settled, (cost, v));
                settled = settled.insert(v);
            }
            let edges = &graph.outedges[v];
            let mut k: usize = 0;
            while k < edges.len()
                invariant
                    graph.wf(),
                    start < graph.n,
                    graph.n <= 0x1_0000_0000,
                    queue.wf(),
                    v < graph.n,
                    edges == &graph.outedges@[v as int],
                    k <= edges@.len(),
                    graph.weights_found(start, distance@),
                    graph.relaxing(distance@, queue@, settled, v, k as int),
                    distance@[v] == cost,
                decreases edges@.len() - k,
            {
                let (u, weight) = edges[k];
                proof {
                    graph.lemma_candidate_fits(start, distance@, v, k as int);
                }
                let candidate: u64 = cost + weight as u64;
                let improves = match distance.get(&u) {
                    Some(known) => candidate < *known,
                    None => true,
                };
                if improves {
                    proof {
                        graph.lemma_relax_improved(start, distance@, queue@, settled, v, k as int);
                    }
                    distance.insert(u, candidate);
                    queue.push(candidate, u);
                } else {
                    proof {
                        graph.lemma_relax_kept(distance@, queue@, settled, v, k as int);
                    }
                }
                k += 1;
            }
            proof {
                graph.lemma_relax_done(distance@, queue@, settled, v);
            }
        }
    }
    proof {
        assert(queue@ =~= vstd::multiset::Multiset::<(u64, Vertex)>::empty()) by {
            broadcast use vstd::multiset::group_multiset_axioms;

            vstd::multiset::lemma_multiset_empty_len(queue@);
        }
        graph.lemma_settling_empty(start, distance@, settled);
    }
    distance
}

} // verus!
