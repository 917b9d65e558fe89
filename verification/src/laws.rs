//! What follows from the contracts of the two searches, whatever graph and
//! source they are run on.

use crate::graph::Graph;
use crate::graph::Vertex;
use crate::walk::Step;
use vstd::prelude::*;

verus! {

impl Graph {
    /// A vertex is at hop distance zero from itself.
    pub proof fn lemma_hop_distance_to_self(&self, source: Vertex, hops: Map<Vertex, u32>)
        requires
            source < self.n,
            self.is_hop_distance_map(source, hops),
        ensures
            hops.contains_key(source),
            hops[source] == 0,
    {
        let empty = Seq::<Step>::empty();
        assert(self.is_walk(source, source, empty));
        assert(hops.contains_key(source) <==> self.reachable(source, source));
        assert(self.is_hop_distance(source, source, hops[source] as int));
        assert(hops[source] <= empty.len());
    }

    /// A vertex is at weighted distance zero from itself.
    pub proof fn lemma_weighted_distance_to_self(&self, source: Vertex, weights: Map<Vertex, u64>)
        requires
            source < self.n,
            self.is_weighted_distance_map(source, weights),
        ensures
            weights.contains_key(source),
            weights[source] == 0,
    {
        let empty = Seq::<Step>::empty();
        assert(self.is_walk(source, source, empty));
        assert(weights.contains_key(source) <==> self.reachable(source, source));
        assert(self.is_weighted_distance(source, source, weights[source] as int));
        assert(weights[source] <= self.walk_weight(empty));
    }

    /// No walk from the source to a vertex weighs less than the weighted
    /// distance recorded for that vertex, and every vertex at the end of
    /// such a walk has a distance recorded.
    pub proof fn lemma_weighted_distance_is_least(
        &self,
        source: Vertex,
        weights: Map<Vertex, u64>,
        to: Vertex,
        walk: Seq<Step>,
    )
        requires
            self.is_weighted_distance_map(source, weights),
            self.is_walk(source, to, walk),
        ensures
            weights.contains_key(to),
            weights[to] <= self.walk_weight(walk),
    {
        assert(weights.contains_key(to) <==> self.reachable(source, to));
        assert(self.is_weighted_distance(source, to, weights[to] as int));
    }

    /// No walk from the source to a vertex has fewer edges than the hop
    /// distance recorded for that vertex.
    pub proof fn lemma_hop_distance_is_least(
        &self,
        source: Vertex,
        hops: Map<Vertex, u32>,
        to: Vertex,
        walk: Seq<Step>,
    )
        requires
            self.is_hop_distance_map(source, hops),
            self.is_walk(source, to, walk),
        ensures
            hops.contains_key(to),
            hops[to] <= walk.len(),
    {
        assert(hops.contains_key(to) <==> self.reachable(source, to));
        assert(self.is_hop_distance(source, to, hops[to] as int));
    }

    /// Two vertices have one hop distance.
    pub proof fn lemma_hop_distance_unique(&self, from: Vertex, to: Vertex, a: int, b: int)
        requires
            self.is_hop_distance(from, to, a),
            self.is_hop_distance(from, to, b),
        ensures
            a == b,
    {
        let short = choose|w: Seq<Step>| #[trigger] self.is_walk(from, to, w) && w.len() == a;
        let other = choose|w: Seq<Step>| #[trigger] self.is_walk(from, to, w) && w.len() == b;
        assert(a <= other.len());
        assert(b <= short.len());
    }

    /// Two vertices have one weighted distance.
    pub proof fn lemma_weighted_distance_unique(&self, from: Vertex, to: Vertex, a: int, b: int)
        requires
            self.is_weighted_distance(from, to, a),
            self.is_weighted_distance(from, to, b),
        ensures
            a == b,
    {
        let light = choose|w: Seq<Step>| #[trigger]
            self.is_walk(from, to, w) && self.walk_weight(w) == a;
        let other = choose|w: Seq<Step>| #[trigger]
            self.is_walk(from, to, w) && self.walk_weight(w) == b;
        assert(a <= self.walk_weight(other));
        assert(b <= self.walk_weight(light));
    }

    /// Where every edge weighs one, a number is the hop distance between
    /// two vertices exactly when it is their weighted distance.
    pub proof fn lemma_unit_distance(&self, from: Vertex, to: Vertex, d: int)
        requires
            self.unit_weights(),
        ensures
            self.is_hop_distance(from, to, d) <==> self.is_weighted_distance(from, to, d),
    {
        assert forall|w: Seq<Step>| #[trigger] self.is_walk(from, to, w) implies self.walk_weight(
            w,
        ) == w.len() by {
            self.lemma_unit_walk_weight(from, to, w);
        }
        if self.is_hop_distance(from, to, d) {
            let w = choose|w: Seq<Step>| #[trigger] self.is_walk(from, to, w) && w.len() == d;
            assert(self.is_walk(from, to, w) && self.walk_weight(w) == d);
        }
        if self.is_weighted_distance(from, to, d) {
            let w = choose|w: Seq<Step>| #[trigger]
                self.is_walk(from, to, w) && self.walk_weight(w) == d;
            assert(self.is_walk(from, to, w) && w.len() == d);
        }
    }

    /// Two searches by hops from the same source in the same graph give the
    /// same map.
    pub proof fn lemma_hop_distance_map_unique(
        &self,
        source: Vertex,
        first: Map<Vertex, u32>,
        second: Map<Vertex, u32>,
    )
        requires
            self.is_hop_distance_map(source, first),
            self.is_hop_distance_map(source, second),
        ensures
            first == second,
    {
        assert forall|v: Vertex| first.contains_key(v) == second.contains_key(v) by {
            assert(first.contains_key(v) <==> self.reachable(source, v));
            assert(second.contains_key(v) <==> self.reachable(source, v));
        }
        assert forall|v: Vertex| first.contains_key(v) implies first[v] == second[v] by {
            assert(second.contains_key(v));
            self.lemma_hop_distance_unique(source, v, first[v] as int, second[v] as int);
        }
        assert(first =~= second);
    }

    /// Two searches by weight from the same source in the same graph give
    /// the same map.
    pub proof fn lemma_weighted_distance_map_unique(
        &self,
        source: Vertex,
        first: Map<Vertex, u64>,
        second: Map<Vertex, u64>,
    )
        requires
            self.is_weighted_distance_map(source, first),
            self.is_weighted_distance_map(source, second),
        ensures
            first == second,
    {
        assert forall|v: Vertex| first.contains_key(v) == second.contains_key(v) by {
            assert(first.contains_key(v) <==> self.reachable(source, v));
            assert(second.contains_key(v) <==> self.reachable(source, v));
        }
        assert forall|v: Vertex| first.contains_key(v) implies first[v] == second[v] by {
            assert(second.contains_key(v));
            self.lemma_weighted_distance_unique(source, v, first[v] as int, second[v] as int);
        }
        assert(first =~= second);
    }

    /// Where every edge weighs one, the search by weight and the search by
    /// hops record the same vertices at the same distances.
    pub proof fn lemma_unit_weights_agree(
        &self,
        source: Vertex,
        hops: Map<Vertex, u32>,
        weights: Map<Vertex, u64>,
    )
        requires
            self.unit_weights(),
            self.is_hop_distance_map(source, hops),
            self.is_weighted_distance_map(source, weights),
        ensures
            forall|v: Vertex| hops.contains_key(v) <==> weights.contains_key(v),
            forall|v: Vertex| hops.contains_key(v) ==> hops[v] as int == weights[v] as int,
    {
        assert forall|v: Vertex| hops.contains_key(v) <==> weights.contains_key(v) by {
            assert(hops.contains_key(v) <==> self.reachable(source, v));
            assert(weights.contains_key(v) <==> self.reachable(source, v));
        }
        assert forall|v: Vertex| hops.contains_key(v) implies hops[v] as int
            == weights[v] as int by {
            assert(weights.contains_key(v));
            self.lemma_unit_distance(source, v, hops[v] as int);
            self.lemma_weighted_distance_unique(source, v, hops[v] as int, weights[v] as int);
        }
    }
}

} // verus!
