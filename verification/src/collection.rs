//! The distances from every vertex to every vertex, and their summary.

use crate::graph::compute_distance_bfs;
use crate::graph::Graph;
use crate::graph::Vertex;
use crate::statistics::is_maximum_of;
use crate::statistics::is_mean_of;
use crate::statistics::is_median_of;
use crate::statistics::is_variance_of;
use crate::statistics::maximum;
use crate::statistics::mean;
use crate::statistics::median;
use crate::statistics::sum_of;
use crate::statistics::total;
use crate::statistics::variance;
use crate::statistics::Fraction;
use crate::statistics::StatisticsError;
use crate::walk::Step;
use std::collections::HashMap;
use vstd::prelude::*;

verus! {

broadcast use vstd::std_specs::hash::group_hash_axioms;

/// The distances that `row` records for the vertices below `n`, in
/// ascending order of the vertex.
pub open spec fn row_values(row: Map<Vertex, u32>, n: nat) -> Seq<u32>
    decreases n,
{
    if n == 0 {
        Seq::<u32>::empty()
    } else {
        let before = row_values(row, (n - 1) as nat);
        if row.contains_key((n - 1) as usize) {
            before.push(row[(n - 1) as usize])
        } else {
            before
        }
    }
}

/// The maps that a collection holds, one per source vertex.
pub open spec fn rows_of(collection: Seq<HashMap<Vertex, u32>>) -> Seq<Map<Vertex, u32>> {
    Seq::new(collection.len(), |i: int| collection[i]@)
}

/// All distances of all rows, row after row.
pub open spec fn flattened(rows: Seq<Map<Vertex, u32>>, n: nat) -> Seq<u32>
    decreases rows.len(),
{
    if rows.len() == 0 {
        Seq::<u32>::empty()
    } else {
        flattened(rows.drop_last(), n) + row_values(rows.last(), n)
    }
}

/// There is one row per vertex, and a row records distances of vertices
/// of the graph only.
pub open spec fn is_distance_collection(rows: Seq<Map<Vertex, u32>>, n: nat) -> bool {
    &&& rows.len() == n
    &&& forall|i: int, v: Vertex|
        0 <= i < rows.len() && #[trigger] rows[i].contains_key(v) ==> v < n
}

/// The summary of a collection of distances.
#[derive(Debug)]
pub struct StatisticsReport {
    /// How many distances the collection holds.
    pub count: usize,
    /// Their mean, where there is any distance.
    pub mean: Option<Fraction>,
    /// The greatest of them, or zero.
    pub max: u32,
    /// Their median, where there is any distance.
    pub median: Option<Fraction>,
    /// Their population variance about the mean.
    pub variance: Result<Fraction, StatisticsError>,
    /// For each source vertex the sum of its distances by the number of all
    /// vertices, reached or not.
    pub averages: Vec<Fraction>,
}

impl StatisticsReport {
    /// The report says of `rows`, over `n` vertices, what its fields are
    /// named after.
    pub open spec fn describes(&self, rows: Seq<Map<Vertex, u32>>, n: nat) -> bool {
        let all = flattened(rows, n);
        &&& self.count == all.len()
        &&& is_mean_of(self.mean, all)
        &&& is_maximum_of(self.max, all)
        &&& is_median_of(self.median, all)
        &&& match self.mean {
            Some(m) => is_variance_of(self.variance, all, m),
            None => self.variance == Err::<Fraction, StatisticsError>(StatisticsError::Empty),
        }
        &&& self.averages@.len() == rows.len()
        &&& forall|i: int|
            0 <= i < rows.len() ==> (#[trigger] self.averages@[i]) == (Fraction {
                numerator: total(row_values(rows[i], n)) as u128,
                denominator: n as u128,
            })
    }
}

/// A row that records distances of vertices below `n` only has as many
/// values as it has vertices, and holds the distance of each.
pub proof fn lemma_row_values_complete(row: Map<Vertex, u32>, n: nat)
    requires
        n <= usize::MAX,
        forall|v: Vertex| row.contains_key(v) ==> v < n,
    ensures
        row.dom().finite(),
        row_values(row, n).len() == row.dom().len(),
        forall|v: Vertex| row.contains_key(v) ==> row_values(row, n).contains(row[v]),
    decreases n,
{
    if n == 0 {
        assert(row.dom() =~= Set::<Vertex>::empty());
    } else {
        let last = (n - 1) as usize;
        let rest = row.remove(last);
        lemma_row_values_agree(row, rest, (n - 1) as nat);
        lemma_row_values_complete(rest, (n - 1) as nat);
        let before = row_values(row, (n - 1) as nat);
        if row.contains_key(last) {
            assert(row.dom() =~= rest.dom().insert(last));
            assert(before.push(row[last])[before.len() as int] == row[last]);
        } else {
            assert(row.dom() =~= rest.dom());
        }
        assert forall|v: Vertex| row.contains_key(v) implies row_values(row, n).contains(
            row[v],
        ) by {
            if v != last {
                assert(rest.contains_key(v));
                let k = choose|k: int| 0 <= k < before.len() && before[k] == rest[v];
                assert(row_values(row, n)[k] == row[v]);
            }
        }
    }
}

/// Two rows that agree below `n` have the same values there.
pub proof fn lemma_row_values_agree(a: Map<Vertex, u32>, b: Map<Vertex, u32>, n: nat)
    requires
        n <= usize::MAX + 1,
        forall|v: Vertex| v < n ==> (a.contains_key(v) <==> b.contains_key(v)),
        forall|v: Vertex| v < n && a.contains_key(v) ==> a[v] == b[v],
    ensures
        row_values(a, n) == row_values(b, n),
    decreases n,
{
    if n > 0 {
        lemma_row_values_agree(a, b, (n - 1) as nat);
    }
}

impl StatisticsReport {
    /// In the report of a collection every fraction has a divisor that is
    /// not zero.
    pub proof fn lemma_fractions_defined(&self, rows: Seq<Map<Vertex, u32>>, n: nat)
        requires
            n <= usize::MAX,
            is_distance_collection(rows, n),
            self.describes(rows, n),
        ensures
            forall|i: int| 0 <= i < self.averages@.len() ==> (#[trigger] self.averages@[i]).wf(),
            self.mean matches Some(m) ==> m.wf(),
            self.median matches Some(m) ==> m.wf(),
            self.variance matches Ok(v) ==> v.wf(),
    {
        match self.variance {
            Ok(v) => {
                let m = self.mean->Some_0;
                let q = m.denominator as int;
                let count = flattened(rows, n).len() as int;
                assert(q * q * count > 0) by (nonlinear_arith)
                    requires
                        q > 0,
                        count > 0,
                ;
            },
            _ => {},
        }
    }
}

/// The hop distances from every vertex of the graph, the map of source `i`
/// at position `i`.
pub fn compute_all_distances(graph: &Graph) -> (collection: Vec<HashMap<Vertex, u32>>)
    requires
        graph.wf(),
        graph.n <= 0x1_0000_0000,
    ensures
        collection@.len() == graph.n,
        forall|i: int|
            0 <= i < graph.n ==> graph.is_hop_distance_map(
                i as usize,
                (#[trigger] collection@[i])@,
            ),
        is_distance_collection(rows_of(collection@), graph.n as nat),
{
    let mut collection: Vec<HashMap<Vertex, u32>> = Vec::new();
    let mut source: usize = 0;
    while source < graph.n
        invariant
            graph.wf(),
            graph.n <= 0x1_0000_0000,
            source <= graph.n,
            collection@.len() == source,
            forall|i: int|
                0 <= i < source ==> graph.is_hop_distance_map(
                    i as usize,
                    (#[trigger] collection@[i])@,
                ),
        decreases graph.n - source,
    {
        collection.push(compute_distance_bfs(source, graph));
        source += 1;
    }
    proof {
        let rows = rows_of(collection@);
        assert forall|i: int, v: Vertex|
            0 <= i < rows.len() && #[trigger] rows[i].contains_key(v) implies v < graph.n by {
            let source = i as usize;
            assert(graph.is_hop_distance_map(source, collection@[i]@));
            assert(rows[i].contains_key(v) <==> graph.reachable(source, v));
            let w = choose|w: Seq<Step>| graph.is_walk(source, v, w);
            graph.lemma_walk_ends_inside(source, v, w);
        }
    }
    collection
}

/// The distances of one row in ascending order of the vertex.
pub fn distance_values(row: &HashMap<Vertex, u32>, vertex_count: usize) -> (values: Vec<u32>)
    ensures
        values@ == row_values(row@, vertex_count as nat),
{
    let mut values: Vec<u32> = Vec::new();
    let mut v: usize = 0;
    while v < vertex_count
        invariant
            v <= vertex_count,
            values@ == row_values(row@, v as nat),
        decreases vertex_count - v,
    {
        match row.get(&v) {
            Some(d) => {
                values.push(*d);
            },
            None => {},
        }
        v += 1;
    }
    values
}

/// All distances of the collection in one sequence, row after row.
pub fn flatten(collection: &Vec<HashMap<Vertex, u32>>, vertex_count: usize) -> (all: Vec<u32>)
    ensures
        all@ == flattened(rows_of(collection@), vertex_count as nat),
{
    let mut all: Vec<u32> = Vec::new();
    let mut i: usize = 0;
    while i < collection.len()
        invariant
            i <= collection@.len(),
            all@ == flattened(rows_of(collection@).take(i as int), vertex_count as nat),
        decreases collection@.len() - i,
    {
        let mut values = distance_values(&collection[i], vertex_count);
        proof {
            let rows = rows_of(collection@);
            assert(rows.take(i + 1).drop_last() =~= rows.take(i as int));
            assert(rows.take(i + 1).last() == collection@[i as int]@);
        }
        all.append(&mut values);
        i += 1;
    }
    proof {
        let rows = rows_of(collection@);
        assert(rows.take(collection@.len() as int) =~= rows);
    }
    all
}

/// Summarises the distances of a collection over `vertex_count` vertices.
pub fn summarize(collection: &Vec<HashMap<Vertex, u32>>, vertex_count: usize) -> (report:
    StatisticsReport)
    requires
        is_distance_collection(rows_of(collection@), vertex_count as nat),
    ensures
        report.describes(rows_of(collection@), vertex_count as nat),
{
    let ghost rows = rows_of(collection@);
    let mut averages: Vec<Fraction> = Vec::new();
    let mut i: usize = 0;
    while i < collection.len()
        invariant
            rows == rows_of(collection@),
            i <= collection@.len(),
            collection@.len() == vertex_count,
            averages@.len() == i,
            forall|j: int|
                0 <= j < i ==> (#[trigger] averages@[j]) == (Fraction {
                    numerator: total(row_values(rows[j], vertex_count as nat)) as u128,
                    denominator: vertex_count as u128,
                }),
        decreases collection@.len() - i,
    {
        let values = distance_values(&collection[i], vertex_count);
        averages.push(Fraction { numerator: sum_of(&values), denominator: vertex_count as u128 });
        i += 1;
    }
    let mut all = flatten(collection, vertex_count);
    let count = all.len();
    let max = maximum(&all);
    let mean = mean(&all);
    let variance = match &mean {
        Some(m) => variance(&all, m),
        None => Err(StatisticsError::Empty),
    };
    let median = median(&mut all);
    StatisticsReport { count, mean, max, median, variance, averages }
}

} // verus!
