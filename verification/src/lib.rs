//! Shortest-path distances on directed graphs with non-negative integer
//! weights, and exact summary statistics over the resulting distances.

pub mod builder;
pub mod collection;
pub mod dijkstra;
pub mod engine;
mod frontier;
pub mod graph;
pub mod laws;
pub mod min_queue;
pub mod parse;
mod relaxation;
pub mod statistics;
pub mod walk;

pub use builder::build;
pub use dijkstra::compute_distance_dijkstra;
pub use engine::shortest_paths;
pub use engine::Strategy;
pub use graph::compute_distance_bfs;
pub use graph::Graph;
pub use graph::Vertex;
pub use parse::parse_point;

use vstd::prelude::*;

verus! {

/// A point of the plane. Its identity is its position in the sequence it
/// comes in.
#[derive(Clone, Copy, Debug, PartialEq, Eq)]
pub struct Point {
    pub x: i32,
    pub z: i32,
}

} // verus!
