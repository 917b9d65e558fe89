use graph_distances::compute_distance_bfs;
use graph_distances::compute_distance_dijkstra;
use graph_distances::Graph;

#[test]
fn dijkstra_on_a_weighted_graph() {
    let graph = Graph {
        n: 6,
        outedges: vec![
            vec![(1, 7), (2, 9), (5, 14)],
            vec![(0, 7), (2, 10), (3, 15)],
            vec![(0, 9), (1, 10), (3, 11), (5, 2)],
            vec![(1, 15), (2, 11), (4, 6)],
            vec![(3, 6), (5, 9)],
            vec![(0, 14), (2, 2), (4, 9)],
        ],
    };
    let distances = compute_distance_dijkstra(0, &graph);
    assert_eq!(distances.len(), 6);
    assert_eq!(distances[&0], 0);
    assert_eq!(distances[&1], 7);
    assert_eq!(distances[&2], 9);
    assert_eq!(distances[&3], 20);
    assert_eq!(distances[&4], 20);
    assert_eq!(distances[&5], 11);
}

#[test]
fn dijkstra_distance_to_source_is_zero() {
    let graph = Graph {
        n: 3,
        outedges: vec![vec![(1, 4), (0, 2)], vec![(2, 0)], vec![(0, 1)]],
    };
    for source in 0..3 {
        let distances = compute_distance_dijkstra(source, &graph);
        assert_eq!(distances[&source], 0);
    }
}

#[test]
fn dijkstra_drops_overtaken_candidates() {
    // Vertex 3 is queued at 100, then at 12, then at 3.
    let graph = Graph {
        n: 4,
        outedges: vec![
            vec![(3, 100), (1, 1), (2, 2)],
            vec![(3, 11), (2, 0)],
            vec![(3, 2)],
            vec![(0, 1)],
        ],
    };
    let distances = compute_distance_dijkstra(0, &graph);
    assert_eq!(distances[&0], 0);
    assert_eq!(distances[&1], 1);
    assert_eq!(distances[&2], 1);
    assert_eq!(distances[&3], 3);
}

#[test]
fn dijkstra_leaves_out_what_cannot_be_reached() {
    let graph = Graph {
        n: 4,
        outedges: vec![vec![(1, 5)], vec![], vec![(0, 1)], vec![(2, 1)]],
    };
    let distances = compute_distance_dijkstra(0, &graph);
    assert_eq!(distances.len(), 2);
    assert_eq!(distances[&1], 5);
    assert!(!distances.contains_key(&2));
    assert!(!distances.contains_key(&3));
}

#[test]
fn dijkstra_with_parallel_and_weightless_edges() {
    let graph = Graph {
        n: 3,
        outedges: vec![vec![(1, 9), (1, 4), (1, 6)], vec![(2, 0), (2, 3)], vec![(2, 1)]],
    };
    let distances = compute_distance_dijkstra(0, &graph);
    assert_eq!(distances[&1], 4);
    assert_eq!(distances[&2], 4);
}

#[test]
fn dijkstra_sums_beyond_thirty_two_bits() {
    let big = u32::MAX;
    let graph = Graph {
        n: 4,
        outedges: vec![vec![(1, big)], vec![(2, big)], vec![(3, big)], vec![]],
    };
    let distances = compute_distance_dijkstra(0, &graph);
    assert_eq!(distances[&3], 3 * (big as u64));
    assert_eq!(distances[&3], 12_884_901_885);
}

#[test]
fn dijkstra_is_no_more_than_any_path_sum() {
    let graph = Graph {
        n: 5,
        outedges: vec![
            vec![(1, 10), (2, 3)],
            vec![(3, 2)],
            vec![(1, 4), (3, 8), (4, 2)],
            vec![(4, 5)],
            vec![(3, 1)],
        ],
    };
    let distances = compute_distance_dijkstra(0, &graph);
    // Some walks from 0 to 3, as lists of positions in the edge lists.
    let walks: Vec<Vec<usize>> = vec![
        vec![0, 0],
        vec![1, 1],
        vec![1, 0, 0],
        vec![1, 2, 0],
        vec![1, 0, 0, 0, 0],
    ];
    let mut least = u64::MAX;
    for walk in walks.iter() {
        let mut at = 0;
        let mut sum: u64 = 0;
        for slot in walk.iter() {
            let (to, weight) = graph.outedges[at][*slot];
            sum += weight as u64;
            at = to;
        }
        assert_eq!(at, 3);
        assert!(distances[&3] <= sum);
        least = least.min(sum);
    }
    assert_eq!(distances[&3], 6);
    assert_eq!(least, 6);
}

#[test]
fn dijkstra_agrees_with_bfs_on_unit_weights() {
    let graph = Graph {
        n: 7,
        outedges: vec![
            vec![(1, 1), (2, 1)],
            vec![(3, 1)],
            vec![(3, 1), (4, 1)],
            vec![(5, 1)],
            vec![(5, 1), (0, 1)],
            vec![],
            vec![(0, 1)],
        ],
    };
    for source in 0..7 {
        let hops = compute_distance_bfs(source, &graph);
        let weights = compute_distance_dijkstra(source, &graph);
        assert_eq!(hops.len(), weights.len());
        for (vertex, distance) in hops.iter() {
            assert_eq!(weights[vertex], *distance as u64);
        }
    }
}

#[test]
fn dijkstra_gives_the_same_map_again() {
    let graph = Graph {
        n: 4,
        outedges: vec![vec![(1, 2), (2, 2)], vec![(3, 2)], vec![(3, 2)], vec![(0, 9)]],
    };
    for source in 0..4 {
        let first = compute_distance_dijkstra(source, &graph);
        let second = compute_distance_dijkstra(source, &graph);
        assert_eq!(first, second);
    }
}
