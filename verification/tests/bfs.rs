use graph_distances::compute_distance_bfs;
use graph_distances::Graph;

#[test]
fn test_compute_distance_bfs() {
    // Create a sample graph
    let graph = Graph {
        n: 5,
        outedges: vec![
            vec![(1, 1)],
            vec![(0, 1), (2, 1)],
            vec![(1, 1), (3, 1)],
            vec![(2, 1), (4, 1)],
            vec![(3, 1)],
        ],
    };

    // Compute distances from vertex 0
    let distances_from_0 = compute_distance_bfs(0, &graph);

    // Check if the distances are correct
    assert_eq!(distances_from_0[&0], 0);
    assert_eq!(distances_from_0[&1], 1);
    assert_eq!(distances_from_0[&2], 2);
    assert_eq!(distances_from_0[&3], 3);
    assert_eq!(distances_from_0[&4], 4);
}

#[test]
fn bfs_distance_to_source_is_zero() {
    let graph = Graph {
        n: 4,
        outedges: vec![vec![(1, 7), (0, 3)], vec![(2, 1)], vec![(0, 1)], vec![]],
    };
    for source in 0..4 {
        let distances = compute_distance_bfs(source, &graph);
        assert_eq!(distances[&source], 0);
    }
}

#[test]
fn bfs_leaves_out_what_cannot_be_reached() {
    let graph = Graph {
        n: 4,
        outedges: vec![vec![(1, 1)], vec![], vec![(0, 1)], vec![(2, 1)]],
    };
    let distances = compute_distance_bfs(0, &graph);
    assert_eq!(distances.len(), 2);
    assert_eq!(distances[&0], 0);
    assert_eq!(distances[&1], 1);
    assert!(!distances.contains_key(&2));
    assert!(!distances.contains_key(&3));

    let distances = compute_distance_bfs(3, &graph);
    assert_eq!(distances.len(), 4);
    assert_eq!(distances[&3], 0);
    assert_eq!(distances[&2], 1);
    assert_eq!(distances[&0], 2);
    assert_eq!(distances[&1], 3);
}

#[test]
fn bfs_counts_edges_and_not_weights() {
    let graph = Graph {
        n: 4,
        outedges: vec![vec![(3, 100), (1, 1)], vec![(2, 1)], vec![(3, 1)], vec![]],
    };
    let distances = compute_distance_bfs(0, &graph);
    assert_eq!(distances[&3], 1);
    assert_eq!(distances[&1], 1);
    assert_eq!(distances[&2], 2);
}

#[test]
fn bfs_takes_the_shorter_of_two_ways() {
    let graph = Graph {
        n: 6,
        outedges: vec![
            vec![(1, 1), (4, 1)],
            vec![(2, 1)],
            vec![(3, 1)],
            vec![(5, 1)],
            vec![(5, 1)],
            vec![],
        ],
    };
    let distances = compute_distance_bfs(0, &graph);
    assert_eq!(distances[&5], 2);
    assert_eq!(distances[&3], 3);
}

#[test]
fn bfs_on_a_single_vertex() {
    let graph = Graph { n: 1, outedges: vec![vec![]] };
    let distances = compute_distance_bfs(0, &graph);
    assert_eq!(distances.len(), 1);
    assert_eq!(distances[&0], 0);

    let looped = Graph { n: 1, outedges: vec![vec![(0, 1), (0, 1)]] };
    let distances = compute_distance_bfs(0, &looped);
    assert_eq!(distances.len(), 1);
    assert_eq!(distances[&0], 0);
}

#[test]
fn bfs_gives_the_same_map_again() {
    let graph = Graph {
        n: 5,
        outedges: vec![
            vec![(1, 1), (2, 1)],
            vec![(3, 1)],
            vec![(3, 1), (4, 1)],
            vec![(0, 1)],
            vec![],
        ],
    };
    for source in 0..5 {
        let first = compute_distance_bfs(source, &graph);
        let second = compute_distance_bfs(source, &graph);
        assert_eq!(first, second);
    }
}

#[test]
fn graph_validity_is_checked() {
    let good = Graph { n: 2, outedges: vec![vec![(1, 1)], vec![(0, 5), (1, 0)]] };
    assert!(good.is_valid());
    let empty = Graph { n: 0, outedges: vec![] };
    assert!(empty.is_valid());
    let short = Graph { n: 3, outedges: vec![vec![], vec![]] };
    assert!(!short.is_valid());
    let long = Graph { n: 1, outedges: vec![vec![], vec![]] };
    assert!(!long.is_valid());
    let dangling = Graph { n: 2, outedges: vec![vec![(1, 1)], vec![(2, 1)]] };
    assert!(!dangling.is_valid());
}
