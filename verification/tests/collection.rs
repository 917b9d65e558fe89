use graph_distances::build;
use graph_distances::collection::compute_all_distances;
use graph_distances::collection::distance_values;
use graph_distances::collection::flatten;
use graph_distances::collection::summarize;
use graph_distances::statistics::Fraction;
use graph_distances::statistics::StatisticsError;
use graph_distances::Graph;
use graph_distances::Point;
use std::collections::HashMap;

#[test]
fn all_distances_has_one_map_per_source() {
    let graph = build(&vec![Point { x: 0, z: 0 }; 3]);
    let collection = compute_all_distances(&graph);
    assert_eq!(collection.len(), 3);
    assert_eq!(collection[0], HashMap::from([(0, 0), (1, 1), (2, 2)]));
    assert_eq!(collection[1], HashMap::from([(0, 1), (1, 0), (2, 1)]));
    assert_eq!(collection[2], HashMap::from([(0, 2), (1, 1), (2, 0)]));
}

#[test]
fn values_come_in_order_of_the_vertex() {
    let row: HashMap<usize, u32> = HashMap::from([(3, 30), (0, 5), (2, 20)]);
    assert_eq!(distance_values(&row, 4), vec![5, 20, 30]);
    assert_eq!(distance_values(&row, 3), vec![5, 20]);
    assert_eq!(distance_values(&row, 0), Vec::<u32>::new());
}

#[test]
fn flatten_goes_row_after_row() {
    let graph = build(&vec![Point { x: 0, z: 0 }; 3]);
    let collection = compute_all_distances(&graph);
    assert_eq!(flatten(&collection, 3), vec![0, 1, 2, 1, 0, 1, 2, 1, 0]);
}

#[test]
fn summary_of_a_chain_of_three() {
    let graph = build(&vec![Point { x: 0, z: 0 }; 3]);
    let collection = compute_all_distances(&graph);
    let report = summarize(&collection, 3);
    assert_eq!(report.count, 9);
    assert_eq!(report.mean, Some(Fraction { numerator: 8, denominator: 9 }));
    assert_eq!(report.max, 2);
    assert_eq!(report.median, Some(Fraction { numerator: 1, denominator: 1 }));
    assert_eq!(report.variance, Ok(Fraction { numerator: 396, denominator: 729 }));
    assert_eq!(
        report.averages,
        vec![
            Fraction { numerator: 3, denominator: 3 },
            Fraction { numerator: 2, denominator: 3 },
            Fraction { numerator: 3, denominator: 3 },
        ]
    );
}

#[test]
fn summary_of_nothing() {
    let graph = build(&vec![]);
    let collection = compute_all_distances(&graph);
    let report = summarize(&collection, 0);
    assert_eq!(report.count, 0);
    assert_eq!(report.mean, None);
    assert_eq!(report.max, 0);
    assert_eq!(report.median, None);
    assert_eq!(report.variance, Err(StatisticsError::Empty));
    assert!(report.averages.is_empty());
}

#[test]
fn summary_of_a_single_vertex() {
    let graph = build(&vec![Point { x: 8, z: 8 }]);
    let collection = compute_all_distances(&graph);
    let report = summarize(&collection, 1);
    assert_eq!(report.count, 1);
    assert_eq!(report.mean, Some(Fraction { numerator: 0, denominator: 1 }));
    assert_eq!(report.max, 0);
    assert_eq!(report.median, Some(Fraction { numerator: 0, denominator: 1 }));
    assert_eq!(report.variance, Ok(Fraction { numerator: 0, denominator: 1 }));
    assert_eq!(report.averages, vec![Fraction { numerator: 0, denominator: 1 }]);
}

#[test]
fn averages_divide_by_all_vertices_reached_or_not() {
    // Vertex 2 reaches nothing but itself; nothing reaches vertex 2.
    let graph = Graph { n: 3, outedges: vec![vec![(1, 1)], vec![(0, 1)], vec![]] };
    let collection = compute_all_distances(&graph);
    let report = summarize(&collection, 3);
    assert_eq!(report.count, 5);
    assert_eq!(
        report.averages,
        vec![
            Fraction { numerator: 1, denominator: 3 },
            Fraction { numerator: 1, denominator: 3 },
            Fraction { numerator: 0, denominator: 3 },
        ]
    );
    assert_eq!(report.mean, Some(Fraction { numerator: 2, denominator: 5 }));
    assert_eq!(report.median, Some(Fraction { numerator: 0, denominator: 1 }));
    assert_eq!(report.max, 1);
}
