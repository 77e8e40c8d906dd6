use fair_routes::graph::{cost, DistanceGraph, GraphError};

fn square() -> DistanceGraph {
    // Four corners of a square of side 3; the diagonal is rounded up to 5.
    DistanceGraph::new(vec![
        vec![0, 3, 5, 3],
        vec![3, 0, 3, 5],
        vec![5, 3, 0, 3],
        vec![3, 5, 3, 0],
    ])
    .unwrap()
}

#[test]
fn a_table_becomes_a_graph() {
    let graph = square();
    assert_eq!(graph.node_count(), 4);
    assert_eq!(graph.depot(), 3);
    assert_eq!(graph.distance(0, 2), 5);
    assert_eq!(graph.distance(2, 0), 5);
    assert_eq!(graph.distance(1, 2), 3);
    assert_eq!(graph.distance(3, 3), 0);
}

#[test]
fn a_single_node_is_a_graph() {
    let graph = DistanceGraph::new(vec![vec![0]]).unwrap();
    assert_eq!(graph.node_count(), 1);
    assert_eq!(graph.depot(), 0);
}

#[test]
fn an_empty_table_is_refused() {
    assert_eq!(DistanceGraph::new(vec![]).err(), Some(GraphError::Empty));
}

#[test]
fn a_table_with_a_missing_weight_is_refused() {
    let made = DistanceGraph::new(vec![vec![0, 1, 2], vec![1, 0], vec![2, 3, 0]]);
    assert_eq!(made.err(), Some(GraphError::Incomplete));
    let made = DistanceGraph::new(vec![vec![0, 1], vec![1, 0, 4]]);
    assert_eq!(made.err(), Some(GraphError::Incomplete));
    let made = DistanceGraph::new(vec![vec![]]);
    assert_eq!(made.err(), Some(GraphError::Incomplete));
}

#[test]
fn an_asymmetric_table_is_refused() {
    let made = DistanceGraph::new(vec![vec![0, 1, 2], vec![1, 0, 3], vec![2, 4, 0]]);
    assert_eq!(made.err(), Some(GraphError::Asymmetric));
}

#[test]
fn a_missing_weight_is_reported_before_asymmetry() {
    let made = DistanceGraph::new(vec![vec![0, 1, 2], vec![9, 0, 3], vec![2, 3]]);
    assert_eq!(made.err(), Some(GraphError::Incomplete));
}

#[test]
fn cost_sums_the_steps() {
    let graph = square();
    assert_eq!(cost(&graph, &vec![3, 0, 1, 2, 3]), 12);
    assert_eq!(cost(&graph, &vec![3, 1, 0, 2, 3]), 16);
    assert_eq!(cost(&graph, &vec![0, 2]), 5);
}

#[test]
fn cost_of_a_single_node_is_nothing() {
    let graph = square();
    assert_eq!(cost(&graph, &vec![2]), 0);
}

#[test]
fn a_step_that_stays_in_place_costs_nothing() {
    // The diagonal of the table is not read.
    let graph = DistanceGraph::new(vec![vec![7, 2], vec![2, 7]]).unwrap();
    assert_eq!(cost(&graph, &vec![1, 1]), 0);
    assert_eq!(cost(&graph, &vec![1, 0, 0, 1]), 4);
}

#[test]
fn cost_does_not_overflow_on_large_weights() {
    let big = u64::MAX;
    let graph = DistanceGraph::new(vec![vec![0, big], vec![big, 0]]).unwrap();
    assert_eq!(cost(&graph, &vec![1, 0, 1, 0]), 3 * (big as u128));
}
