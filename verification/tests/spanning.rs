use fair_routes::graph::DistanceGraph;
use fair_routes::spanning::{forest_weight, one_tree_bound, spanning_weight};

fn line_graph() -> DistanceGraph {
    // Nodes on a line at 0, 1, 3, 6, 10; the depot is the last one.
    let at: [u64; 5] = [0, 1, 3, 6, 10];
    let mut weights = vec![];
    for a in at.iter() {
        let mut row = vec![];
        for b in at.iter() {
            row.push(if a > b { a - b } else { b - a });
        }
        weights.push(row);
    }
    DistanceGraph::new(weights).unwrap()
}

#[test]
fn forest_weight_sums_the_edges_only() {
    let elements = vec![None, None, Some((0, 1, 4)), None, Some((1, 2, 7))];
    assert_eq!(forest_weight(&elements), 11);
    assert_eq!(forest_weight(&vec![]), 0);
}

#[test]
fn spanning_weight_of_points_on_a_line() {
    let graph = line_graph();
    assert_eq!(spanning_weight(&graph, &vec![0, 1, 2, 3, 4]), 10);
    assert_eq!(spanning_weight(&graph, &vec![0, 2, 4]), 10);
    assert_eq!(spanning_weight(&graph, &vec![1, 2]), 2);
    assert_eq!(spanning_weight(&graph, &vec![3]), 0);
    assert_eq!(spanning_weight(&graph, &vec![]), 0);
}

#[test]
fn spanning_weight_does_not_depend_on_the_order_of_the_nodes() {
    let graph = line_graph();
    assert_eq!(spanning_weight(&graph, &vec![4, 0, 3, 1]), 10);
    assert_eq!(spanning_weight(&graph, &vec![1, 3, 0, 4]), 10);
}

#[test]
fn one_tree_bound_adds_one_edge() {
    let graph = line_graph();
    // Setting 0 aside: tree over 1, 3, 6, 10 weighs 9, nearest is 1 away: 10.
    // Setting 3 aside (at 6): tree over 0, 1, 3, 10 weighs 10, nearest 3: 13.
    // The least is found with 1 aside (at 1): tree over 0, 3, 6, 10 weighs
    // 10, nearest 1: 11; with 0 aside it is 10.
    assert_eq!(one_tree_bound(&graph, &vec![0, 1, 2, 3]), 10);
    // One member: the tree over the depot alone weighs nothing.
    assert_eq!(one_tree_bound(&graph, &vec![0]), 10);
    assert_eq!(one_tree_bound(&graph, &vec![2, 3]), 7);
}
