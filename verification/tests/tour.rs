use fair_routes::graph::{cost, DistanceGraph};
use fair_routes::tour::nearest_neighbor;

fn on_a_line(at: &[u64]) -> DistanceGraph {
    let mut weights = vec![];
    for a in at.iter() {
        let mut row = vec![];
        for b in at.iter() {
            row.push(if a > b { a - b } else { b - a });
        }
        weights.push(row);
    }
    DistanceGraph::new(weights).unwrap()
}

#[test]
fn the_tour_of_no_stops_stays_at_the_depot() {
    let graph = on_a_line(&[4, 9, 0]);
    let tour = nearest_neighbor(&graph, &vec![]);
    assert_eq!(tour, vec![2, 2]);
    assert_eq!(cost(&graph, &tour), 0);
}

#[test]
fn the_tour_goes_to_the_nearest_stop_first() {
    // Depot at 0; stops at 10, 2, 5, 30.
    let graph = on_a_line(&[10, 2, 5, 30, 0]);
    let tour = nearest_neighbor(&graph, &vec![0, 1, 2, 3]);
    assert_eq!(tour, vec![4, 1, 2, 0, 3, 4]);
    assert_eq!(cost(&graph, &tour), 60);
}

#[test]
fn the_tour_does_not_depend_on_the_order_of_the_stops() {
    let graph = on_a_line(&[10, 2, 5, 30, 0]);
    assert_eq!(nearest_neighbor(&graph, &vec![3, 2, 1, 0]), vec![4, 1, 2, 0, 3, 4]);
    assert_eq!(nearest_neighbor(&graph, &vec![2, 0, 3, 1]), vec![4, 1, 2, 0, 3, 4]);
}

#[test]
fn the_tour_visits_only_the_stops() {
    let graph = on_a_line(&[10, 2, 5, 30, 0]);
    assert_eq!(nearest_neighbor(&graph, &vec![3, 0]), vec![4, 0, 3, 4]);
    assert_eq!(nearest_neighbor(&graph, &vec![2]), vec![4, 2, 4]);
}

#[test]
fn of_stops_at_the_same_distance_the_highest_index_is_taken() {
    // Depot at 10; stops at 7 and 13 are both 3 away, the stop at 16 is 6 away.
    let graph = on_a_line(&[7, 13, 16, 10]);
    assert_eq!(nearest_neighbor(&graph, &vec![0, 1, 2]), vec![3, 1, 2, 0, 3]);
    assert_eq!(nearest_neighbor(&graph, &vec![1, 0]), vec![3, 1, 0, 3]);
    assert_eq!(nearest_neighbor(&graph, &vec![0, 1]), vec![3, 1, 0, 3]);
}

#[test]
fn the_greedy_tour_may_cost_more_than_the_best_one() {
    // Depot at 10; stops at 9, 13, 4 and 20.
    let graph = on_a_line(&[9, 13, 4, 20, 10]);
    let tour = nearest_neighbor(&graph, &vec![0, 1, 2, 3]);
    assert_eq!(tour, vec![4, 0, 1, 3, 2, 4]);
    assert_eq!(cost(&graph, &tour), 1 + 4 + 7 + 16 + 6);
    // Going to one end first costs twice the span.
    assert_eq!(cost(&graph, &vec![4, 0, 2, 1, 3, 4]), 32);
}
