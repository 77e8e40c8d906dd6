use fair_routes::graph::DistanceGraph;
use fair_routes::objective::{gap, relaxed_optimum, starting_gap};
use fair_routes::rider::Rider;
use fair_routes::search::{cut_for_budget, exceeds_budget, plan_tours, CGATree};
use fair_routes::solver::{solve, InputError};

/// Points on a line; the last one is the depot.
fn line(at: &[u64]) -> DistanceGraph {
    let mut weights = vec![];
    for a in at.iter() {
        let mut row = vec![];
        for b in at.iter() {
            row.push(if a > b { a - b } else { b - a });
        }
        weights.push(row);
    }
    DistanceGraph::new(weights).unwrap()
}

fn holding(id: usize, entries: &[(usize, u64)]) -> Rider {
    let mut rider = Rider::new(id);
    for (location, tip) in entries.iter() {
        rider.add_tip(*location, *tip);
    }
    rider
}

#[test]
fn two_locations_for_two_riders() {
    // A carries 10, B carries 1; routing never binds.
    let graph = line(&[1, 2, 0]);
    assert_eq!(relaxed_optimum(11, 2), 1);
    let tree = solve(graph, u128::MAX, vec![(0, 10), (1, 1)], 2).unwrap();
    assert_eq!(tree.best_difference(), 9);
    assert_eq!(tree.opt_relax(), 1);
    assert!(!tree.finished());
    let riders = tree.best_riders();
    assert_eq!(riders.len(), 2);
    assert_eq!(riders[0].orders(), &vec![(0, 10)]);
    assert_eq!(riders[1].orders(), &vec![(1, 1)]);
    assert_eq!(tree.best_routes(), &vec![vec![2, 0, 2], vec![2, 1, 2]]);
    assert_eq!(riders[0].route(), &vec![2, 0, 2]);
    assert_eq!(riders[1].route(), &vec![2, 1, 2]);
    // The root, the node with A assigned, and the two complete assignments.
    assert_eq!(tree.nodes_number(), 4);
}

#[test]
fn both_locations_to_one_rider_is_worse() {
    let riders = vec![holding(0, &[(0, 10), (1, 1)]), holding(1, &[])];
    assert_eq!(gap(&vec![], &riders), 11);
    let riders = vec![holding(0, &[(0, 10)]), holding(1, &[(1, 1)])];
    assert_eq!(gap(&vec![], &riders), 9);
}

#[test]
fn one_location_for_two_riders() {
    let graph = line(&[3, 0]);
    assert_eq!(relaxed_optimum(5, 2), 1);
    let tree = solve(graph, u128::MAX, vec![(0, 5)], 2).unwrap();
    assert_eq!(tree.best_difference(), 5);
    assert!(!tree.finished());
    assert_eq!(gap(&vec![], &vec![holding(0, &[(0, 5)]), holding(1, &[])]), 5);
    assert_eq!(gap(&vec![], &vec![holding(0, &[]), holding(1, &[(0, 5)])]), 5);
}

#[test]
fn a_set_over_the_budget_is_cut_by_the_one_tree_bound() {
    // Five locations far from the depot: every closed tour costs 200 at least.
    let graph = line(&[100, 101, 102, 103, 104, 0]);
    let far = holding(0, &[(0, 1), (1, 1), (2, 1), (3, 1), (4, 1)]);
    assert!(exceeds_budget(&graph, 50, &far));
    assert!(!exceeds_budget(&graph, 1000, &far));
    let riders = vec![far, holding(1, &[])];
    assert!(cut_for_budget(&graph, 50, &riders));
    assert!(!cut_for_budget(&graph, 1000, &riders));

    // The search counts the node and leaves everything else as it was.
    let mut tree = CGATree::new(graph, 50, 100, 1);
    tree.search(vec![], riders);
    assert_eq!(tree.nodes_number(), 1);
    assert_eq!(tree.best_difference(), 100);
    assert!(tree.best_riders().is_empty());
    assert!(tree.best_routes().is_empty());
    assert!(!tree.finished());
}

#[test]
fn small_sets_are_never_over_budget() {
    let graph = line(&[100, 101, 102, 103, 104, 0]);
    let three = holding(0, &[(0, 1), (1, 1), (2, 1)]);
    assert!(!exceeds_budget(&graph, 0, &three));
    let four = holding(0, &[(0, 1), (1, 1), (2, 1), (3, 1)]);
    assert!(exceeds_budget(&graph, 0, &four));
}

#[test]
fn the_budget_check_waits_for_the_leading_rider() {
    let graph = line(&[100, 101, 102, 103, 104, 0]);
    // The rider with four locations is over the budget, but the rider with
    // the largest sum holds one location only.
    let riders = vec![holding(0, &[(0, 1), (1, 1), (2, 1), (3, 1)]), holding(1, &[(4, 9)])];
    assert!(!cut_for_budget(&graph, 0, &riders));
    let riders = vec![holding(0, &[(0, 3), (1, 3), (2, 3), (3, 3)]), holding(1, &[(4, 9)])];
    assert!(cut_for_budget(&graph, 0, &riders));
}

#[test]
fn a_leaf_over_the_travel_budget_is_rejected() {
    let graph = line(&[10, 20, 0]);
    let riders = vec![holding(0, &[(0, 10)]), holding(1, &[(1, 1)])];
    // Rider 1 travels 40, which is over 39.
    assert!(plan_tours(&graph, 39, &riders).is_none());
    assert_eq!(
        plan_tours(&graph, 40, &riders),
        Some(vec![vec![2, 0, 2], vec![2, 1, 2]])
    );
    let mut tree = CGATree::new(graph, 39, 11, 1);
    tree.search(vec![], riders);
    assert_eq!(tree.nodes_number(), 1);
    assert_eq!(tree.best_difference(), 11);
    assert!(tree.best_riders().is_empty());
}

#[test]
fn the_search_stops_at_the_relaxed_optimum() {
    // Tips 3 and 2 for two riders: the even split is 3 against 2, gap 1.
    let graph = line(&[1, 2, 0]);
    assert_eq!(relaxed_optimum(5, 2), 1);
    let tree = solve(graph, u128::MAX, vec![(0, 3), (1, 2)], 2).unwrap();
    assert_eq!(tree.best_difference(), 1);
    assert!(tree.finished());
    // Root, 3 to rider 0, then 2 to rider 0 (cut) and 2 to rider 1 (best).
    assert_eq!(tree.nodes_number(), 4);
}

#[test]
fn a_finished_tree_is_left_as_it_is() {
    let graph = line(&[1, 2, 0]);
    let mut tree = solve(graph, u128::MAX, vec![(0, 3), (1, 2)], 2).unwrap();
    assert!(tree.finished());
    let riders = vec![holding(0, &[]), holding(1, &[])];
    tree.search(vec![(0, 3), (1, 2)], riders);
    assert_eq!(tree.nodes_number(), 4);
    assert_eq!(tree.best_difference(), 1);
    assert!(tree.finished());
    assert_eq!(tree.best_riders()[0].orders(), &vec![(0, 3)]);
}

#[test]
fn the_best_difference_never_grows() {
    let graph = line(&[1, 2, 3, 4, 0]);
    let locations = vec![(0, 7), (1, 5), (2, 4), (3, 1)];
    let mut tree = CGATree::new(graph, u128::MAX, starting_gap(17, 3), relaxed_optimum(17, 3));
    let before = tree.best_difference();
    assert_eq!(before, 34);
    let riders = vec![holding(0, &[]), holding(1, &[]), holding(2, &[])];
    tree.search(locations, riders);
    assert!(tree.best_difference() <= before);
    assert!(tree.nodes_number() > 0);
}

#[test]
fn three_riders_share_four_locations() {
    let graph = line(&[1, 2, 3, 4, 0]);
    let tree = solve(graph, u128::MAX, vec![(0, 7), (1, 5), (2, 4), (3, 1)], 3).unwrap();
    // No split lets the first rider hold less than 7: in halves,
    // 2 * 7 - 10 = 4. The first split found with that gap is 7 | 5 + 1 | 4.
    assert_eq!(tree.opt_relax(), 1);
    assert_eq!(tree.best_difference(), 4);
    let sums: Vec<u128> = tree.best_riders().iter().map(|r| r.sum_tips()).collect();
    assert_eq!(sums, vec![7, 6, 4]);
    assert!(!tree.finished());
}

#[test]
fn runs_are_repeatable() {
    let locations = vec![(0, 7), (1, 5), (2, 4), (3, 1), (4, 7), (5, 2)];
    let first = solve(line(&[1, 9, 3, 4, 6, 8, 0]), 60, locations.clone(), 3).unwrap();
    let second = solve(line(&[1, 9, 3, 4, 6, 8, 0]), 60, locations, 3).unwrap();
    assert_eq!(first.best_difference(), second.best_difference());
    assert_eq!(first.nodes_number(), second.nodes_number());
    assert_eq!(first.best_routes(), second.best_routes());
    assert_eq!(first.finished(), second.finished());
    let a: Vec<_> = first.best_riders().iter().map(|r| r.orders().clone()).collect();
    let b: Vec<_> = second.best_riders().iter().map(|r| r.orders().clone()).collect();
    assert_eq!(a, b);
}

#[test]
fn the_best_assignment_holds_the_whole_pool_once() {
    let locations = vec![(0, 7), (1, 5), (2, 4), (3, 1), (4, 7), (5, 2)];
    let tree = solve(line(&[1, 9, 3, 4, 6, 8, 0]), u128::MAX, locations.clone(), 3).unwrap();
    let mut held: Vec<(usize, u64)> = vec![];
    for rider in tree.best_riders().iter() {
        held.extend(rider.orders().iter());
    }
    held.sort();
    assert_eq!(held, locations);
    assert_eq!(gap(&vec![], tree.best_riders()), tree.best_difference());
}

#[test]
fn too_few_riders_are_refused() {
    let run = solve(line(&[1, 0]), 10, vec![(0, 5)], 1);
    assert_eq!(run.err(), Some(InputError::TooFewRiders));
    let run = solve(line(&[1, 0]), 10, vec![(0, 5)], 0);
    assert_eq!(run.err(), Some(InputError::TooFewRiders));
}

#[test]
fn an_unknown_location_is_refused() {
    let run = solve(line(&[1, 2, 0]), 10, vec![(0, 5), (3, 1)], 2);
    assert_eq!(run.err(), Some(InputError::UnknownLocation));
    // The depot is no location.
    let run = solve(line(&[1, 2, 0]), 10, vec![(2, 5)], 2);
    assert_eq!(run.err(), Some(InputError::UnknownLocation));
}

#[test]
fn a_repeated_location_is_refused() {
    let run = solve(line(&[1, 2, 0]), 10, vec![(0, 5), (1, 1), (0, 2)], 2);
    assert_eq!(run.err(), Some(InputError::RepeatedLocation));
}

#[test]
fn a_pool_too_large_is_refused() {
    let run = solve(line(&[1, 2, 0]), 10, vec![(0, u64::MAX), (1, u64::MAX)], usize::MAX);
    assert_eq!(run.err(), Some(InputError::PoolTooLarge));
}

#[test]
fn an_empty_pool_finds_nothing() {
    let tree = solve(line(&[1, 2, 0]), 10, vec![], 2).unwrap();
    assert_eq!(tree.best_difference(), 0);
    assert_eq!(tree.opt_relax(), 0);
    assert_eq!(tree.nodes_number(), 1);
    assert!(tree.best_riders().is_empty());
    assert!(!tree.finished());
}

#[test]
fn relaxed_optimum_and_starting_gap_formulas() {
    // ceil(11 / 2) = 6, and 6 - (11 - 6) / 1 = 1.
    assert_eq!(relaxed_optimum(11, 2), 1);
    // ceil(17 / 3) = 6, and 6 * 2 - (17 - 6) = 1.
    assert_eq!(relaxed_optimum(17, 3), 1);
    assert_eq!(relaxed_optimum(18, 3), 0);
    assert_eq!(relaxed_optimum(0, 4), 0);
    assert_eq!(starting_gap(11, 2), 11);
    assert_eq!(starting_gap(17, 3), 34);
}

#[test]
fn gap_counts_unassigned_tips_for_the_others() {
    let riders = vec![holding(0, &[(0, 10)]), holding(1, &[(1, 4)]), holding(2, &[])];
    // 10 * 2 - (4 + 0 + 6) = 10.
    assert_eq!(gap(&vec![(2, 6)], &riders), 10);
    // Nothing assigned yet: the gap is below zero.
    let riders = vec![holding(0, &[]), holding(1, &[])];
    assert_eq!(gap(&vec![(0, 10), (1, 1)], &riders), -11);
}
