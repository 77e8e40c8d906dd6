use fair_routes::branching::{choose_location, highest_tip, represents, try_location};
use fair_routes::graph::DistanceGraph;
use fair_routes::objective::{leading_rider, riders_total};
use fair_routes::rider::Rider;
use fair_routes::search::{assign_tours, commit};
use fair_routes::solver::{all_distinct, all_known, fresh_riders};

fn along(at: &[u64]) -> DistanceGraph {
    let mut weights = vec![];
    for a in at.iter() {
        let mut row = vec![];
        for b in at.iter() {
            row.push(if a > b { a - b } else { b - a });
        }
        weights.push(row);
    }
    DistanceGraph::new(weights).unwrap()
}

fn with_orders(id: usize, entries: &[(usize, u64)]) -> Rider {
    let mut rider = Rider::new(id);
    for (location, tip) in entries.iter() {
        rider.add_tip(*location, *tip);
    }
    rider
}

#[test]
fn highest_tip_of_the_entries() {
    assert_eq!(highest_tip(&vec![]), 0);
    assert_eq!(highest_tip(&vec![(0, 3), (1, 9), (2, 9), (3, 1)]), 9);
}

#[test]
fn try_location_prices_the_tour_with_the_location() {
    // Depot at 0; nodes at 5, 8, 20.
    let graph = along(&[5, 8, 20, 0]);
    assert_eq!(try_location(&graph, &vec![], 0), 10);
    assert_eq!(try_location(&graph, &vec![0], 1), 16);
    assert_eq!(try_location(&graph, &vec![0, 1], 2), 40);
}

#[test]
fn the_cheapest_of_the_locations_with_the_highest_tip_is_chosen() {
    let graph = along(&[5, 8, 20, 6, 0]);
    let rider = with_orders(0, &[(0, 2)]);
    // Locations 1 and 2 carry the highest tip; 3 is nearer but carries less.
    let unassigned = vec![(2, 9), (3, 1), (1, 9)];
    assert_eq!(choose_location(&graph, &unassigned, &rider), 2);
    assert_eq!(choose_location(&graph, &vec![(2, 9), (3, 1)], &rider), 0);
}

#[test]
fn of_locations_with_the_same_price_the_first_is_chosen() {
    // Depot at 10; locations at 7 and 13 give tours of the same cost.
    let graph = along(&[7, 13, 10]);
    let rider = Rider::new(0);
    assert_eq!(choose_location(&graph, &vec![(1, 4), (0, 4)], &rider), 0);
    assert_eq!(choose_location(&graph, &vec![(0, 4), (1, 4)], &rider), 0);
}

#[test]
fn the_first_rider_with_a_sum_stands_for_it() {
    let riders = vec![
        with_orders(0, &[(0, 5)]),
        with_orders(1, &[]),
        with_orders(2, &[(1, 2), (2, 3)]),
        with_orders(3, &[]),
        with_orders(4, &[(3, 1)]),
    ];
    assert!(represents(&riders, 0));
    assert!(represents(&riders, 1));
    assert!(!represents(&riders, 2));
    assert!(!represents(&riders, 3));
    assert!(represents(&riders, 4));
}

#[test]
fn the_last_of_the_riders_with_the_largest_sum_leads() {
    let riders = vec![
        with_orders(0, &[(0, 5)]),
        with_orders(1, &[(1, 7)]),
        with_orders(2, &[(2, 3), (3, 4)]),
        with_orders(3, &[]),
    ];
    assert_eq!(leading_rider(&riders), (2, 7));
    assert_eq!(riders_total(&riders), 19);
    assert_eq!(leading_rider(&vec![Rider::new(0)]), (0, 0));
}

#[test]
fn commit_gives_one_rider_one_more_location() {
    let riders = vec![with_orders(0, &[(0, 5)]), with_orders(1, &[(1, 7)])];
    let after = commit(&riders, 1, (4, 2));
    assert_eq!(after.len(), 2);
    assert_eq!(after[0].orders(), &vec![(0, 5)]);
    assert_eq!(after[1].orders(), &vec![(1, 7), (4, 2)]);
    assert_eq!(after[1].id(), 1);
    // The riders that were copied are as they were.
    assert_eq!(riders[1].orders(), &vec![(1, 7)]);
}

#[test]
fn assign_tours_sets_the_route_of_each_rider() {
    let riders = vec![with_orders(0, &[(0, 5)]), with_orders(1, &[(1, 7)])];
    let routed = assign_tours(&riders, &vec![vec![2, 0, 2], vec![2, 1, 2]]);
    assert_eq!(routed[0].route(), &vec![2, 0, 2]);
    assert_eq!(routed[1].route(), &vec![2, 1, 2]);
    assert_eq!(routed[1].orders(), &vec![(1, 7)]);
    assert!(riders[0].route().is_empty());
}

#[test]
fn fresh_riders_have_their_index_as_id() {
    let riders = fresh_riders(3);
    assert_eq!(riders.len(), 3);
    for (i, rider) in riders.iter().enumerate() {
        assert_eq!(rider.id(), i);
        assert!(rider.orders().is_empty());
    }
    assert!(fresh_riders(0).is_empty());
}

#[test]
fn locations_are_checked_against_the_graph() {
    let graph = along(&[5, 8, 0]);
    assert!(all_known(&graph, &vec![(0, 1), (1, 1)]));
    assert!(!all_known(&graph, &vec![(0, 1), (2, 1)]));
    assert!(!all_known(&graph, &vec![(7, 1)]));
    assert!(all_known(&graph, &vec![]));
}

#[test]
fn repeated_locations_are_found() {
    assert!(all_distinct(&vec![(0, 1), (1, 1), (2, 1)]));
    assert!(!all_distinct(&vec![(0, 1), (1, 1), (0, 2)]));
    assert!(!all_distinct(&vec![(3, 1), (3, 1)]));
    assert!(all_distinct(&vec![]));
}

#[test]
fn a_cloned_rider_is_the_same_rider() {
    let mut rider = with_orders(4, &[(0, 5), (3, 2)]);
    rider.set_route(vec![9, 0, 3, 9]);
    let copy = rider.clone();
    assert_eq!(copy.id(), 4);
    assert_eq!(copy.orders(), rider.orders());
    assert_eq!(copy.route(), rider.route());
    assert_eq!(copy.locations(), vec![0, 3]);
}
