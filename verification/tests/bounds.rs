use fair_routes::graph::{cost, DistanceGraph};
use fair_routes::objective::gap;
use fair_routes::rider::Rider;
use fair_routes::solver::solve;
use fair_routes::spanning::one_tree_bound;
use fair_routes::tour::nearest_neighbor;

/// Seven points in the plane, the last being the depot; distances are
/// rounded up to thousandths, which keeps the triangle inequality.
fn plane() -> DistanceGraph {
    let points: [(f64, f64); 7] = [
        (12.0, 85.0),
        (40.0, 3.0),
        (77.0, 51.0),
        (5.0, 17.0),
        (60.0, 90.0),
        (33.0, 44.0),
        (50.0, 50.0),
    ];
    let mut weights = vec![];
    for a in points.iter() {
        let mut row = vec![];
        for b in points.iter() {
            let d = ((a.0 - b.0).powi(2) + (a.1 - b.1).powi(2)).sqrt();
            row.push((d * 1000.0).ceil() as u64);
        }
        weights.push(row);
    }
    DistanceGraph::new(weights).unwrap()
}

fn permutations(items: &[usize]) -> Vec<Vec<usize>> {
    if items.is_empty() {
        return vec![vec![]];
    }
    let mut all = vec![];
    for i in 0..items.len() {
        let mut rest = items.to_vec();
        let first = rest.remove(i);
        for mut tail in permutations(&rest) {
            tail.insert(0, first);
            all.push(tail);
        }
    }
    all
}

fn cheapest_tour(graph: &DistanceGraph, set: &[usize]) -> u128 {
    let depot = graph.depot();
    let mut best = u128::MAX;
    for order in permutations(set) {
        let mut tour = vec![depot];
        tour.extend(order);
        tour.push(depot);
        best = best.min(cost(graph, &tour));
    }
    best
}

fn subsets(n: usize) -> Vec<Vec<usize>> {
    let mut all = vec![];
    for mask in 1u32..(1 << n) {
        let mut set = vec![];
        for i in 0..n {
            if mask & (1 << i) != 0 {
                set.push(i);
            }
        }
        all.push(set);
    }
    all
}

#[test]
fn the_one_tree_bound_is_below_the_cheapest_tour() {
    let graph = plane();
    for set in subsets(6) {
        let bound = one_tree_bound(&graph, &set);
        let best = cheapest_tour(&graph, &set);
        assert!(bound <= best, "set {:?}: bound {} over {}", set, bound, best);
    }
}

#[test]
fn the_one_tree_bound_of_six_points() {
    let graph = plane();
    // With location 0 set aside the tree over the other five and the depot
    // weighs 162874, and the nearest of them is 46066 away.
    assert_eq!(one_tree_bound(&graph, &vec![0, 1, 2, 3, 4, 5]), 208940);
    assert_eq!(cheapest_tour(&graph, &[0, 1, 2, 3, 4, 5]), 283503);
}

#[test]
fn the_greedy_tour_is_no_cheaper_than_the_cheapest_tour() {
    let graph = plane();
    for set in subsets(6) {
        let tour = nearest_neighbor(&graph, &set);
        assert_eq!(tour.len(), set.len() + 2);
        let mut stops = tour[1..tour.len() - 1].to_vec();
        stops.sort();
        assert_eq!(stops, set);
        assert!(cost(&graph, &tour) >= cheapest_tour(&graph, &set));
    }
}

#[test]
fn a_tour_over_more_locations_is_no_cheaper() {
    let graph = plane();
    for set in subsets(6) {
        for extra in 0..6 {
            if !set.contains(&extra) {
                let mut larger = set.clone();
                larger.push(extra);
                assert!(cheapest_tour(&graph, &larger) >= cheapest_tour(&graph, &set));
                assert!(cheapest_tour(&graph, &larger) >= one_tree_bound(&graph, &set));
            }
        }
    }
}

/// All ways to hand `tips.len()` locations to `k` riders.
fn assignments(tips: &[u64], k: usize) -> Vec<Vec<Rider>> {
    let mut all = vec![];
    let mut count = 1;
    for _ in 0..tips.len() {
        count *= k;
    }
    for code in 0..count {
        let mut riders: Vec<Rider> = (0..k).map(Rider::new).collect();
        let mut rest = code;
        for (location, tip) in tips.iter().enumerate() {
            riders[rest % k].add_tip(location, *tip);
            rest /= k;
        }
        all.push(riders);
    }
    all
}

fn within(graph: &DistanceGraph, budget: u128, riders: &[Rider]) -> bool {
    riders
        .iter()
        .all(|rider| cost(graph, &nearest_neighbor(graph, &rider.locations())) <= budget)
}

fn least_gap(graph: &DistanceGraph, budget: u128, tips: &[u64], k: usize) -> Option<i128> {
    assignments(tips, k)
        .iter()
        .filter(|riders| within(graph, budget, riders))
        .map(|riders| gap(&vec![], riders))
        .filter(|val| *val > 0)
        .min()
}

fn pool(tips: &[u64]) -> Vec<(usize, u64)> {
    tips.iter().cloned().enumerate().collect()
}

#[test]
fn without_a_budget_the_search_finds_the_least_gap() {
    let cases: [(&[u64], usize); 6] = [
        (&[10, 1], 2),
        (&[7, 5, 4, 1], 3),
        (&[9, 9, 8, 2, 2, 1], 2),
        (&[6, 5, 4, 3, 2, 1], 3),
        (&[3, 3, 3, 3, 3], 2),
        (&[8, 1, 1, 1, 1, 1], 3),
    ];
    for (tips, k) in cases.iter() {
        let tree = solve(plane(), u128::MAX, pool(tips), *k).unwrap();
        let total: u64 = tips.iter().sum();
        let start = (total as i128) * (*k as i128 - 1);
        let least = least_gap(&plane(), u128::MAX, tips, *k).unwrap();
        assert_eq!(tree.best_difference(), least.min(start), "tips {:?}", tips);
    }
}

#[test]
fn with_a_budget_no_cut_loses_a_better_assignment() {
    // With every tip different each node has one location to hand out, so
    // the search leaves out only what the bounds cut.
    let cases: [(&[u64], usize, u128); 5] = [
        (&[6, 5, 4, 3, 2, 1], 2, 260_000),
        (&[6, 5, 4, 3, 2, 1], 2, 200_000),
        (&[6, 5, 4, 3, 2, 1], 3, 180_000),
        (&[9, 7, 6, 4, 3, 2], 3, 150_000),
        (&[12, 7, 6, 4, 3, 2], 2, 120_000),
    ];
    for (tips, k, budget) in cases.iter() {
        let graph = plane();
        let tree = solve(plane(), *budget, pool(tips), *k).unwrap();
        let total: u64 = tips.iter().sum();
        let start = (total as i128) * (*k as i128 - 1);
        let least = least_gap(&graph, *budget, tips, *k).unwrap_or(start);
        assert_eq!(tree.best_difference(), least.min(start), "tips {:?} budget {}", tips, budget);
        for route in tree.best_routes().iter() {
            assert!(cost(&graph, route) <= *budget);
        }
    }
}

#[test]
fn the_gap_of_a_node_bounds_the_gaps_below_it() {
    let tips: [u64; 4] = [7, 5, 4, 1];
    for riders in assignments(&tips[..2], 3) {
        let unassigned = vec![(2, 4), (3, 1)];
        let here = gap(&unassigned, &riders);
        for first in 0..3 {
            for second in 0..3 {
                let mut below: Vec<Rider> = riders.to_vec();
                below[first].add_tip(2, 4);
                below[second].add_tip(3, 1);
                assert!(gap(&vec![], &below) >= here);
            }
        }
    }
}
