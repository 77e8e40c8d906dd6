//! Tours in a graph whose weights obey the triangle inequality: leaving a
//! stop out never makes a tour dearer.

use crate::graph::{is_distance_table, leg, route_cost, route_in_graph};
use crate::tour::{
    greedy_order, greedy_tour, is_closed_tour, is_location_set, lemma_greedy_order_permutes,
};
use vstd::prelude::*;

verus! {

/// The direct way is never longer than the way over a third node.
pub open spec fn is_metric(weights: Seq<Seq<u64>>) -> bool {
    forall|a: int, b: int, c: int|
        0 <= a < weights.len() && 0 <= b < weights.len() && 0 <= c < weights.len()
            ==> #[trigger] weights[a][c] <= weights[a][b] + #[trigger] weights[b][c]
}

/// Every member of `set` is a member of `larger`.
pub open spec fn covers(larger: Seq<usize>, set: Seq<usize>) -> bool {
    forall|i: int| 0 <= i < set.len() ==> larger.contains(#[trigger] set[i])
}

/// One step costs no more than two steps over a third node.
pub proof fn lemma_leg_triangle(weights: Seq<Seq<u64>>, a: usize, b: usize, c: usize)
    requires
        is_metric(weights),
        a < weights.len(),
        b < weights.len(),
        c < weights.len(),
    ensures
        leg(weights, a, c) <= leg(weights, a, b) + leg(weights, b, c),
{
    if a != c && a != b && b != c {
        assert(weights[a as int][c as int] <= weights[a as int][b as int] + weights[b as int][c as int]);
    }
}

/// A route that leaves out one of its inner nodes costs no more.
pub proof fn lemma_shortcut(weights: Seq<Seq<u64>>, route: Seq<usize>, p: int)
    requires
        is_metric(weights),
        route_in_graph(weights.len(), route),
        0 < p < route.len() - 1,
    ensures
        route_cost(weights, route.remove(p)) <= route_cost(weights, route),
    decreases route.len(),
{
    let n = route.len() as int;
    let shorter = route.remove(p);
    let front = route.drop_last();
    assert(route[n - 1] < weights.len() && route[n - 2] < weights.len());
    if p == n - 2 {
        assert(route[p - 1] < weights.len());
        lemma_leg_triangle(weights, route[p - 1], route[p], route[n - 1]);
        assert(shorter.drop_last() =~= front.drop_last());
        assert(shorter[shorter.len() - 2] == route[p - 1]);
        assert(shorter[shorter.len() - 1] == route[n - 1]);
        assert(front[front.len() - 2] == route[p - 1]);
        assert(front[front.len() - 1] == route[p]);
        assert(route_cost(weights, front) == route_cost(weights, front.drop_last()) + leg(
            weights,
            route[p - 1],
            route[p],
        ));
    } else {
        assert(route_in_graph(weights.len(), front)) by {
            assert forall|i: int| 0 <= i < front.len() implies (#[trigger] front[i])
                < weights.len() by {
                assert(front[i] == route[i]);
            }
        }
        lemma_shortcut(weights, front, p);
        assert(shorter.drop_last() =~= front.remove(p));
        assert(shorter[shorter.len() - 2] == route[n - 2]);
        assert(shorter[shorter.len() - 1] == route[n - 1]);
    }
}

/// A closed tour with one of its stops left out is a closed tour over the
/// other locations.
pub proof fn lemma_leave_out_stop(
    weights: Seq<Seq<u64>>,
    larger: Seq<usize>,
    tour: Seq<usize>,
    p: int,
)
    requires
        is_location_set(weights, larger),
        is_closed_tour(weights, larger, tour),
        1 <= p < tour.len() - 1,
    ensures
        is_location_set(weights, larger.remove(larger.index_of(tour[p]))),
        is_closed_tour(weights, larger.remove(larger.index_of(tour[p])), tour.remove(p)),
        forall|x: usize|
            larger.contains(x) && x != tour[p] ==> larger.remove(larger.index_of(tour[p])).contains(
                x,
            ),
{
    let at = larger.index_of(tour[p]);
    assert(larger.contains(tour[p]));
    let fewer = larger.remove(at);
    let shorter = tour.remove(p);
    assert forall|x: usize| larger.contains(x) && x != tour[p] implies fewer.contains(x) by {
        let i = choose|i: int| 0 <= i < larger.len() && larger[i] == x;
        if i < at {
            assert(fewer[i] == x);
        } else {
            assert(fewer[i - 1] == x);
        }
    }
    assert(fewer.no_duplicates()) by {
        assert forall|i: int, j: int| 0 <= i < fewer.len() && 0 <= j < fewer.len() && i
            != j implies fewer[i] != fewer[j] by {
            let a = if i < at { i } else { i + 1 };
            let b = if j < at { j } else { j + 1 };
            assert(fewer[i] == larger[a] && fewer[j] == larger[b]);
        }
    }
    assert forall|i: int| 0 <= i < fewer.len() implies (#[trigger] fewer[i]) + 1
        < weights.len() by {
        let a = if i < at { i } else { i + 1 };
        assert(fewer[i] == larger[a]);
    }
    assert forall|i: int, j: int| 1 <= i < j < shorter.len() - 1 implies shorter[i]
        != shorter[j] by {
        let a = if i < p { i } else { i + 1 };
        let b = if j < p { j } else { j + 1 };
        assert(shorter[i] == tour[a] && shorter[j] == tour[b]);
    }
    assert forall|i: int| 1 <= i < shorter.len() - 1 implies fewer.contains(
        #[trigger] shorter[i],
    ) by {
        let a = if i < p { i } else { i + 1 };
        assert(shorter[i] == tour[a]);
        assert(larger.contains(tour[a]));
        assert(tour[a] != tour[p]);
    }
}

/// Where all stops of a closed tour over `larger` are members of `set`, and
/// `larger` holds every member of `set`, the tour is a closed tour over
/// `set`.
pub proof fn lemma_same_stops(
    weights: Seq<Seq<u64>>,
    larger: Seq<usize>,
    set: Seq<usize>,
    tour: Seq<usize>,
)
    requires
        is_location_set(weights, larger),
        is_location_set(weights, set),
        covers(larger, set),
        is_closed_tour(weights, larger, tour),
        forall|i: int| 1 <= i < tour.len() - 1 ==> set.contains(#[trigger] tour[i]),
    ensures
        is_closed_tour(weights, set, tour),
{
    let stops = tour.subrange(1, tour.len() - 1);
    assert(stops.no_duplicates());
    stops.unique_seq_to_set();
    set.unique_seq_to_set();
    larger.unique_seq_to_set();
    assert(stops.to_set().subset_of(set.to_set())) by {
        assert forall|x: usize| stops.to_set().contains(x) implies set.to_set().contains(x) by {
            let i = choose|i: int| 0 <= i < stops.len() && stops[i] == x;
            assert(stops[i] == tour[i + 1]);
            assert(set.contains(tour[i + 1]));
        }
    }
    assert(set.to_set().subset_of(larger.to_set())) by {
        assert forall|x: usize| set.to_set().contains(x) implies larger.to_set().contains(x) by {
            let i = choose|i: int| 0 <= i < set.len() && set[i] == x;
            assert(larger.contains(set[i]));
        }
    }
    vstd::seq_lib::seq_to_set_is_finite(set);
    vstd::seq_lib::seq_to_set_is_finite(larger);
    vstd::set_lib::lemma_len_subset(stops.to_set(), set.to_set());
    vstd::set_lib::lemma_len_subset(set.to_set(), larger.to_set());
}

/// Where the weights obey the triangle inequality, a closed tour over a set
/// of locations costs no less than the cheapest closed tour over a part of
/// the set: for each closed tour over `larger` there is one over `set` that
/// costs no more.
pub proof fn lemma_tour_over_subset(
    weights: Seq<Seq<u64>>,
    larger: Seq<usize>,
    set: Seq<usize>,
    tour: Seq<usize>,
)
    requires
        is_distance_table(weights),
        is_metric(weights),
        is_location_set(weights, larger),
        is_location_set(weights, set),
        covers(larger, set),
        is_closed_tour(weights, larger, tour),
    ensures
        exists|short: Seq<usize>| #[trigger]
            is_closed_tour(weights, set, short) && route_cost(weights, short) <= route_cost(
                weights,
                tour,
            ),
    decreases tour.len(),
{
    if exists|p: int| 1 <= p < tour.len() - 1 && !set.contains(#[trigger] tour[p]) {
        let p = choose|p: int| 1 <= p < tour.len() - 1 && !set.contains(#[trigger] tour[p]);
        let fewer = larger.remove(larger.index_of(tour[p]));
        lemma_leave_out_stop(weights, larger, tour, p);
        assert(covers(fewer, set)) by {
            assert forall|i: int| 0 <= i < set.len() implies fewer.contains(#[trigger] set[i]) by {
                assert(larger.contains(set[i]));
                assert(set.contains(set[i]));
            }
        }
        assert(route_in_graph(weights.len(), tour)) by {
            assert forall|i: int| 0 <= i < tour.len() implies (#[trigger] tour[i])
                < weights.len() by {
                if 1 <= i < tour.len() - 1 {
                    assert(larger.contains(tour[i]));
                }
            }
        }
        lemma_shortcut(weights, tour, p);
        lemma_tour_over_subset(weights, fewer, set, tour.remove(p));
        let short = choose|short: Seq<usize>| #[trigger]
            is_closed_tour(weights, set, short) && route_cost(weights, short) <= route_cost(
                weights,
                tour.remove(p),
            );
        assert(is_closed_tour(weights, set, short) && route_cost(weights, short) <= route_cost(
            weights,
            tour,
        ));
    } else {
        lemma_same_stops(weights, larger, set, tour);
    }
}

/// The nearest-neighbour tour over a set of locations is a closed tour over
/// the set.
pub proof fn lemma_greedy_tour_is_closed(weights: Seq<Seq<u64>>, set: Seq<usize>)
    requires
        is_distance_table(weights),
        weights.len() <= usize::MAX,
        is_location_set(weights, set),
    ensures
        is_closed_tour(weights, set, greedy_tour(weights, set)),
{
    broadcast use vstd::seq_lib::group_to_multiset_ensures;

    let depot = (weights.len() - 1) as usize;
    let order = greedy_order(weights, depot, set);
    let tour = greedy_tour(weights, set);
    lemma_greedy_order_permutes(weights, depot, set);
    set.lemma_multiset_has_no_duplicates();
    order.lemma_multiset_has_no_duplicates_conv();
    assert forall|i: int| 1 <= i < tour.len() - 1 implies set.contains(#[trigger] tour[i]) by {
        assert(tour[i] == order[i - 1]);
        assert(order.to_multiset().contains(order[i - 1]));
        assert(set.to_multiset().contains(order[i - 1]));
    }
    assert forall|i: int, j: int| 1 <= i < j < tour.len() - 1 implies tour[i] != tour[j] by {
        assert(tour[i] == order[i - 1] && tour[j] == order[j - 1]);
    }
}

} // verus!
