//! The nearest-neighbour tour: from the depot always on to the nearest stop
//! not yet visited, and back to the depot at the end.
//!
//! Among stops at the same distance the one with the highest node index is
//! taken. That makes the tour a function of the graph and of the set of
//! stops alone.

use crate::graph::{is_distance_table, route_in_graph, DistanceGraph};
use vstd::prelude::*;

verus! {

/// `set` is a set of locations: none occurs twice, and each is a node of
/// the graph other than the depot.
pub open spec fn is_location_set(weights: Seq<Seq<u64>>, set: Seq<usize>) -> bool {
    &&& set.no_duplicates()
    &&& forall|i: int| 0 <= i < set.len() ==> (#[trigger] set[i]) + 1 < weights.len()
}

/// `tour` is a closed tour over `set`: it starts and ends at the depot and
/// in between visits each member of `set` once and nothing else.
pub open spec fn is_closed_tour(weights: Seq<Seq<u64>>, set: Seq<usize>, tour: Seq<usize>) -> bool {
    &&& tour.len() == set.len() + 2
    &&& tour[0] == weights.len() - 1
    &&& tour[tour.len() - 1] == weights.len() - 1
    &&& forall|i: int, j: int| 1 <= i < j < tour.len() - 1 ==> tour[i] != tour[j]
    &&& forall|i: int| 1 <= i < tour.len() - 1 ==> set.contains(#[trigger] tour[i])
}

/// From `from`, stop `a` is taken before stop `b`: it is nearer, or as near
/// and of higher index.
pub open spec fn goes_before(weights: Seq<Seq<u64>>, from: usize, a: usize, b: usize) -> bool {
    let to_a = weights[from as int][a as int];
    let to_b = weights[from as int][b as int];
    to_a < to_b || (to_a == to_b && a > b)
}

/// The position in `stops` of the stop that is taken first from `from`; the
/// earliest such position where a stop occurs twice.
pub open spec fn nearest_index(weights: Seq<Seq<u64>>, from: usize, stops: Seq<usize>) -> int
    decreases stops.len(),
{
    if stops.len() <= 1 {
        0
    } else {
        let earlier = nearest_index(weights, from, stops.drop_last());
        if goes_before(weights, from, stops.last(), stops[earlier]) {
            stops.len() - 1
        } else {
            earlier
        }
    }
}

/// The order in which the stops are visited from `from`.
pub open spec fn greedy_order(weights: Seq<Seq<u64>>, from: usize, stops: Seq<usize>) -> Seq<
    usize,
>
    decreases stops.len(),
    via greedy_order_shrinks
{
    if stops.len() == 0 {
        Seq::empty()
    } else {
        let k = nearest_index(weights, from, stops);
        seq![stops[k]] + greedy_order(weights, stops[k], stops.remove(k))
    }
}

#[via_fn]
proof fn greedy_order_shrinks(weights: Seq<Seq<u64>>, from: usize, stops: Seq<usize>) {
    if stops.len() > 0 {
        lemma_nearest_index(weights, from, stops);
    }
}

/// The nearest-neighbour tour over `stops`: depot, the stops in greedy order,
/// depot. The depot is the last node of the graph.
pub open spec fn greedy_tour(weights: Seq<Seq<u64>>, stops: Seq<usize>) -> Seq<usize> {
    let depot = (weights.len() - 1) as usize;
    seq![depot] + greedy_order(weights, depot, stops) + seq![depot]
}

/// The nearest stop is one of the stops, and none goes before it.
pub proof fn lemma_nearest_index(weights: Seq<Seq<u64>>, from: usize, stops: Seq<usize>)
    requires
        stops.len() > 0,
    ensures
        0 <= nearest_index(weights, from, stops) < stops.len(),
        forall|j: int|
            0 <= j < stops.len() ==> !goes_before(
                weights,
                from,
                #[trigger] stops[j],
                stops[nearest_index(weights, from, stops)],
            ),
    decreases stops.len(),
{
    if stops.len() > 1 {
        lemma_nearest_index(weights, from, stops.drop_last());
        let earlier = nearest_index(weights, from, stops.drop_last());
        assert forall|j: int| 0 <= j < stops.len() implies !goes_before(
            weights,
            from,
            #[trigger] stops[j],
            stops[nearest_index(weights, from, stops)],
        ) by {
            if j < stops.len() - 1 {
                assert(stops.drop_last()[j] == stops[j]);
            }
        }
    }
}

/// The greedy order visits each stop exactly once.
pub proof fn lemma_greedy_order_permutes(weights: Seq<Seq<u64>>, from: usize, stops: Seq<usize>)
    ensures
        greedy_order(weights, from, stops).len() == stops.len(),
        greedy_order(weights, from, stops).to_multiset() == stops.to_multiset(),
    decreases stops.len(),
{
    broadcast use vstd::seq_lib::group_to_multiset_ensures;

    if stops.len() > 0 {
        lemma_nearest_index(weights, from, stops);
        let k = nearest_index(weights, from, stops);
        let rest = greedy_order(weights, stops[k], stops.remove(k));
        lemma_greedy_order_permutes(weights, stops[k], stops.remove(k));
        vstd::seq_lib::to_multiset_remove(stops, k);
        vstd::seq_lib::to_multiset_insert(rest, 0, stops[k]);
        assert(rest.insert(0, stops[k]) =~= seq![stops[k]] + rest);
        assert(stops.to_multiset() =~= stops.remove(k).to_multiset().insert(stops[k]));
    } else {
        assert(stops =~= Seq::<usize>::empty());
    }
}

/// Every node of the greedy order is one of the stops.
pub proof fn lemma_greedy_order_in_graph(
    weights: Seq<Seq<u64>>,
    from: usize,
    stops: Seq<usize>,
    nodes: nat,
)
    requires
        route_in_graph(nodes, stops),
    ensures
        route_in_graph(nodes, greedy_order(weights, from, stops)),
    decreases stops.len(),
{
    if stops.len() > 0 {
        lemma_nearest_index(weights, from, stops);
        let k = nearest_index(weights, from, stops);
        lemma_greedy_order_in_graph(weights, stops[k], stops.remove(k), nodes);
    }
}

/// Finds the stop that is taken first from `from`.
fn pick_nearest(graph: &DistanceGraph, from: usize, stops: &Vec<usize>) -> (k: usize)
    requires
        stops.len() > 0,
        from < graph@.len(),
        route_in_graph(graph@.len(), stops@),
    ensures
        k == nearest_index(graph@, from, stops@),
        k < stops.len(),
{
    let mut k: usize = 0;
    let mut best = graph.distance(from, stops[0]);
    let mut i: usize = 1;
    assert(stops@.take(1).drop_last().len() == 0);
    while i < stops.len()
        invariant
            1 <= i <= stops.len(),
            from < graph@.len(),
            route_in_graph(graph@.len(), stops@),
            k < i,
            k == nearest_index(graph@, from, stops@.take(i as int)),
            best == graph@[from as int][stops[k as int] as int],
        decreases stops.len() - i,
    {
        let there = graph.distance(from, stops[i]);
        proof {
            assert(stops@.take(i + 1).drop_last() =~= stops@.take(i as int));
        }
        if there < best || (there == best && stops[i] > stops[k]) {
            k = i;
            best = there;
        }
        i = i + 1;
    }
    assert(stops@.take(i as int) =~= stops@);
    k
}

/// Builds the nearest-neighbour tour over `stops`: it starts at the depot,
/// moves on to the nearest stop not yet visited until none is left, and
/// returns to the depot.
pub fn nearest_neighbor(graph: &DistanceGraph, stops: &Vec<usize>) -> (tour: Vec<usize>)
    requires
        route_in_graph(graph@.len(), stops@),
    ensures
        tour@ == greedy_tour(graph@, stops@),
        tour.len() == stops.len() + 2,
        tour[0] == graph@.len() - 1,
        tour[tour.len() - 1] == graph@.len() - 1,
        tour@.subrange(1, tour.len() - 1).to_multiset() == stops@.to_multiset(),
        route_in_graph(graph@.len(), tour@),
{
    let depot = graph.depot();
    let mut left: Vec<usize> = stops.clone();
    assert(left@ =~= stops@);
    let mut tour: Vec<usize> = Vec::new();
    tour.push(depot);
    let mut here = depot;
    while left.len() > 0
        invariant
            is_distance_table(graph@),
            depot == graph@.len() - 1,
            here < graph@.len(),
            route_in_graph(graph@.len(), left@),
            route_in_graph(graph@.len(), tour@),
            tour.len() + left.len() == stops.len() + 1,
            tour@ + greedy_order(graph@, here, left@) == seq![depot] + greedy_order(
                graph@,
                depot,
                stops@,
            ),
        decreases left.len(),
    {
        let ghost before = tour@;
        let ghost pending = left@;
        let k = pick_nearest(graph, here, &left);
        let next = left.remove(k);
        tour.push(next);
        proof {
            let rest = greedy_order(graph@, next, left@);
            assert(greedy_order(graph@, here, pending) == seq![next] + rest);
            assert(tour@ + rest =~= before + (seq![next] + rest));
        }
        here = next;
    }
    proof {
        assert(tour@ + Seq::<usize>::empty() =~= tour@);
        lemma_greedy_order_permutes(graph@, depot, stops@);
        lemma_greedy_order_in_graph(graph@, depot, stops@, graph@.len());
        let order = greedy_order(graph@, depot, stops@);
        assert((tour@ + seq![depot]).subrange(1, tour.len() as int) =~= order);
    }
    tour.push(depot);
    tour
}

} // verus!
