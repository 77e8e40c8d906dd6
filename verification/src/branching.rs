//! One step of the search: which riders a node branches on, and which of the
//! locations that carry the highest tip each of them is given.

use crate::graph::{cost, route_cost, route_in_graph, DistanceGraph};
use crate::ledger::locations_of;
use crate::objective::roster;
use crate::rider::{Rider, RiderView};
use crate::tour::{greedy_tour, nearest_neighbor};
use vstd::prelude::*;

verus! {

/// The highest tip among the entries; 0 where there is none.
pub open spec fn top_tip(entries: Seq<(usize, u64)>) -> u64
    decreases entries.len(),
{
    if entries.len() == 0 {
        0
    } else {
        let earlier = top_tip(entries.drop_last());
        if entries.last().1 > earlier {
            entries.last().1
        } else {
            earlier
        }
    }
}

/// What the nearest-neighbour tour of a rider costs that holds `held` and
/// is given `location` as well.
pub open spec fn trial_cost(weights: Seq<Seq<u64>>, held: Seq<usize>, location: usize) -> nat {
    route_cost(weights, greedy_tour(weights, held.push(location)))
}

/// The position of the location that a rider holding `held` is given, among
/// the first `n` unassigned entries: of those that carry the highest tip of
/// all, the one with the cheapest trial tour, and of several the first.
/// It is -1 where none of the `n` carries the highest tip.
pub open spec fn pick(
    weights: Seq<Seq<u64>>,
    unassigned: Seq<(usize, u64)>,
    held: Seq<usize>,
    n: nat,
) -> int
    decreases n,
{
    if n == 0 {
        -1
    } else {
        let earlier = pick(weights, unassigned, held, (n - 1) as nat);
        if unassigned[n - 1].1 != top_tip(unassigned) {
            earlier
        } else if earlier < 0 || trial_cost(weights, held, unassigned[n - 1].0) < trial_cost(
            weights,
            held,
            unassigned[earlier].0,
        ) {
            n - 1
        } else {
            earlier
        }
    }
}

/// Rider `i` stands for all riders with its tip sum: no rider before it has
/// the same sum. Riders with equal sums are interchangeable, so a node
/// branches on one of them only.
pub open spec fn is_representative(riders: Seq<RiderView>, i: int) -> bool {
    forall|j: int| 0 <= j < i ==> (#[trigger] riders[j]).sum() != riders[i].sum()
}

/// The highest tip is the tip of some entry and no entry has a higher one.
pub proof fn lemma_top_tip(entries: Seq<(usize, u64)>)
    ensures
        forall|i: int| 0 <= i < entries.len() ==> (#[trigger] entries[i]).1 <= top_tip(entries),
        entries.len() > 0 ==> exists|i: int|
            0 <= i < entries.len() && (#[trigger] entries[i]).1 == top_tip(entries),
    decreases entries.len(),
{
    if entries.len() > 0 {
        let front = entries.drop_last();
        lemma_top_tip(front);
        assert forall|i: int| 0 <= i < entries.len() implies (#[trigger] entries[i]).1 <= top_tip(
            entries,
        ) by {
            if i < entries.len() - 1 {
                assert(front[i] == entries[i]);
            }
        }
        if entries.last().1 > top_tip(front) || front.len() == 0 {
            assert(entries[entries.len() - 1].1 == top_tip(entries));
        } else {
            let i = choose|i: int| 0 <= i < front.len() && (#[trigger] front[i]).1 == top_tip(front);
            assert(entries[i].1 == top_tip(entries));
        }
    }
}

/// Among the first `n` entries the pick is one that carries the highest tip,
/// where there is such an entry.
pub proof fn lemma_pick_range(
    weights: Seq<Seq<u64>>,
    unassigned: Seq<(usize, u64)>,
    held: Seq<usize>,
    n: nat,
)
    requires
        n <= unassigned.len(),
    ensures
        -1 <= pick(weights, unassigned, held, n) < n,
        pick(weights, unassigned, held, n) >= 0 ==> unassigned[pick(
            weights,
            unassigned,
            held,
            n,
        )].1 == top_tip(unassigned),
        (exists|i: int| 0 <= i < n && (#[trigger] unassigned[i]).1 == top_tip(unassigned)) ==> pick(
            weights,
            unassigned,
            held,
            n,
        ) >= 0,
    decreases n,
{
    if n > 0 {
        lemma_pick_range(weights, unassigned, held, (n - 1) as nat);
    }
}

/// Of a pool that is not empty, one location is picked.
pub proof fn lemma_pick_exists(
    weights: Seq<Seq<u64>>,
    unassigned: Seq<(usize, u64)>,
    held: Seq<usize>,
)
    requires
        unassigned.len() > 0,
    ensures
        0 <= pick(weights, unassigned, held, unassigned.len()) < unassigned.len(),
{
    lemma_top_tip(unassigned);
    lemma_pick_range(weights, unassigned, held, unassigned.len());
}

/// Finds the highest tip among the entries.
pub fn highest_tip(entries: &Vec<(usize, u64)>) -> (top: u64)
    ensures
        top == top_tip(entries@),
{
    let mut top: u64 = 0;
    let mut i: usize = 0;
    while i < entries.len()
        invariant
            i <= entries.len(),
            top == top_tip(entries@.take(i as int)),
        decreases entries.len() - i,
    {
        proof {
            assert(entries@.take(i + 1).drop_last() =~= entries@.take(i as int));
        }
        if entries[i].1 > top {
            top = entries[i].1;
        }
        i = i + 1;
    }
    assert(entries@.take(i as int) =~= entries@);
    top
}

/// Computes what the nearest-neighbour tour of a rider costs that holds
/// `held` and is given `location` as well.
pub fn try_location(graph: &DistanceGraph, held: &Vec<usize>, location: usize) -> (price: u128)
    requires
        route_in_graph(graph@.len(), held@),
        location < graph@.len(),
    ensures
        price == trial_cost(graph@, held@, location),
{
    let mut stops: Vec<usize> = held.clone();
    assert(stops@ =~= held@);
    stops.push(location);
    let tour = nearest_neighbor(graph, &stops);
    cost(graph, &tour)
}

/// Chooses the location that `rider` is given: of the unassigned locations
/// that carry the highest tip, the one after whose addition the rider's
/// nearest-neighbour tour is cheapest; of several such, the first.
pub fn choose_location(
    graph: &DistanceGraph,
    unassigned: &Vec<(usize, u64)>,
    rider: &Rider,
) -> (slot: usize)
    requires
        unassigned.len() > 0,
        route_in_graph(graph@.len(), locations_of(unassigned@)),
        route_in_graph(graph@.len(), locations_of(rider@.orders)),
    ensures
        slot == pick(graph@, unassigned@, locations_of(rider@.orders), unassigned@.len()),
        slot < unassigned.len(),
{
    let top = highest_tip(unassigned);
    let held = rider.locations();
    let mut slot: usize = 0;
    let mut found = false;
    let mut price: u128 = 0;
    let mut i: usize = 0;
    while i < unassigned.len()
        invariant
            i <= unassigned.len(),
            top == top_tip(unassigned@),
            held@ == locations_of(rider@.orders),
            route_in_graph(graph@.len(), locations_of(unassigned@)),
            route_in_graph(graph@.len(), held@),
            found == (pick(graph@, unassigned@, held@, i as nat) >= 0),
            found ==> slot == pick(graph@, unassigned@, held@, i as nat) && slot < i && price
                == trial_cost(graph@, held@, unassigned[slot as int].0),
        decreases unassigned.len() - i,
    {
        if unassigned[i].1 == top {
            assert(locations_of(unassigned@)[i as int] == unassigned[i as int].0);
            let here = try_location(graph, &held, unassigned[i].0);
            if !found || here < price {
                slot = i;
                price = here;
                found = true;
            }
        }
        i = i + 1;
    }
    proof {
        lemma_pick_exists(graph@, unassigned@, held@);
    }
    slot
}

/// Tells whether rider `i` stands for all riders with its tip sum: whether
/// no rider before it has the same sum.
pub fn represents(riders: &Vec<Rider>, i: usize) -> (first: bool)
    requires
        i < riders.len(),
    ensures
        first == is_representative(roster(riders@), i as int),
{
    let sum = riders[i].sum_tips();
    let mut j: usize = 0;
    while j < i
        invariant
            j <= i < riders.len(),
            sum == roster(riders@)[i as int].sum(),
            forall|h: int| 0 <= h < j ==> (#[trigger] roster(riders@)[h]).sum() != sum,
        decreases i - j,
    {
        if riders[j].sum_tips() == sum {
            assert(roster(riders@)[j as int].sum() == roster(riders@)[i as int].sum());
            return false;
        }
        j = j + 1;
    }
    true
}

} // verus!
