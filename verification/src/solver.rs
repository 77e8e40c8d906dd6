//! The whole run: the inputs are checked, the bounds computed, and the
//! search started from the state in which no location is assigned.

use crate::graph::DistanceGraph;
use crate::ledger::{distinct_locations, has_location, sum_entries, tip_total};
use crate::objective::{
    loosest_gap, pool_total, relaxed_gap, relaxed_optimum, roster, roster_total,
    starting_gap,
};
use crate::laws::kept_or_improved;
use crate::partition::{are_locations, is_state, pool};
use crate::rider::{Rider, RiderView};
use crate::search::{search_outcome, CGATree, TreeView};
use vstd::prelude::*;

verus! {

/// Why a run cannot start.
#[derive(Debug, PartialEq, Eq, Clone, Copy)]
pub enum InputError {
    /// There are fewer than two riders, so there is no average of the others.
    TooFewRiders,
    /// A location is no node of the graph, or is the depot.
    UnknownLocation,
    /// A location occurs twice in the pool.
    RepeatedLocation,
    /// The tips are too large for the gaps to be computed.
    PoolTooLarge,
}

/// `k` riders with the ids `0` to `k - 1`, none with a location.
pub open spec fn fresh_roster(k: nat) -> Seq<RiderView> {
    Seq::new(k, |i: int| RiderView { id: i as usize, orders: Seq::empty(), route: Seq::empty() })
}

/// The tree from which a run over `weights` starts: no node visited, no
/// assignment found, the loosest gap to beat.
pub open spec fn starting_tree(weights: Seq<Seq<u64>>, budget: u128, total: nat, k: nat) -> TreeView {
    TreeView {
        weights,
        budget,
        best_difference: loosest_gap(total, k) as i128,
        best_riders: Seq::empty(),
        best_routes: Seq::empty(),
        opt_relax: relaxed_gap(total, k) as i128,
        nodes_number: 0,
        finished: false,
    }
}

/// The inputs that a run accepts.
pub open spec fn is_input(nodes: nat, locations: Seq<(usize, u64)>, k: nat) -> bool {
    &&& k >= 2
    &&& are_locations(nodes, locations)
    &&& distinct_locations(locations)
    &&& k * tip_total(locations) <= i128::MAX
}

/// Riders without locations hold no tips.
pub proof fn lemma_fresh_roster(k: nat)
    ensures
        roster_total(fresh_roster(k)) == 0,
    decreases k,
{
    if k > 0 {
        lemma_fresh_roster((k - 1) as nat);
        assert(fresh_roster(k).drop_last() =~= fresh_roster((k - 1) as nat));
        assert(fresh_roster(k).last().orders.len() == 0);
    }
}

/// The inputs that a run accepts make a state with the fresh roster.
pub proof fn lemma_input_is_state(nodes: nat, locations: Seq<(usize, u64)>, k: nat)
    requires
        is_input(nodes, locations, k),
    ensures
        is_state(nodes, locations, fresh_roster(k)),
        pool_total(locations, fresh_roster(k)) == tip_total(locations),
{
    lemma_fresh_roster(k);
    let riders = fresh_roster(k);
    assert forall|i: int, l: usize| 0 <= i < riders.len() implies !#[trigger] has_location(
        riders[i].orders,
        l,
    ) by {
        assert(riders[i].orders.len() == 0);
    }
}

/// Makes `k` riders with the ids `0` to `k - 1`.
pub fn fresh_riders(k: usize) -> (riders: Vec<Rider>)
    ensures
        roster(riders@) == fresh_roster(k as nat),
{
    let mut riders: Vec<Rider> = Vec::new();
    let mut i: usize = 0;
    while i < k
        invariant
            i <= k,
            riders.len() == i,
            forall|j: int|
                0 <= j < i ==> (#[trigger] riders[j])@ == (RiderView {
                    id: j as usize,
                    orders: Seq::empty(),
                    route: Seq::empty(),
                }),
        decreases k - i,
    {
        riders.push(Rider::new(i));
        i = i + 1;
    }
    assert(roster(riders@) =~= fresh_roster(k as nat));
    riders
}

/// Tells whether every location of the entries is a node of the graph
/// other than the depot.
pub fn all_known(graph: &DistanceGraph, entries: &Vec<(usize, u64)>) -> (known: bool)
    ensures
        known == are_locations(graph@.len(), entries@),
{
    let depot = graph.depot();
    let mut i: usize = 0;
    while i < entries.len()
        invariant
            i <= entries.len(),
            depot == graph@.len() - 1,
            forall|j: int| 0 <= j < i ==> (#[trigger] entries[j]).0 + 1 < graph@.len(),
        decreases entries.len() - i,
    {
        if entries[i].0 >= depot {
            return false;
        }
        i = i + 1;
    }
    true
}

/// Tells whether no location occurs in two entries.
pub fn all_distinct(entries: &Vec<(usize, u64)>) -> (distinct: bool)
    ensures
        distinct == distinct_locations(entries@),
{
    let mut j: usize = 0;
    while j < entries.len()
        invariant
            j <= entries.len(),
            forall|a: int, b: int| 0 <= a < b < j ==> entries[a].0 != entries[b].0,
        decreases entries.len() - j,
    {
        let mut i: usize = 0;
        while i < j
            invariant
                i <= j < entries.len(),
                forall|a: int| 0 <= a < i ==> entries[a].0 != entries[j as int].0,
            decreases j - i,
        {
            if entries[i].0 == entries[j].0 {
                return false;
            }
            i = i + 1;
        }
        j = j + 1;
    }
    true
}

/// Runs the search over `graph` for the pool `locations` and `k` riders
/// with the travel budget `budget`, from the state in which no location is
/// assigned. The inputs are checked first, in the order of the errors.
pub fn solve(graph: DistanceGraph, budget: u128, locations: Vec<(usize, u64)>, k: usize) -> (run:
    Result<CGATree, InputError>)
    ensures
        run.is_ok() <==> is_input(graph@.len(), locations@, k as nat),
        run matches Ok(tree) ==> tree@ == search_outcome(
            starting_tree(graph@, budget, tip_total(locations@), k as nat),
            locations@,
            fresh_roster(k as nat),
        ),
        run matches Ok(tree) ==> kept_or_improved(
            starting_tree(graph@, budget, tip_total(locations@), k as nat),
            tree@,
            pool(locations@, fresh_roster(k as nat)),
            k as nat,
        ),
        run matches Err(e) ==> e == refusal(graph@.len(), locations@, k as nat),
{
    if k < 2 {
        return Err(InputError::TooFewRiders);
    }
    if !all_known(&graph, &locations) {
        return Err(InputError::UnknownLocation);
    }
    if !all_distinct(&locations) {
        return Err(InputError::RepeatedLocation);
    }
    let total = sum_entries(&locations);
    let limit: u128 = 0x7fff_ffff_ffff_ffff_ffff_ffff_ffff_ffff;
    if total > limit / (k as u128) {
        proof {
            assert(k * total > i128::MAX) by (nonlinear_arith)
                requires
                    k >= 2,
                    total > limit / (k as u128),
                    limit == i128::MAX,
            ;
        }
        return Err(InputError::PoolTooLarge);
    }
    proof {
        assert(k * total <= i128::MAX) by (nonlinear_arith)
            requires
                k >= 2,
                total <= limit / (k as u128),
                limit == i128::MAX,
        ;
        lemma_input_is_state(graph@.len(), locations@, k as nat);
    }
    let start = starting_gap(total, k);
    let opt = relaxed_optimum(total, k);
    let mut tree = CGATree::new(graph, budget, start, opt);
    let riders = fresh_riders(k);
    tree.search(locations, riders);
    Ok(tree)
}

/// The error with which a run refuses inputs that it does not accept: the
/// first that applies, in the order of the variants.
pub open spec fn refusal(nodes: nat, locations: Seq<(usize, u64)>, k: nat) -> InputError {
    if k < 2 {
        InputError::TooFewRiders
    } else if !are_locations(nodes, locations) {
        InputError::UnknownLocation
    } else if !distinct_locations(locations) {
        InputError::RepeatedLocation
    } else {
        InputError::PoolTooLarge
    }
}

} // verus!
