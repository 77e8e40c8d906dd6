//! What holds of every search, whatever the graph and the pool.

use crate::branching::{is_representative, lemma_pick_exists, pick};
use crate::ledger::{distinct_locations, has_location, lemma_distinct_locations, locations_of};
use crate::metric::covers;
use crate::objective::{lemma_gap_fits, pool_total, roster_total, scaled_gap, top_sum};
use crate::partition::{
    are_locations, disjoint, is_state, left_after, lemma_commit_keeps_partition, pool,
    riders_after,
};
use crate::rider::RiderView;
use crate::search::{
    branch_outcome, counted, holds_more, leaf_outcome, one_tree_prunes, search_outcome,
    tours_of, with_tours, within_budget, TreeView,
};
use crate::tour::is_location_set;
use vstd::prelude::*;

verus! {

/// The second tree has the graph, the budget and the stopping gap of the
/// first, a best gap that is no larger and a node count that is no smaller.
pub open spec fn follows(before: TreeView, after: TreeView) -> bool {
    &&& after.weights == before.weights
    &&& after.budget == before.budget
    &&& after.opt_relax == before.opt_relax
    &&& after.best_difference <= before.best_difference
    &&& after.nodes_number >= before.nodes_number
}

/// The best assignment of `tree` is a complete assignment of the pool
/// `entries`: its riders hold each entry once and nothing else, their tours
/// are their nearest-neighbour tours and stay within the budget, and the
/// best gap is the gap of that assignment.
pub open spec fn holds_pool(tree: TreeView, entries: Set<(usize, u64)>, k: nat) -> bool {
    &&& tree.best_riders.len() == k
    &&& disjoint(Seq::empty(), tree.best_riders)
    &&& pool(Seq::empty(), tree.best_riders) == entries
    &&& tree.best_difference == scaled_gap(Seq::empty(), tree.best_riders)
    &&& tree.best_difference > 0
    &&& tree.best_routes == tours_of(tree.weights, tree.best_riders)
    &&& within_budget(tree.weights, tree.budget, tree.best_routes)
    &&& forall|i: int|
        0 <= i < k ==> (#[trigger] tree.best_riders[i]).route == tree.best_routes[i]
}

/// The search from `before` to `after` over the pool `entries` has kept the
/// best assignment, or has replaced it by a complete assignment of the pool
/// with a smaller gap.
pub open spec fn kept_or_improved(
    before: TreeView,
    after: TreeView,
    entries: Set<(usize, u64)>,
    k: nat,
) -> bool {
    &&& follows(before, after)
    &&& before.finished ==> after == before
    &&& {
        ||| (after.best_difference == before.best_difference && after.best_riders
            == before.best_riders && after.best_routes == before.best_routes)
        ||| (after.best_difference < before.best_difference && holds_pool(after, entries, k))
    }
}

/// The tours leave the sums of the riders as they are.
pub proof fn lemma_tours_keep_sums(riders: Seq<RiderView>, tours: Seq<Seq<usize>>)
    ensures
        roster_total(with_tours(riders, tours)) == roster_total(riders),
        top_sum(with_tours(riders, tours)) == top_sum(riders),
    decreases riders.len(),
{
    if riders.len() > 0 {
        lemma_tours_keep_sums(riders.drop_last(), tours);
        assert(with_tours(riders, tours).drop_last() =~= with_tours(riders.drop_last(), tours));
    }
}

/// A complete assignment that is looked at is kept out or becomes the best
/// one, and then holds the pool.
pub proof fn lemma_leaf_keeps_or_improves(
    tree: TreeView,
    riders: Seq<RiderView>,
    val: i128,
    nodes: nat,
)
    requires
        is_state(nodes, Seq::empty(), riders),
        val == scaled_gap(Seq::empty(), riders),
        val < tree.best_difference,
        !tree.finished,
    ensures
        kept_or_improved(
            tree,
            leaf_outcome(tree, riders, val),
            pool(Seq::empty(), riders),
            riders.len(),
        ),
{
    let tours = tours_of(tree.weights, riders);
    let after = leaf_outcome(tree, riders, val);
    if val > 0 && within_budget(tree.weights, tree.budget, tours) {
        let routed = with_tours(riders, tours);
        lemma_tours_keep_sums(riders, tours);
        assert(tours_of(tree.weights, routed) =~= tours);
        assert(pool(Seq::empty(), routed) =~= pool(Seq::empty(), riders)) by {
            assert forall|e: (usize, u64)| pool(Seq::empty(), routed).contains(e) <==> pool(
                Seq::empty(),
                riders,
            ).contains(e) by {
                if pool(Seq::empty(), routed).contains(e) {
                    let i = choose|i: int|
                        0 <= i < routed.len() && (#[trigger] routed[i]).orders.contains(e);
                    assert(riders[i].orders.contains(e));
                }
                if pool(Seq::empty(), riders).contains(e) {
                    let i = choose|i: int|
                        0 <= i < riders.len() && (#[trigger] riders[i]).orders.contains(e);
                    assert(routed[i].orders.contains(e));
                }
            }
        }
        assert(disjoint(Seq::empty(), routed)) by {
            assert forall|i: int| 0 <= i < routed.len() implies (#[trigger] routed[i]).orders
                == riders[i].orders by {}
            assert forall|i: int, j: int, l: usize|
                0 <= i < routed.len() && 0 <= j < routed.len() && i != j
                    && #[trigger] has_location(
                    routed[i].orders,
                    l,
                ) implies !#[trigger] has_location(routed[j].orders, l) by {
                assert(has_location(riders[i].orders, l));
                assert(!has_location(riders[j].orders, l));
            }
            assert forall|i: int| 0 <= i < routed.len() implies distinct_locations(
                (#[trigger] routed[i]).orders,
            ) by {
                assert(distinct_locations(riders[i].orders));
            }
            assert forall|i: int, l: usize|
                0 <= i < routed.len() && has_location(
                    Seq::<(usize, u64)>::empty(),
                    l,
                ) implies !#[trigger] has_location(routed[i].orders, l) by {}
        }
    }
}

/// The outcome of a search from a state keeps the best assignment or
/// replaces it by a complete assignment of the state's pool with a smaller
/// gap. So the best gap never grows, and whatever the tree holds as its best
/// assignment after a search holds every location of the pool once.
pub proof fn lemma_search_keeps_or_improves(
    tree: TreeView,
    unassigned: Seq<(usize, u64)>,
    riders: Seq<RiderView>,
    nodes: nat,
)
    requires
        is_state(nodes, unassigned, riders),
    ensures
        kept_or_improved(
            tree,
            search_outcome(tree, unassigned, riders),
            pool(unassigned, riders),
            riders.len(),
        ),
    decreases unassigned.len(), riders.len() + 1,
{
    if !tree.finished {
        let val = scaled_gap(unassigned, riders);
        if val >= tree.best_difference || one_tree_prunes(tree.weights, tree.budget, riders) {
        } else if unassigned.len() == 0 {
            assert(unassigned =~= Seq::empty());
            lemma_gap_fits(unassigned, riders);
            lemma_leaf_keeps_or_improves(counted(tree), riders, val as i128, nodes);
        } else {
            lemma_branches_keep_or_improve(counted(tree), unassigned, riders, 0, nodes);
        }
    }
}

/// The same of the branches of a node from rider `i` on.
pub proof fn lemma_branches_keep_or_improve(
    tree: TreeView,
    unassigned: Seq<(usize, u64)>,
    riders: Seq<RiderView>,
    i: nat,
    nodes: nat,
)
    requires
        is_state(nodes, unassigned, riders),
    ensures
        kept_or_improved(
            tree,
            branch_outcome(tree, unassigned, riders, i),
            pool(unassigned, riders),
            riders.len(),
        ),
        tree.finished ==> branch_outcome(tree, unassigned, riders, i) == tree,
    decreases unassigned.len(), riders.len() - i,
{
    if i >= riders.len() || unassigned.len() == 0 {
    } else if !is_representative(riders, i as int) {
        lemma_branches_keep_or_improve(tree, unassigned, riders, i + 1, nodes);
    } else {
        let held = locations_of(riders[i as int].orders);
        lemma_pick_exists(tree.weights, unassigned, held);
        let slot = pick(tree.weights, unassigned, held, unassigned.len());
        let left = left_after(unassigned, slot);
        let after = riders_after(unassigned, riders, i as int, slot);
        lemma_commit_keeps_partition(nodes, unassigned, riders, i as int, slot);
        lemma_search_keeps_or_improves(tree, left, after, nodes);
        let below = search_outcome(tree, left, after);
        lemma_branches_keep_or_improve(below, unassigned, riders, i + 1, nodes);
    }
}

/// The search from `tree` at the node `(unassigned, riders)` visits the node
/// `(seen, seen_riders)`: it is that node, or a node visited from one of its
/// branches.
pub open spec fn search_visits(
    tree: TreeView,
    unassigned: Seq<(usize, u64)>,
    riders: Seq<RiderView>,
    seen: Seq<(usize, u64)>,
    seen_riders: Seq<RiderView>,
) -> bool
    decreases unassigned.len(), riders.len() + 1,
{
    &&& !tree.finished
    &&& {
        ||| (unassigned == seen && riders == seen_riders)
        ||| {
            &&& scaled_gap(unassigned, riders) < tree.best_difference
            &&& !one_tree_prunes(tree.weights, tree.budget, riders)
            &&& unassigned.len() > 0
            &&& branches_visit(counted(tree), unassigned, riders, 0, seen, seen_riders)
        }
    }
}

/// The branches of the node `(unassigned, riders)` on the riders from `i`
/// on visit the node `(seen, seen_riders)`.
pub open spec fn branches_visit(
    tree: TreeView,
    unassigned: Seq<(usize, u64)>,
    riders: Seq<RiderView>,
    i: nat,
    seen: Seq<(usize, u64)>,
    seen_riders: Seq<RiderView>,
) -> bool
    decreases unassigned.len(), riders.len() - i,
    via branches_visit_shrinks
{
    if i >= riders.len() || unassigned.len() == 0 {
        false
    } else if !is_representative(riders, i as int) {
        branches_visit(tree, unassigned, riders, i + 1, seen, seen_riders)
    } else {
        let slot = pick(
            tree.weights,
            unassigned,
            locations_of(riders[i as int].orders),
            unassigned.len(),
        );
        let left = left_after(unassigned, slot);
        let after = riders_after(unassigned, riders, i as int, slot);
        search_visits(tree, left, after, seen, seen_riders) || branches_visit(
            search_outcome(tree, left, after),
            unassigned,
            riders,
            i + 1,
            seen,
            seen_riders,
        )
    }
}

#[via_fn]
proof fn branches_visit_shrinks(
    tree: TreeView,
    unassigned: Seq<(usize, u64)>,
    riders: Seq<RiderView>,
    i: nat,
    seen: Seq<(usize, u64)>,
    seen_riders: Seq<RiderView>,
) {
    if i < riders.len() && unassigned.len() > 0 {
        lemma_pick_exists(tree.weights, unassigned, locations_of(riders[i as int].orders));
    }
}

/// Every node that a search from a state visits is a state with the pool of
/// the first: the unassigned locations and the riders' locations together
/// are the locations that the search started with, each held once. The
/// riders hold what they held at the start or more, and the gap of the node
/// is no smaller than the gap at the start.
pub proof fn lemma_visited_nodes_hold_the_pool(
    tree: TreeView,
    unassigned: Seq<(usize, u64)>,
    riders: Seq<RiderView>,
    seen: Seq<(usize, u64)>,
    seen_riders: Seq<RiderView>,
)
    requires
        is_state(tree.weights.len(), unassigned, riders),
        search_visits(tree, unassigned, riders, seen, seen_riders),
    ensures
        is_state(tree.weights.len(), seen, seen_riders),
        pool(seen, seen_riders) == pool(unassigned, riders),
        lies_below(unassigned, riders, seen, seen_riders),
        holds_more(tree.weights, riders, seen_riders),
        scaled_gap(seen, seen_riders) >= scaled_gap(unassigned, riders),
    decreases unassigned.len(), riders.len() + 1,
{
    if unassigned == seen && riders == seen_riders {
        lemma_state_holds_location_sets(tree.weights, unassigned, riders);
    } else {
        lemma_visited_in_branches_hold_the_pool(
            counted(tree),
            unassigned,
            riders,
            0,
            seen,
            seen_riders,
        );
    }
    lemma_gap_grows(unassigned, riders, seen, seen_riders);
}

/// The same of the nodes that the branches of a node visit.
pub proof fn lemma_visited_in_branches_hold_the_pool(
    tree: TreeView,
    unassigned: Seq<(usize, u64)>,
    riders: Seq<RiderView>,
    i: nat,
    seen: Seq<(usize, u64)>,
    seen_riders: Seq<RiderView>,
)
    requires
        is_state(tree.weights.len(), unassigned, riders),
        branches_visit(tree, unassigned, riders, i, seen, seen_riders),
    ensures
        is_state(tree.weights.len(), seen, seen_riders),
        pool(seen, seen_riders) == pool(unassigned, riders),
        lies_below(unassigned, riders, seen, seen_riders),
        holds_more(tree.weights, riders, seen_riders),
    decreases unassigned.len(), riders.len() - i,
{
    if !is_representative(riders, i as int) {
        lemma_visited_in_branches_hold_the_pool(tree, unassigned, riders, i + 1, seen, seen_riders);
    } else {
        let held = locations_of(riders[i as int].orders);
        lemma_pick_exists(tree.weights, unassigned, held);
        let slot = pick(tree.weights, unassigned, held, unassigned.len());
        let left = left_after(unassigned, slot);
        let after = riders_after(unassigned, riders, i as int, slot);
        lemma_commit_keeps_partition(tree.weights.len(), unassigned, riders, i as int, slot);
        if search_visits(tree, left, after, seen, seen_riders) {
            lemma_visited_nodes_hold_the_pool(tree, left, after, seen, seen_riders);
            lemma_commit_lies_below(tree.weights.len(), unassigned, riders, i as int, slot);
            lemma_lies_below_chains(unassigned, riders, left, after, seen, seen_riders);
            lemma_commit_holds_more(tree.weights, unassigned, riders, i as int, slot);
            lemma_holds_more_chains(tree.weights, riders, after, seen_riders);
        } else {
            lemma_search_keeps_or_improves(tree, left, after, tree.weights.len());
            lemma_visited_in_branches_hold_the_pool(
                search_outcome(tree, left, after),
                unassigned,
                riders,
                i + 1,
                seen,
                seen_riders,
            );
        }
    }
}

/// Two runs on the same graph, budget, pool and roster end with the same
/// tree: the same best gap, the same best assignment with the same tours,
/// and the same number of nodes visited.
pub proof fn lemma_runs_agree(
    tree: TreeView,
    unassigned: Seq<(usize, u64)>,
    riders: Seq<RiderView>,
    first: TreeView,
    second: TreeView,
)
    requires
        first == search_outcome(tree, unassigned, riders),
        second == search_outcome(tree, unassigned, riders),
    ensures
        first.best_difference == second.best_difference,
        first.best_riders == second.best_riders,
        first.best_routes == second.best_routes,
        first.nodes_number == second.nodes_number,
        first.finished == second.finished,
{
}

/// The second state lies below the first in a search: the riders are the
/// same in number, none holds less than before, and all tips together are
/// what they were.
pub open spec fn lies_below(
    unassigned: Seq<(usize, u64)>,
    riders: Seq<RiderView>,
    later_unassigned: Seq<(usize, u64)>,
    later_riders: Seq<RiderView>,
) -> bool {
    &&& later_riders.len() == riders.len()
    &&& forall|i: int|
        0 <= i < riders.len() ==> (#[trigger] later_riders[i]).sum() >= riders[i].sum()
    &&& pool_total(later_unassigned, later_riders) == pool_total(unassigned, riders)
}

/// Where no rider holds less, the largest sum is no smaller.
pub proof fn lemma_top_sum_grows(riders: Seq<RiderView>, later: Seq<RiderView>)
    requires
        later.len() == riders.len(),
        forall|i: int| 0 <= i < riders.len() ==> (#[trigger] later[i]).sum() >= riders[i].sum(),
    ensures
        top_sum(later) >= top_sum(riders),
    decreases riders.len(),
{
    if riders.len() > 0 {
        assert forall|i: int| 0 <= i < riders.len() - 1 implies (#[trigger] later.drop_last()[i]).sum()
            >= riders.drop_last()[i].sum() by {
            assert(later[i].sum() >= riders[i].sum());
        }
        lemma_top_sum_grows(riders.drop_last(), later.drop_last());
        assert(later[riders.len() - 1].sum() >= riders[riders.len() - 1].sum());
    }
}

/// The gap of a state is a lower bound on the gap of every state below it,
/// and so of every complete assignment that the state can lead to.
pub proof fn lemma_gap_grows(
    unassigned: Seq<(usize, u64)>,
    riders: Seq<RiderView>,
    later_unassigned: Seq<(usize, u64)>,
    later_riders: Seq<RiderView>,
)
    requires
        lies_below(unassigned, riders, later_unassigned, later_riders),
    ensures
        scaled_gap(later_unassigned, later_riders) >= scaled_gap(unassigned, riders),
{
    lemma_top_sum_grows(riders, later_riders);
    let k = riders.len();
    let top = top_sum(riders);
    let later_top = top_sum(later_riders);
    assert(later_top * (k - 1) >= top * (k - 1)) by (nonlinear_arith)
        requires
            later_top >= top,
            k >= 0,
            k - 1 >= -1,
            later_top >= 0,
            top >= 0,
            k >= 1 || later_top == top,
    ;
}

/// A node that is cut because its gap does not beat the best one loses
/// nothing: no state below it, complete or not, has a gap that beats it.
pub proof fn lemma_value_cut_is_sound(
    tree: TreeView,
    unassigned: Seq<(usize, u64)>,
    riders: Seq<RiderView>,
    later_unassigned: Seq<(usize, u64)>,
    later_riders: Seq<RiderView>,
)
    requires
        scaled_gap(unassigned, riders) >= tree.best_difference,
        lies_below(unassigned, riders, later_unassigned, later_riders),
    ensures
        scaled_gap(later_unassigned, later_riders) >= tree.best_difference,
{
    lemma_gap_grows(unassigned, riders, later_unassigned, later_riders);
}

/// The state that a branch leads to lies below the node.
pub proof fn lemma_commit_lies_below(
    nodes: nat,
    unassigned: Seq<(usize, u64)>,
    riders: Seq<RiderView>,
    i: int,
    slot: int,
)
    requires
        is_state(nodes, unassigned, riders),
        0 <= i < riders.len(),
        0 <= slot < unassigned.len(),
    ensures
        lies_below(
            unassigned,
            riders,
            left_after(unassigned, slot),
            riders_after(unassigned, riders, i, slot),
        ),
{
    lemma_commit_keeps_partition(nodes, unassigned, riders, i, slot);
}

/// Lying below is transitive.
pub proof fn lemma_lies_below_chains(
    unassigned: Seq<(usize, u64)>,
    riders: Seq<RiderView>,
    mid_unassigned: Seq<(usize, u64)>,
    mid_riders: Seq<RiderView>,
    later_unassigned: Seq<(usize, u64)>,
    later_riders: Seq<RiderView>,
)
    requires
        lies_below(unassigned, riders, mid_unassigned, mid_riders),
        lies_below(mid_unassigned, mid_riders, later_unassigned, later_riders),
    ensures
        lies_below(unassigned, riders, later_unassigned, later_riders),
{
    assert forall|i: int| 0 <= i < riders.len() implies (#[trigger] later_riders[i]).sum()
        >= riders[i].sum() by {
        assert(mid_riders[i].sum() >= riders[i].sum());
    }
}

/// In a state every rider holds a set of locations.
pub proof fn lemma_state_holds_location_sets(
    weights: Seq<Seq<u64>>,
    unassigned: Seq<(usize, u64)>,
    riders: Seq<RiderView>,
)
    requires
        is_state(weights.len(), unassigned, riders),
    ensures
        holds_more(weights, riders, riders),
{
    assert forall|i: int| 0 <= i < riders.len() implies is_location_set(
        weights,
        locations_of((#[trigger] riders[i]).orders),
    ) && covers(locations_of(riders[i].orders), locations_of(riders[i].orders)) by {
        let entries = riders[i].orders;
        lemma_distinct_locations(entries);
        assert(are_locations(weights.len(), entries));
        assert forall|j: int| 0 <= j < entries.len() implies (#[trigger] locations_of(entries)[j])
            + 1 < weights.len() by {
            assert(entries[j].0 + 1 < weights.len());
        }
    }
}

/// The riders of the state that a branch leads to hold what they held, and
/// one of them one location more.
pub proof fn lemma_commit_holds_more(
    weights: Seq<Seq<u64>>,
    unassigned: Seq<(usize, u64)>,
    riders: Seq<RiderView>,
    i: int,
    slot: int,
)
    requires
        is_state(weights.len(), unassigned, riders),
        0 <= i < riders.len(),
        0 <= slot < unassigned.len(),
    ensures
        holds_more(weights, riders, riders_after(unassigned, riders, i, slot)),
{
    let after = riders_after(unassigned, riders, i, slot);
    lemma_commit_keeps_partition(weights.len(), unassigned, riders, i, slot);
    lemma_state_holds_location_sets(weights, left_after(unassigned, slot), after);
    assert forall|j: int| 0 <= j < riders.len() implies covers(
        locations_of((#[trigger] after[j]).orders),
        locations_of(riders[j].orders),
    ) by {
        let old_locations = locations_of(riders[j].orders);
        let new_locations = locations_of(after[j].orders);
        assert forall|a: int| 0 <= a < old_locations.len() implies new_locations.contains(
            #[trigger] old_locations[a],
        ) by {
            assert(new_locations[a] == old_locations[a]);
        }
    }
}

/// Holding more is transitive.
pub proof fn lemma_holds_more_chains(
    weights: Seq<Seq<u64>>,
    riders: Seq<RiderView>,
    mid: Seq<RiderView>,
    later: Seq<RiderView>,
)
    requires
        holds_more(weights, riders, mid),
        holds_more(weights, mid, later),
    ensures
        holds_more(weights, riders, later),
{
    assert forall|i: int| 0 <= i < riders.len() implies covers(
        locations_of((#[trigger] later[i]).orders),
        locations_of(riders[i].orders),
    ) by {
        let first = locations_of(riders[i].orders);
        let second = locations_of(mid[i].orders);
        let third = locations_of(later[i].orders);
        assert(covers(second, first));
        assert(covers(third, second));
        assert forall|a: int| 0 <= a < first.len() implies third.contains(#[trigger] first[a]) by {
            assert(second.contains(first[a]));
            let b = choose|b: int| 0 <= b < second.len() && second[b] == first[a];
            assert(third.contains(second[b]));
        }
    }
}

/// A complete assignment whose gap is the gap of the even split ends the
/// search where it is taken as the best one.
pub proof fn lemma_leaf_at_optimum_finishes(tree: TreeView, riders: Seq<RiderView>, val: i128)
    requires
        val == tree.opt_relax,
        val > 0,
        within_budget(tree.weights, tree.budget, tours_of(tree.weights, riders)),
    ensures
        leaf_outcome(tree, riders, val).finished,
        leaf_outcome(tree, riders, val).best_difference == tree.opt_relax,
{
}

/// A finished tree stays as it is, whatever is searched: no node is counted
/// any more and the best assignment stays.
pub proof fn lemma_finished_is_final(
    tree: TreeView,
    unassigned: Seq<(usize, u64)>,
    riders: Seq<RiderView>,
)
    requires
        tree.finished,
    ensures
        search_outcome(tree, unassigned, riders) == tree,
{
}

} // verus!
