//! The branch-and-bound search and the best assignment it has found.

use crate::branching::{choose_location, is_representative, lemma_pick_exists, pick, represents};
use crate::graph::{cost, is_distance_table, route_cost, route_in_graph, DistanceGraph};
use crate::laws::{kept_or_improved, lemma_search_keeps_or_improves};
use crate::ledger::{copy_entries, locations_of};
use crate::metric::{covers, is_metric, lemma_greedy_tour_is_closed, lemma_tour_over_subset};
use crate::objective::{gap, leading_rider, roster, scaled_gap, top_rider};
use crate::partition::{
    are_locations, is_state, left_after, lemma_commit_keeps_partition, pool, riders_after,
};
use crate::rider::{Rider, RiderView};
use crate::spanning::{one_tree, one_tree_bound};
use crate::tour::{greedy_tour, is_closed_tour, is_location_set, nearest_neighbor};
use vstd::prelude::*;

verus! {

/// A search tree over one graph: the travel budget, the best assignment
/// found so far with its gap, the gap at which the search may stop, and the
/// count of the nodes visited. All gaps are in units of `1 / (k - 1)` for
/// `k` riders.
pub struct CGATree {
    graph: DistanceGraph,
    budget: u128,
    best_difference: i128,
    best_riders: Vec<Rider>,
    best_routes: Vec<Vec<usize>>,
    opt_relax: i128,
    nodes_number: u64,
    finished: bool,
}

/// What a search tree is to the contracts.
pub struct TreeView {
    pub weights: Seq<Seq<u64>>,
    pub budget: u128,
    pub best_difference: i128,
    pub best_riders: Seq<RiderView>,
    pub best_routes: Seq<Seq<usize>>,
    pub opt_relax: i128,
    pub nodes_number: u64,
    pub finished: bool,
}

/// The tours as sequences.
pub open spec fn tours_view(tours: Seq<Vec<usize>>) -> Seq<Seq<usize>> {
    Seq::new(tours.len(), |i: int| tours[i]@)
}

impl View for CGATree {
    type V = TreeView;

    closed spec fn view(&self) -> TreeView {
        TreeView {
            weights: self.graph@,
            budget: self.budget,
            best_difference: self.best_difference,
            best_riders: roster(self.best_riders@),
            best_routes: tours_view(self.best_routes@),
            opt_relax: self.opt_relax,
            nodes_number: self.nodes_number,
            finished: self.finished,
        }
    }
}

/// The 1-tree bound shows that no tour of `rider` stays within the budget.
/// A rider with fewer than four locations is never held to be over it.
pub open spec fn over_budget(weights: Seq<Seq<u64>>, budget: u128, rider: RiderView) -> bool {
    rider.orders.len() >= 4 && one_tree(weights, locations_of(rider.orders)) > budget
}

/// The node is cut for the travel budget: the rider with the largest tip sum
/// has four locations or more, and some rider is over the budget.
pub open spec fn one_tree_prunes(
    weights: Seq<Seq<u64>>,
    budget: u128,
    riders: Seq<RiderView>,
) -> bool {
    riders[top_rider(riders)].orders.len() >= 4 && exists|i: int|
        0 <= i < riders.len() && over_budget(weights, budget, #[trigger] riders[i])
}

/// The nearest-neighbour tour of every rider.
pub open spec fn tours_of(weights: Seq<Seq<u64>>, riders: Seq<RiderView>) -> Seq<Seq<usize>> {
    Seq::new(riders.len(), |i: int| greedy_tour(weights, locations_of(riders[i].orders)))
}

/// Every tour costs no more than the budget.
pub open spec fn within_budget(weights: Seq<Seq<u64>>, budget: u128, tours: Seq<Seq<usize>>) -> bool {
    forall|i: int| 0 <= i < tours.len() ==> route_cost(weights, #[trigger] tours[i]) <= budget
}

/// The riders, each with its tour.
pub open spec fn with_tours(riders: Seq<RiderView>, tours: Seq<Seq<usize>>) -> Seq<RiderView> {
    Seq::new(riders.len(), |i: int| riders[i].routed(tours[i]))
}

/// The tree with one more node counted. The count stops at the largest
/// number that it can hold.
pub open spec fn counted(tree: TreeView) -> TreeView {
    TreeView {
        nodes_number: if tree.nodes_number < u64::MAX {
            (tree.nodes_number + 1) as u64
        } else {
            tree.nodes_number
        },
        ..tree
    }
}

/// The tree after a complete assignment with the gap `val` has been looked
/// at. It becomes the best one where `val` is positive and every rider's
/// nearest-neighbour tour stays within the budget; the search is finished
/// where `val` is then the gap of the even split.
pub open spec fn leaf_outcome(tree: TreeView, riders: Seq<RiderView>, val: i128) -> TreeView {
    let tours = tours_of(tree.weights, riders);
    if val > 0 && within_budget(tree.weights, tree.budget, tours) {
        TreeView {
            best_difference: val,
            best_riders: with_tours(riders, tours),
            best_routes: tours,
            finished: val == tree.opt_relax,
            ..tree
        }
    } else {
        tree
    }
}

/// The tree after the search has visited the node `(unassigned, riders)` and
/// all that lies below it.
///
/// A finished tree stays as it is. Otherwise the node is counted. It is cut
/// where its gap does not beat the best one, or for the travel budget. A
/// node without unassigned locations is a complete assignment. Any other
/// node branches: on each rider that stands for its tip sum, in the order of
/// the roster.
pub open spec fn search_outcome(
    tree: TreeView,
    unassigned: Seq<(usize, u64)>,
    riders: Seq<RiderView>,
) -> TreeView
    decreases unassigned.len(), riders.len() + 1,
{
    if tree.finished {
        tree
    } else {
        let val = scaled_gap(unassigned, riders);
        if val >= tree.best_difference || one_tree_prunes(tree.weights, tree.budget, riders) {
            counted(tree)
        } else if unassigned.len() == 0 {
            leaf_outcome(counted(tree), riders, val as i128)
        } else {
            branch_outcome(counted(tree), unassigned, riders, 0)
        }
    }
}

/// The tree after the branches of the node `(unassigned, riders)` on the
/// riders from `i` on have been searched. The rider of a branch is given
/// the location that `pick` chooses for it.
pub open spec fn branch_outcome(
    tree: TreeView,
    unassigned: Seq<(usize, u64)>,
    riders: Seq<RiderView>,
    i: nat,
) -> TreeView
    decreases unassigned.len(), riders.len() - i,
    via branch_outcome_shrinks
{
    if i >= riders.len() || unassigned.len() == 0 {
        tree
    } else if !is_representative(riders, i as int) {
        branch_outcome(tree, unassigned, riders, i + 1)
    } else {
        let slot = pick(
            tree.weights,
            unassigned,
            locations_of(riders[i as int].orders),
            unassigned.len(),
        );
        let below = search_outcome(
            tree,
            left_after(unassigned, slot),
            riders_after(unassigned, riders, i as int, slot),
        );
        branch_outcome(below, unassigned, riders, i + 1)
    }
}

#[via_fn]
proof fn branch_outcome_shrinks(
    tree: TreeView,
    unassigned: Seq<(usize, u64)>,
    riders: Seq<RiderView>,
    i: nat,
) {
    if i < riders.len() && unassigned.len() > 0 {
        lemma_pick_exists(tree.weights, unassigned, locations_of(riders[i as int].orders));
    }
}

/// Each rider of `later` holds a set of locations that has all that the
/// same rider holds in `riders`: `later` is what `riders` may become further
/// down in a search.
pub open spec fn holds_more(
    weights: Seq<Seq<u64>>,
    riders: Seq<RiderView>,
    later: Seq<RiderView>,
) -> bool {
    &&& later.len() == riders.len()
    &&& forall|i: int|
        0 <= i < riders.len() ==> is_location_set(
            weights,
            locations_of((#[trigger] later[i]).orders),
        ) && covers(locations_of(later[i].orders), locations_of(riders[i].orders))
}

/// Locations are nodes: what holds of the entries holds of their locations.
pub proof fn lemma_locations_in_graph(nodes: nat, entries: Seq<(usize, u64)>)
    requires
        are_locations(nodes, entries),
    ensures
        route_in_graph(nodes, locations_of(entries)),
{
    assert forall|i: int| 0 <= i < locations_of(entries).len() implies (#[trigger] locations_of(
        entries,
    )[i]) < nodes by {
        assert(entries[i].0 + 1 < nodes);
    }
}

/// Tells whether the 1-tree bound shows that no tour of `rider` stays
/// within the budget. A rider with fewer than four locations is never held
/// to be over it.
pub fn exceeds_budget(graph: &DistanceGraph, budget: u128, rider: &Rider) -> (over: bool)
    requires
        are_locations(graph@.len(), rider@.orders),
    ensures
        over == over_budget(graph@, budget, rider@),
        over && is_metric(graph@) ==> forall|larger: Seq<usize>, tour: Seq<usize>|
            #![trigger is_closed_tour(graph@, larger, tour)]
            is_location_set(graph@, larger) && covers(larger, locations_of(rider@.orders))
                && is_closed_tour(graph@, larger, tour) ==> route_cost(graph@, tour) > budget,
{
    let stops = rider.locations();
    proof {
        lemma_locations_in_graph(graph@.len(), rider@.orders);
        assert forall|i: int| 0 <= i < stops@.len() implies (#[trigger] stops@[i]) + 1
            < graph@.len() by {
            assert(rider@.orders[i].0 + 1 < graph@.len());
        }
    }
    if stops.len() < 4 {
        return false;
    }
    graph.recall_table();
    let bound = one_tree_bound(graph, &stops);
    proof {
        if is_metric(graph@) && is_location_set(graph@, stops@) {
            assert forall|larger: Seq<usize>, tour: Seq<usize>|
                #![trigger is_closed_tour(graph@, larger, tour)]
                is_location_set(graph@, larger) && covers(larger, stops@) && is_closed_tour(
                    graph@,
                    larger,
                    tour,
                ) implies bound <= route_cost(graph@, tour) by {
                lemma_tour_over_subset(graph@, larger, stops@, tour);
            }
        }
    }
    bound > budget
}

/// Tells whether a node is cut for the travel budget: whether the rider
/// with the largest tip sum has four locations or more, and the 1-tree
/// bound of some rider exceeds the budget.
pub fn cut_for_budget(graph: &DistanceGraph, budget: u128, riders: &Vec<Rider>) -> (cut: bool)
    requires
        riders.len() > 0,
        forall|i: int|
            0 <= i < riders.len() ==> are_locations(
                graph@.len(),
                (#[trigger] roster(riders@)[i]).orders,
            ),
    ensures
        cut == one_tree_prunes(graph@, budget, roster(riders@)),
        cut && is_metric(graph@) ==> forall|later: Seq<RiderView>|
            #![trigger tours_of(graph@, later)]
            holds_more(graph@, roster(riders@), later) ==> !within_budget(
                graph@,
                budget,
                tours_of(graph@, later),
            ),
{
    let (leader, _) = leading_rider(riders);
    assert(roster(riders@)[leader as int] == riders[leader as int]@);
    if riders[leader].orders().len() < 4 {
        return false;
    }
    graph.recall_table();
    let mut i: usize = 0;
    while i < riders.len()
        invariant
            i <= riders.len(),
            is_distance_table(graph@),
            graph@.len() <= usize::MAX,
            forall|j: int|
                0 <= j < riders.len() ==> are_locations(
                    graph@.len(),
                    (#[trigger] roster(riders@)[j]).orders,
                ),
            forall|j: int| 0 <= j < i ==> !over_budget(graph@, budget, #[trigger] roster(riders@)[j]),
            roster(riders@)[top_rider(roster(riders@))].orders.len() >= 4,
        decreases riders.len() - i,
    {
        assert(roster(riders@)[i as int] == riders[i as int]@);
        if exceeds_budget(graph, budget, &riders[i]) {
            assert(over_budget(graph@, budget, roster(riders@)[i as int]));
            proof {
                if is_metric(graph@) {
                    assert forall|later: Seq<RiderView>|
                        #![trigger tours_of(graph@, later)]
                        holds_more(graph@, roster(riders@), later) implies !within_budget(
                        graph@,
                        budget,
                        tours_of(graph@, later),
                    ) by {
                        let set = locations_of(later[i as int].orders);
                        lemma_greedy_tour_is_closed(graph@, set);
                        let tour = tours_of(graph@, later)[i as int];
                        assert(is_closed_tour(graph@, set, tour));
                        assert(route_cost(graph@, tour) > budget);
                    }
                }
            }
            return true;
        }
        i = i + 1;
    }
    false
}

/// Builds the nearest-neighbour tour of every rider, and gives them up as
/// soon as one costs more than the budget.
pub fn plan_tours(graph: &DistanceGraph, budget: u128, riders: &Vec<Rider>) -> (tours: Option<
    Vec<Vec<usize>>,
>)
    requires
        forall|i: int|
            0 <= i < riders.len() ==> are_locations(
                graph@.len(),
                (#[trigger] roster(riders@)[i]).orders,
            ),
    ensures
        tours.is_some() == within_budget(graph@, budget, tours_of(graph@, roster(riders@))),
        tours matches Some(found) ==> tours_view(found@) == tours_of(graph@, roster(riders@)),
{
    let mut tours: Vec<Vec<usize>> = Vec::new();
    let mut i: usize = 0;
    let ghost all = tours_of(graph@, roster(riders@));
    while i < riders.len()
        invariant
            i <= riders.len(),
            all == tours_of(graph@, roster(riders@)),
            forall|j: int|
                0 <= j < riders.len() ==> are_locations(
                    graph@.len(),
                    (#[trigger] roster(riders@)[j]).orders,
                ),
            tours.len() == i,
            forall|j: int| 0 <= j < i ==> (#[trigger] tours[j])@ == all[j],
            forall|j: int| 0 <= j < i ==> route_cost(graph@, #[trigger] all[j]) <= budget,
        decreases riders.len() - i,
    {
        assert(roster(riders@)[i as int] == riders[i as int]@);
        proof {
            lemma_locations_in_graph(graph@.len(), riders[i as int]@.orders);
        }
        let stops = riders[i].locations();
        let tour = nearest_neighbor(graph, &stops);
        if cost(graph, &tour) > budget {
            assert(route_cost(graph@, all[i as int]) > budget);
            return None;
        }
        tours.push(tour);
        i = i + 1;
    }
    assert(tours_view(tours@) =~= all);
    Some(tours)
}

/// Copies the riders and gives each copy its tour.
pub fn assign_tours(riders: &Vec<Rider>, tours: &Vec<Vec<usize>>) -> (routed: Vec<Rider>)
    requires
        tours.len() == riders.len(),
    ensures
        roster(routed@) == with_tours(roster(riders@), tours_view(tours@)),
{
    let mut routed: Vec<Rider> = Vec::new();
    let mut i: usize = 0;
    while i < riders.len()
        invariant
            i <= riders.len(),
            tours.len() == riders.len(),
            routed.len() == i,
            forall|j: int|
                0 <= j < i ==> (#[trigger] routed[j])@ == riders[j]@.routed(tours[j]@),
        decreases riders.len() - i,
    {
        let mut rider = riders[i].clone();
        let tour = tours[i].clone();
        assert(tour@ =~= tours[i as int]@);
        rider.set_route(tour);
        routed.push(rider);
        i = i + 1;
    }
    assert(roster(routed@) =~= with_tours(roster(riders@), tours_view(tours@)));
    routed
}

/// Copies the riders and commits `entry` to rider `i` of the copy.
pub fn commit(riders: &Vec<Rider>, i: usize, entry: (usize, u64)) -> (after: Vec<Rider>)
    requires
        i < riders.len(),
    ensures
        roster(after@) == roster(riders@).update(
            i as int,
            roster(riders@)[i as int].tipped(entry.0, entry.1),
        ),
{
    let mut after: Vec<Rider> = Vec::new();
    let mut j: usize = 0;
    while j < riders.len()
        invariant
            j <= riders.len(),
            i < riders.len(),
            after.len() == j,
            forall|h: int|
                0 <= h < j ==> (#[trigger] after[h])@ == if h == i {
                    riders[h]@.tipped(entry.0, entry.1)
                } else {
                    riders[h]@
                },
        decreases riders.len() - j,
    {
        let mut rider = riders[j].clone();
        if j == i {
            rider.add_tip(entry.0, entry.1);
        }
        after.push(rider);
        j = j + 1;
    }
    assert(roster(after@) =~= roster(riders@).update(
        i as int,
        roster(riders@)[i as int].tipped(entry.0, entry.1),
    ));
    after
}

impl CGATree {
    /// A tree that has visited no node yet. `best_difference` is the gap
    /// that an assignment must beat to be kept, `opt_relax` the gap at which
    /// the search stops, both times `k - 1` for `k` riders; `budget` is the
    /// most that a rider's tour may cost.
    pub fn new(graph: DistanceGraph, budget: u128, best_difference: i128, opt_relax: i128) -> (tree:
        CGATree)
        ensures
            tree@ == (TreeView {
                weights: graph@,
                budget,
                best_difference,
                best_riders: Seq::empty(),
                best_routes: Seq::empty(),
                opt_relax,
                nodes_number: 0,
                finished: false,
            }),
    {
        let tree = CGATree {
            graph,
            budget,
            best_difference,
            best_riders: Vec::new(),
            best_routes: Vec::new(),
            opt_relax,
            nodes_number: 0,
            finished: false,
        };
        assert(roster(tree.best_riders@) =~= Seq::empty());
        assert(tours_view(tree.best_routes@) =~= Seq::empty());
        tree
    }

    /// The graph that the tree searches over.
    pub fn graph(&self) -> (graph: &DistanceGraph)
        ensures
            graph@ == self@.weights,
            is_distance_table(graph@),
    {
        self.graph.recall_table();
        &self.graph
    }

    /// The most that a rider's tour may cost.
    pub fn budget(&self) -> (budget: u128)
        ensures
            budget == self@.budget,
    {
        self.budget
    }

    /// The gap of the best assignment found, times `k - 1`; the starting gap
    /// as long as none has been found.
    pub fn best_difference(&self) -> (best: i128)
        ensures
            best == self@.best_difference,
    {
        self.best_difference
    }

    /// The riders of the best assignment found, each with its tour; empty as
    /// long as none has been found.
    pub fn best_riders(&self) -> (riders: &Vec<Rider>)
        ensures
            roster(riders@) == self@.best_riders,
    {
        &self.best_riders
    }

    /// The tours of the best assignment found, one for each rider in the
    /// order of the roster.
    pub fn best_routes(&self) -> (routes: &Vec<Vec<usize>>)
        ensures
            tours_view(routes@) == self@.best_routes,
    {
        &self.best_routes
    }

    /// The gap at which the search stops, times `k - 1`.
    pub fn opt_relax(&self) -> (opt: i128)
        ensures
            opt == self@.opt_relax,
    {
        self.opt_relax
    }

    /// The number of nodes visited.
    pub fn nodes_number(&self) -> (nodes: u64)
        ensures
            nodes == self@.nodes_number,
    {
        self.nodes_number
    }

    /// Whether an assignment with the gap of the even split has been found,
    /// so that the search has stopped.
    pub fn finished(&self) -> (finished: bool)
        ensures
            finished == self@.finished,
    {
        self.finished
    }

    /// Looks at a complete assignment whose gap `val` beats the best one.
    fn settle(&mut self, riders: &Vec<Rider>, val: i128)
        requires
            forall|i: int|
                0 <= i < riders.len() ==> are_locations(
                    old(self)@.weights.len(),
                    (#[trigger] roster(riders@)[i]).orders,
                ),
        ensures
            final(self)@ == leaf_outcome(old(self)@, roster(riders@), val),
    {
        if val > 0 {
            match plan_tours(&self.graph, self.budget, riders) {
                Some(tours) => {
                    assert(tours_view(tours@).len() == tours.len());
                    self.best_difference = val;
                    self.best_riders = assign_tours(riders, &tours);
                    self.best_routes = tours;
                    self.finished = val == self.opt_relax;
                },
                None => {},
            }
        }
    }

    /// Searches the node `(locations, riders)` and all that lies below it:
    /// `locations` are the entries still unassigned, `riders` the roster
    /// with what is committed to each rider.
    ///
    /// A finished tree is left as it is. Otherwise the node is counted, and
    /// cut where its gap does not beat the best one or where the 1-tree
    /// bound shows a rider over the budget. A complete assignment becomes
    /// the best one where its gap is positive and every nearest-neighbour
    /// tour stays within the budget. Any other node branches on each rider
    /// that stands for its tip sum, and gives it one of the locations with
    /// the highest tip.
    pub fn search(&mut self, locations: Vec<(usize, u64)>, riders: Vec<Rider>)
        requires
            is_state(old(self)@.weights.len(), locations@, roster(riders@)),
        ensures
            final(self)@ == search_outcome(old(self)@, locations@, roster(riders@)),
            kept_or_improved(
                old(self)@,
                final(self)@,
                pool(locations@, roster(riders@)),
                riders@.len(),
            ),
        decreases locations.len(),
    {
        proof {
            lemma_search_keeps_or_improves(
                self@,
                locations@,
                roster(riders@),
                self@.weights.len(),
            );
        }
        if self.finished {
            return ;
        }
        if self.nodes_number < u64::MAX {
            self.nodes_number = self.nodes_number + 1;
        }
        let ghost entered = self@;
        let val = gap(&locations, &riders);
        if val >= self.best_difference {
            return ;
        }
        if cut_for_budget(&self.graph, self.budget, &riders) {
            return ;
        }
        if locations.len() == 0 {
            self.settle(&riders, val);
            return ;
        }
        let mut i: usize = 0;
        while i < riders.len()
            invariant
                i <= riders.len(),
                locations.len() > 0,
                self@.weights == entered.weights,
                is_state(entered.weights.len(), locations@, roster(riders@)),
                branch_outcome(self@, locations@, roster(riders@), i as nat) == branch_outcome(
                    entered,
                    locations@,
                    roster(riders@),
                    0,
                ),
            decreases riders.len() - i,
        {
            if represents(&riders, i) {
                assert(roster(riders@)[i as int] == riders[i as int]@);
                proof {
                    lemma_locations_in_graph(entered.weights.len(), locations@);
                    lemma_locations_in_graph(entered.weights.len(), riders[i as int]@.orders);
                }
                let slot = choose_location(&self.graph, &locations, &riders[i]);
                let mut left = copy_entries(&locations);
                let entry = left.remove(slot);
                let after = commit(&riders, i, entry);
                proof {
                    lemma_commit_keeps_partition(
                        entered.weights.len(),
                        locations@,
                        roster(riders@),
                        i as int,
                        slot as int,
                    );
                }
                self.search(left, after);
            }
            i = i + 1;
        }
    }
}

} // verus!
