//! The 1-tree bound: a lower bound on the cost of any closed tour over a set
//! of locations and the depot, made of a minimum spanning tree and one more
//! edge.
//!
//! The spanning tree is computed by `petgraph`. What this module says of
//! `petgraph` is stated in the contracts of the functions marked
//! `external_body` and is not proved here.

use crate::graph::{is_distance_table, route_cost, route_in_graph, DistanceGraph};
use crate::tour::{is_closed_tour, is_location_set};
use petgraph::algo::min_spanning_tree;
use petgraph::data::Element;
use petgraph::graph::{Graph, NodeIndex};
use petgraph::Directed;
use vstd::prelude::*;

verus! {

/// `petgraph::Directed`, the marker of a graph whose edges have a
/// direction. Nothing is claimed of it.
#[verifier::external_type_specification]
#[verifier::external_body]
pub struct ExDirected(petgraph::Directed);

/// `petgraph::graph::Graph`. A value of it is opaque here: what it holds is
/// known by `graph_order` and `graph_edges` alone.
#[verifier::external_type_specification]
#[verifier::external_body]
#[verifier::reject_recursive_types(N)]
#[verifier::reject_recursive_types(E)]
#[verifier::reject_recursive_types(Ty)]
#[verifier::reject_recursive_types(Ix)]
pub struct ExGraph<N, E, Ty, Ix>(petgraph::graph::Graph<N, E, Ty, Ix>);

/// The number of nodes that a graph holds.
pub uninterp spec fn graph_order(g: Graph<(), u64, Directed, usize>) -> nat;

/// The edges that a graph holds, as `(source, target, weight)`, in the order
/// in which they were added.
pub uninterp spec fn graph_edges(g: Graph<(), u64, Directed, usize>) -> Seq<(usize, usize, u64)>;

/// What `petgraph::algo::min_spanning_tree` yields for a graph of `order`
/// nodes with the edges `edges`: `None` for each node, `Some` for each edge
/// of the spanning forest.
pub uninterp spec fn spanning_forest(order: nat, edges: Seq<(usize, usize, u64)>) -> Seq<
    Option<(usize, usize, u64)>,
>;

/// `Graph::with_capacity`: a graph without nodes and edges.
#[verifier::external_body]
fn empty_graph() -> (g: Graph<(), u64, Directed, usize>)
    ensures
        graph_order(g) == 0,
        graph_edges(g) == Seq::<(usize, usize, u64)>::empty(),
{
    Graph::with_capacity(0, 0)
}

/// `Graph::add_node`: one more node, the edges as they were. With `usize`
/// indices the call has no limit on the number of nodes.
#[verifier::external_body]
fn add_node(g: &mut Graph<(), u64, Directed, usize>)
    ensures
        graph_order(*final(g)) == graph_order(*old(g)) + 1,
        graph_edges(*final(g)) == graph_edges(*old(g)),
{
    g.add_node(());
}

/// `Graph::add_edge`: one more edge, after those that are there. The call
/// panics where an end is no node of the graph, so both must be.
#[verifier::external_body]
fn add_edge(g: &mut Graph<(), u64, Directed, usize>, a: usize, b: usize, weight: u64)
    requires
        a < graph_order(*old(g)),
        b < graph_order(*old(g)),
    ensures
        graph_order(*final(g)) == graph_order(*old(g)),
        graph_edges(*final(g)) == graph_edges(*old(g)).push((a, b, weight)),
{
    g.add_edge(NodeIndex::new(a), NodeIndex::new(b), weight);
}

/// The sum of `costs`.
pub open spec fn costs_total(costs: Seq<u64>) -> nat
    decreases costs.len(),
{
    if costs.len() == 0 {
        0
    } else {
        costs_total(costs.drop_last()) + costs.last() as nat
    }
}

/// `path` runs through every node of a graph of `order` nodes once, and
/// each of its steps goes along one of `edges`, in either direction, at the
/// cost that `costs` gives for it.
pub open spec fn spans(
    order: nat,
    edges: Seq<(usize, usize, u64)>,
    path: Seq<usize>,
    costs: Seq<u64>,
) -> bool {
    &&& path.len() == order
    &&& path.no_duplicates()
    &&& forall|i: int| 0 <= i < path.len() ==> (#[trigger] path[i]) < order
    &&& costs.len() + 1 == path.len()
    &&& forall|i: int|
        0 <= i < costs.len() ==> edges.contains((path[i], path[i + 1], #[trigger] costs[i]))
            || edges.contains((path[i + 1], path[i], costs[i]))
}

/// `petgraph::algo::min_spanning_tree`: the elements that it yields, each
/// node as `None` and each edge as `Some` of its ends and its weight. They
/// depend on the nodes and edges of the graph alone. The edges are those of
/// a minimum spanning tree where the graph is connected, directions set
/// aside. Of that this contract claims what the library builds on: a path
/// that runs through every node once is a spanning tree, so the edges
/// yielded weigh no more than its steps.
#[verifier::external_body]
fn spanning_elements(g: &Graph<(), u64, Directed, usize>) -> (elements: Vec<
    Option<(usize, usize, u64)>,
>)
    ensures
        elements@ == spanning_forest(graph_order(*g), graph_edges(*g)),
        forall|path: Seq<usize>, costs: Seq<u64>| #[trigger]
            spans(graph_order(*g), graph_edges(*g), path, costs) ==> edges_weight(elements@)
                <= costs_total(costs),
{
    min_spanning_tree(g).map(
        |element| match element {
            Element::Node { .. } => None,
            Element::Edge { source, target, weight } => Some((source, target, weight)),
        },
    ).collect()
}

/// The sum of the weights of the edges among `elements`.
pub open spec fn edges_weight(elements: Seq<Option<(usize, usize, u64)>>) -> nat
    decreases elements.len(),
{
    if elements.len() == 0 {
        0
    } else {
        edges_weight(elements.drop_last()) + match elements.last() {
            Some(edge) => edge.2 as nat,
            None => 0,
        }
    }
}

/// The weights of `elements` sum to at most as many weights of the largest
/// size.
pub proof fn lemma_edges_weight_bound(elements: Seq<Option<(usize, usize, u64)>>)
    ensures
        edges_weight(elements) <= elements.len() * u64::MAX,
    decreases elements.len(),
{
    if elements.len() > 0 {
        lemma_edges_weight_bound(elements.drop_last());
    }
}

/// Sums the weights of the edges among the elements of a spanning forest.
pub fn forest_weight(elements: &Vec<Option<(usize, usize, u64)>>) -> (total: u128)
    ensures
        total == edges_weight(elements@),
{
    let mut total: u128 = 0;
    let mut i: usize = 0;
    while i < elements.len()
        invariant
            i <= elements.len(),
            total == edges_weight(elements@.take(i as int)),
        decreases elements.len() - i,
    {
        proof {
            lemma_edges_weight_bound(elements@.take(i as int));
            assert(elements@.take(i + 1).drop_last() =~= elements@.take(i as int));
        }
        match elements[i] {
            Some(edge) => {
                total = total + edge.2 as u128;
            },
            None => {},
        }
        i = i + 1;
    }
    assert(elements@.take(i as int) =~= elements@);
    total
}

/// The edges from node `i` of `nodes` to the nodes after it and before `j`,
/// each with the weight that the table gives it. Ends are positions in
/// `nodes`.
pub open spec fn row_edges(weights: Seq<Seq<u64>>, nodes: Seq<usize>, i: nat, j: nat) -> Seq<
    (usize, usize, u64),
>
    decreases j,
{
    if j <= i + 1 {
        Seq::empty()
    } else {
        row_edges(weights, nodes, i, (j - 1) as nat).push(
            (i as usize, (j - 1) as usize, weights[nodes[i as int] as int][nodes[j - 1] as int]),
        )
    }
}

/// The edges from the first `i` nodes of `nodes` to the nodes after them.
pub open spec fn rows_before(weights: Seq<Seq<u64>>, nodes: Seq<usize>, i: nat) -> Seq<
    (usize, usize, u64),
>
    decreases i,
{
    if i == 0 {
        Seq::empty()
    } else {
        rows_before(weights, nodes, (i - 1) as nat) + row_edges(
            weights,
            nodes,
            (i - 1) as nat,
            nodes.len(),
        )
    }
}

/// The edges of the subgraph induced by `nodes`: one for each pair of
/// positions, the lower position first.
pub open spec fn induced_edges(weights: Seq<Seq<u64>>, nodes: Seq<usize>) -> Seq<
    (usize, usize, u64),
> {
    rows_before(weights, nodes, nodes.len())
}

/// The weight of a minimum spanning tree of the subgraph induced by `nodes`.
pub open spec fn tree_weight(weights: Seq<Seq<u64>>, nodes: Seq<usize>) -> nat {
    edges_weight(spanning_forest(nodes.len(), induced_edges(weights, nodes)))
}

/// Computes the weight of a minimum spanning tree of the subgraph induced by
/// `nodes`.
pub fn spanning_weight(graph: &DistanceGraph, nodes: &Vec<usize>) -> (total: u128)
    requires
        route_in_graph(graph@.len(), nodes@),
    ensures
        total == tree_weight(graph@, nodes@),
        total <= usize::MAX * u64::MAX,
        forall|path: Seq<usize>, costs: Seq<u64>| #[trigger]
            spans(nodes@.len(), induced_edges(graph@, nodes@), path, costs) ==> total
                <= costs_total(costs),
{
    let m = nodes.len();
    let mut g = empty_graph();
    let mut i: usize = 0;
    while i < m
        invariant
            i <= m,
            graph_order(g) == i,
            graph_edges(g) == Seq::<(usize, usize, u64)>::empty(),
        decreases m - i,
    {
        add_node(&mut g);
        i = i + 1;
    }
    let mut i: usize = 0;
    while i < m
        invariant
            i <= m,
            m == nodes.len(),
            route_in_graph(graph@.len(), nodes@),
            graph_order(g) == m,
            graph_edges(g) == rows_before(graph@, nodes@, i as nat),
        decreases m - i,
    {
        let mut j: usize = i + 1;
        while j < m
            invariant
                i < j <= m,
                m == nodes.len(),
                route_in_graph(graph@.len(), nodes@),
                graph_order(g) == m,
                graph_edges(g) == rows_before(graph@, nodes@, i as nat) + row_edges(
                    graph@,
                    nodes@,
                    i as nat,
                    j as nat,
                ),
            decreases m - j,
        {
            let ghost row = row_edges(graph@, nodes@, i as nat, j as nat);
            let weight = graph.distance(nodes[i], nodes[j]);
            add_edge(&mut g, i, j, weight);
            proof {
                let before = rows_before(graph@, nodes@, i as nat);
                assert((before + row).push((i, j, weight)) =~= before + row.push((i, j, weight)));
            }
            j = j + 1;
        }
        i = i + 1;
    }
    let elements = spanning_elements(&g);
    proof {
        lemma_edges_weight_bound(elements@);
        assert(elements.len() * u64::MAX <= usize::MAX * u64::MAX) by (nonlinear_arith)
            requires
                elements.len() <= usize::MAX,
        ;
    }
    forest_weight(&elements)
}

/// The weight of the cheapest edge from `v` to one of `nodes`; the largest
/// weight there is where `nodes` is empty.
pub open spec fn least_link(weights: Seq<Seq<u64>>, v: usize, nodes: Seq<usize>) -> nat
    decreases nodes.len(),
{
    if nodes.len() == 0 {
        u64::MAX as nat
    } else {
        let earlier = least_link(weights, v, nodes.drop_last());
        let last = weights[v as int][nodes.last() as int] as nat;
        if last < earlier {
            last
        } else {
            earlier
        }
    }
}

/// The nodes that stay when the member at position `k` is set aside:
/// the other members of `set`, and the depot.
pub open spec fn others(weights: Seq<Seq<u64>>, set: Seq<usize>, k: int) -> Seq<usize> {
    set.remove(k).push((weights.len() - 1) as usize)
}

/// The 1-tree value with the member at position `k` set aside: the weight of
/// a minimum spanning tree over the other members and the depot, and the
/// cheapest edge from that member to one of them. One edge is added, not
/// two.
pub open spec fn one_tree_value(weights: Seq<Seq<u64>>, set: Seq<usize>, k: int) -> nat {
    tree_weight(weights, others(weights, set, k)) + least_link(
        weights,
        set[k],
        others(weights, set, k),
    )
}

/// The least 1-tree value over the first `n` members of `set`.
pub open spec fn least_one_tree(weights: Seq<Seq<u64>>, set: Seq<usize>, n: nat) -> nat
    decreases n,
{
    if n <= 1 {
        one_tree_value(weights, set, 0)
    } else {
        let earlier = least_one_tree(weights, set, (n - 1) as nat);
        let last = one_tree_value(weights, set, n - 1);
        if last < earlier {
            last
        } else {
            earlier
        }
    }
}

/// The 1-tree bound of `set`: the least 1-tree value over its members.
pub open spec fn one_tree(weights: Seq<Seq<u64>>, set: Seq<usize>) -> nat {
    least_one_tree(weights, set, set.len())
}

/// The edges from position `a` hold the one to each later position.
pub proof fn lemma_row_edge(weights: Seq<Seq<u64>>, nodes: Seq<usize>, a: nat, b: nat, j: nat)
    requires
        a < b < j,
        j <= usize::MAX,
    ensures
        row_edges(weights, nodes, a, j).contains(
            (a as usize, b as usize, weights[nodes[a as int] as int][nodes[b as int] as int]),
        ),
    decreases j,
{
    let edge = (a as usize, b as usize, weights[nodes[a as int] as int][nodes[b as int] as int]);
    let row = row_edges(weights, nodes, a, j);
    if b == j - 1 {
        assert(row[row.len() - 1] == edge);
    } else {
        lemma_row_edge(weights, nodes, a, b, (j - 1) as nat);
        let earlier = row_edges(weights, nodes, a, (j - 1) as nat);
        let at = choose|at: int| 0 <= at < earlier.len() && earlier[at] == edge;
        assert(row[at] == edge);
    }
}

/// The induced edges hold one for each pair of positions.
pub proof fn lemma_induced_edge(weights: Seq<Seq<u64>>, nodes: Seq<usize>, a: nat, b: nat, i: nat)
    requires
        a < b < nodes.len(),
        a < i,
        nodes.len() <= usize::MAX,
    ensures
        rows_before(weights, nodes, i).contains(
            (a as usize, b as usize, weights[nodes[a as int] as int][nodes[b as int] as int]),
        ),
    decreases i,
{
    let edge = (a as usize, b as usize, weights[nodes[a as int] as int][nodes[b as int] as int]);
    let earlier = rows_before(weights, nodes, (i - 1) as nat);
    let row = row_edges(weights, nodes, (i - 1) as nat, nodes.len());
    if a == i - 1 {
        lemma_row_edge(weights, nodes, a, b, nodes.len());
        let at = choose|at: int| 0 <= at < row.len() && row[at] == edge;
        assert((earlier + row)[earlier.len() + at] == edge);
    } else {
        lemma_induced_edge(weights, nodes, a, b, (i - 1) as nat);
        let at = choose|at: int| 0 <= at < earlier.len() && earlier[at] == edge;
        assert((earlier + row)[at] == edge);
    }
}

/// The cheapest edge from `v` to one of `nodes` costs no more than the edge
/// to any of them.
pub proof fn lemma_least_link_bound(weights: Seq<Seq<u64>>, v: usize, nodes: Seq<usize>, j: int)
    requires
        0 <= j < nodes.len(),
    ensures
        least_link(weights, v, nodes) <= weights[v as int][nodes[j] as int],
    decreases nodes.len(),
{
    if j < nodes.len() - 1 {
        lemma_least_link_bound(weights, v, nodes.drop_last(), j);
    }
}

/// The costs of the steps of `route`, one after the other.
pub open spec fn step_costs(weights: Seq<Seq<u64>>, route: Seq<usize>) -> Seq<u64> {
    Seq::new(
        (route.len() - 1) as nat,
        |i: int| weights[route[i] as int][route[i + 1] as int],
    )
}

/// The costs of the steps of a route that never stays in place sum to the
/// cost of the route.
pub proof fn lemma_costs_match(weights: Seq<Seq<u64>>, route: Seq<usize>)
    requires
        route.len() >= 1,
        forall|i: int| 0 <= i < route.len() - 1 ==> #[trigger] route[i] != route[i + 1],
    ensures
        costs_total(step_costs(weights, route)) == route_cost(weights, route),
    decreases route.len(),
{
    if route.len() > 1 {
        let front = route.drop_last();
        assert forall|i: int| 0 <= i < front.len() - 1 implies #[trigger] front[i] != front[i
            + 1] by {
            assert(route[i] != route[i + 1]);
        }
        lemma_costs_match(weights, front);
        assert(step_costs(weights, route).drop_last() =~= step_costs(weights, front));
        assert(route[route.len() - 2] != route[route.len() - 2 + 1]);
    }
}

/// A route through every one of `nodes` once is a path that spans the
/// subgraph induced by `nodes`, at the cost of the route.
pub proof fn lemma_route_spans(weights: Seq<Seq<u64>>, nodes: Seq<usize>, route: Seq<usize>)
    requires
        is_distance_table(weights),
        nodes.len() >= 1,
        nodes.len() <= usize::MAX,
        nodes.no_duplicates(),
        route_in_graph(weights.len(), nodes),
        route.len() == nodes.len(),
        route.no_duplicates(),
        forall|i: int| 0 <= i < route.len() ==> nodes.contains(#[trigger] route[i]),
    ensures
        exists|path: Seq<usize>, costs: Seq<u64>| #[trigger]
            spans(nodes.len(), induced_edges(weights, nodes), path, costs) && costs_total(costs)
                == route_cost(weights, route),
{
    let m = nodes.len();
    let path = Seq::new(m, |i: int| nodes.index_of(route[i]) as usize);
    let costs = step_costs(weights, route);
    let edges = induced_edges(weights, nodes);
    assert forall|i: int| 0 <= i < m implies 0 <= nodes.index_of(#[trigger] route[i]) < m
        && nodes[nodes.index_of(route[i])] == route[i] by {
        assert(nodes.contains(route[i]));
    }
    assert forall|i: int| 0 <= i < m implies (#[trigger] path[i]) < m && nodes[path[i] as int]
        == route[i] by {
        assert(nodes[nodes.index_of(route[i])] == route[i]);
    }
    assert(path.no_duplicates()) by {
        assert forall|i: int, j: int| 0 <= i < m && 0 <= j < m && i != j implies path[i]
            != path[j] by {
            assert(nodes[path[i] as int] == route[i]);
            assert(nodes[path[j] as int] == route[j]);
        }
    }
    assert forall|i: int| 0 <= i < costs.len() implies edges.contains(
        (path[i], path[i + 1], #[trigger] costs[i]),
    ) || edges.contains((path[i + 1], path[i], costs[i])) by {
        let a = path[i];
        let b = path[i + 1];
        assert(nodes[a as int] == route[i]);
        assert(nodes[b as int] == route[i + 1]);
        assert(a != b);
        assert(route[i] < weights.len() && route[i + 1] < weights.len());
        if a < b {
            lemma_induced_edge(weights, nodes, a as nat, b as nat, m);
        } else {
            lemma_induced_edge(weights, nodes, b as nat, a as nat, m);
        }
    }
    lemma_costs_match(weights, route);
    assert(spans(m, edges, path, costs));
}

/// What is left of a closed tour over `set` once its first stop is set
/// aside is a path that spans the other members and the depot, and the tour
/// costs as much as that path and the way from the depot to the first stop,
/// or more.
pub proof fn lemma_tour_rest_spans(
    weights: Seq<Seq<u64>>,
    set: Seq<usize>,
    k: int,
    tour: Seq<usize>,
)
    requires
        is_distance_table(weights),
        is_location_set(weights, set),
        set.len() <= usize::MAX,
        0 <= k < set.len(),
        is_closed_tour(weights, set, tour),
        tour[1] == set[k],
    ensures
        exists|path: Seq<usize>, costs: Seq<u64>| #[trigger]
            spans(set.len(), induced_edges(weights, others(weights, set, k)), path, costs)
                && costs_total(costs) + weights[set[k] as int][weights.len() - 1] <= route_cost(
                weights,
                tour,
            ),
{
    let depot = (weights.len() - 1) as usize;
    let nodes = others(weights, set, k);
    let m = set.len() as int;
    let q = tour.subrange(2, tour.len() as int);
    assert(nodes.no_duplicates()) by {
        assert forall|i: int, j: int| 0 <= i < nodes.len() && 0 <= j < nodes.len() && i
            != j implies nodes[i] != nodes[j] by {
            let a = if i < k { i } else { i + 1 };
            let b = if j < k { j } else { j + 1 };
            if i < m - 1 {
                assert(nodes[i] == set[a]);
            }
            if j < m - 1 {
                assert(nodes[j] == set[b]);
            }
        }
    }
    assert(route_in_graph(weights.len(), nodes)) by {
        assert forall|i: int| 0 <= i < nodes.len() implies (#[trigger] nodes[i]) < weights.len() by {
            if i < m - 1 {
                let a = if i < k { i } else { i + 1 };
                assert(nodes[i] == set[a]);
            }
        }
    }
    assert forall|i: int| 0 <= i < q.len() implies nodes.contains(#[trigger] q[i]) by {
        if i < m - 1 {
            let stop = tour[i + 2];
            assert(set.contains(stop));
            let at = choose|at: int| 0 <= at < set.len() && set[at] == stop;
            assert(tour[1] != tour[i + 2]);
            if at < k {
                assert(nodes[at] == stop);
            } else {
                assert(nodes[at - 1] == stop);
            }
        } else {
            assert(nodes[m - 1] == depot);
        }
    }
    assert(q.no_duplicates()) by {
        assert forall|i: int, j: int| 0 <= i < q.len() && 0 <= j < q.len() && i != j implies q[i]
            != q[j] by {
            if i < m - 1 {
                assert(set.contains(tour[i + 2]));
            }
            if j < m - 1 {
                assert(set.contains(tour[j + 2]));
            }
        }
    }
    lemma_route_spans(weights, nodes, q);
    let rest = tour.subrange(1, tour.len() as int);
    crate::graph::lemma_route_cost_front(weights, tour);
    crate::graph::lemma_route_cost_front(weights, rest);
    assert(rest.subrange(1, rest.len() as int) =~= q);
    assert(set.contains(tour[1]));
    assert(set[k] + 1 < weights.len());
}

/// Finds the weight of the cheapest edge from `v` to one of `nodes`.
fn cheapest_link(graph: &DistanceGraph, v: usize, nodes: &Vec<usize>) -> (least: u64)
    requires
        v < graph@.len(),
        route_in_graph(graph@.len(), nodes@),
    ensures
        least == least_link(graph@, v, nodes@),
{
    let mut least: u64 = u64::MAX;
    let mut i: usize = 0;
    while i < nodes.len()
        invariant
            i <= nodes.len(),
            v < graph@.len(),
            route_in_graph(graph@.len(), nodes@),
            least == least_link(graph@, v, nodes@.take(i as int)),
        decreases nodes.len() - i,
    {
        proof {
            assert(nodes@.take(i + 1).drop_last() =~= nodes@.take(i as int));
        }
        let weight = graph.distance(v, nodes[i]);
        if weight < least {
            least = weight;
        }
        i = i + 1;
    }
    assert(nodes@.take(i as int) =~= nodes@);
    least
}

/// Computes the 1-tree value of `set` with the member at position `k` set
/// aside.
fn one_tree_without(graph: &DistanceGraph, set: &Vec<usize>, k: usize) -> (value: u128)
    requires
        k < set.len(),
        route_in_graph(graph@.len(), set@),
    ensures
        value == one_tree_value(graph@, set@, k as int),
        is_location_set(graph@, set@) ==> forall|tour: Seq<usize>| #[trigger]
            is_closed_tour(graph@, set@, tour) && tour[1] == set[k as int] ==> value
                <= route_cost(graph@, tour),
{
    let depot = graph.depot();
    let mut rest: Vec<usize> = Vec::new();
    let mut i: usize = 0;
    while i < set.len()
        invariant
            i <= set.len(),
            k < set.len(),
            rest@ == if i <= k {
                set@.take(i as int)
            } else {
                set@.take(i as int).remove(k as int)
            },
        decreases set.len() - i,
    {
        if i != k {
            rest.push(set[i]);
        }
        proof {
            if i < k {
                assert(set@.take(i as int).push(set[i as int]) =~= set@.take(i + 1));
            } else if i == k {
                assert(set@.take(i as int) =~= set@.take(i + 1).remove(k as int));
            } else {
                assert(set@.take(i as int).remove(k as int).push(set[i as int]) =~= set@.take(
                    i + 1,
                ).remove(k as int));
            }
        }
        i = i + 1;
    }
    assert(set@.take(i as int) =~= set@);
    rest.push(depot);
    assert(rest@ == others(graph@, set@, k as int));
    let tree = spanning_weight(graph, &rest);
    let link = cheapest_link(graph, set[k], &rest);
    proof {
        lemma_least_link_bound(graph@, set[k as int], rest@, rest.len() - 1);
        if is_location_set(graph@, set@) {
            assert forall|tour: Seq<usize>| #[trigger]
                is_closed_tour(graph@, set@, tour) && tour[1] == set[k as int] implies tree + link
                <= route_cost(graph@, tour) by {
                lemma_tour_rest_spans(graph@, set@, k as int, tour);
            }
        }
    }
    assert(usize::MAX * u64::MAX + u64::MAX <= u128::MAX) by (nonlinear_arith)
        requires
            usize::MAX <= 0xffff_ffff_ffff_ffff,
            u64::MAX == 0xffff_ffff_ffff_ffff,
            u128::MAX == 0xffff_ffff_ffff_ffff_ffff_ffff_ffff_ffff,
    ;
    tree + link as u128
}

/// Computes the 1-tree bound of `set`: for each member, the weight of a
/// minimum spanning tree over the other members and the depot plus the
/// cheapest edge from that member to one of them; of these values the least.
/// No closed tour over the set and the depot costs less.
pub fn one_tree_bound(graph: &DistanceGraph, set: &Vec<usize>) -> (bound: u128)
    requires
        set.len() >= 1,
        route_in_graph(graph@.len(), set@),
    ensures
        bound == one_tree(graph@, set@),
        is_location_set(graph@, set@) ==> forall|tour: Seq<usize>| #[trigger]
            is_closed_tour(graph@, set@, tour) ==> bound <= route_cost(graph@, tour),
{
    let mut bound = one_tree_without(graph, set, 0);
    let mut k: usize = 1;
    while k < set.len()
        invariant
            1 <= k <= set.len(),
            route_in_graph(graph@.len(), set@),
            bound == least_one_tree(graph@, set@, k as nat),
            is_location_set(graph@, set@) ==> forall|tour: Seq<usize>, j: int|
                #![trigger is_closed_tour(graph@, set@, tour), set@[j]]
                0 <= j < k && is_closed_tour(graph@, set@, tour) && tour[1] == set@[j] ==> bound
                    <= route_cost(graph@, tour),
        decreases set.len() - k,
    {
        let value = one_tree_without(graph, set, k);
        if value < bound {
            bound = value;
        }
        k = k + 1;
    }
    proof {
        if is_location_set(graph@, set@) {
            assert forall|tour: Seq<usize>| #[trigger]
                is_closed_tour(graph@, set@, tour) implies bound <= route_cost(graph@, tour) by {
                assert(set@.contains(tour[1]));
                let j = choose|j: int| 0 <= j < set@.len() && set@[j] == tour[1];
                assert(tour[1] == set@[j]);
            }
        }
    }
    bound
}

} // verus!
