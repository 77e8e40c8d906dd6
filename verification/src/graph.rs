//! The distance graph: a complete, symmetric table of travel costs between
//! the locations and the depot.

use vstd::prelude::*;

verus! {

/// Why a table of weights is no distance graph.
#[derive(Debug, PartialEq, Eq, Clone, Copy)]
pub enum GraphError {
    /// There is no node at all, so no depot either.
    Empty,
    /// Some row does not have one weight for every node.
    Incomplete,
    /// Some weight differs from the one of the opposite direction.
    Asymmetric,
}

/// Every row of `weights` has one entry for each row.
pub open spec fn is_square(weights: Seq<Seq<u64>>) -> bool {
    forall|i: int| 0 <= i < weights.len() ==> (#[trigger] weights[i]).len() == weights.len()
}

/// Each weight equals the one of the opposite direction.
pub open spec fn is_symmetric(weights: Seq<Seq<u64>>) -> bool {
    forall|i: int, j: int|
        0 <= i < weights.len() && 0 <= j < weights.len() ==> weights[i][j] == weights[j][i]
}

/// `weights` is the table of a distance graph: at least one node, complete
/// and symmetric.
pub open spec fn is_distance_table(weights: Seq<Seq<u64>>) -> bool {
    &&& weights.len() > 0
    &&& is_square(weights)
    &&& is_symmetric(weights)
}

/// The rows of a table of weights as sequences.
pub open spec fn rows_of(weights: Seq<Vec<u64>>) -> Seq<Seq<u64>> {
    Seq::new(weights.len(), |i: int| weights[i]@)
}

/// What one step from `a` to `b` costs: the weight of the edge between them,
/// and nothing where the step stays in place.
pub open spec fn leg(weights: Seq<Seq<u64>>, a: usize, b: usize) -> nat {
    if a == b {
        0
    } else {
        weights[a as int][b as int] as nat
    }
}

/// Every node of `route` is a node of a graph with `nodes` nodes.
pub open spec fn route_in_graph(nodes: nat, route: Seq<usize>) -> bool {
    forall|i: int| 0 <= i < route.len() ==> (#[trigger] route[i]) < nodes
}

/// The cost of travelling along `route`: the sum of its steps.
pub open spec fn route_cost(weights: Seq<Seq<u64>>, route: Seq<usize>) -> nat
    decreases route.len(),
{
    if route.len() <= 1 {
        0
    } else {
        route_cost(weights, route.drop_last()) + leg(
            weights,
            route[route.len() - 2],
            route[route.len() - 1],
        )
    }
}

/// A route of `n` nodes costs at most `n - 1` weights of the largest size.
pub proof fn lemma_route_cost_bound(weights: Seq<Seq<u64>>, route: Seq<usize>)
    ensures
        route_cost(weights, route) <= route.len() * u64::MAX,
    decreases route.len(),
{
    if route.len() > 1 {
        lemma_route_cost_bound(weights, route.drop_last());
    }
}

/// One more node adds one step to the cost.
pub proof fn lemma_route_cost_push(weights: Seq<Seq<u64>>, route: Seq<usize>, node: usize)
    requires
        route.len() > 0,
    ensures
        route_cost(weights, route.push(node)) == route_cost(weights, route) + leg(
            weights,
            route.last(),
            node,
        ),
{
    assert(route.push(node).drop_last() =~= route);
}

/// The first step and the rest of the route make up its cost.
pub proof fn lemma_route_cost_front(weights: Seq<Seq<u64>>, route: Seq<usize>)
    requires
        route.len() >= 2,
    ensures
        route_cost(weights, route) == leg(weights, route[0], route[1]) + route_cost(
            weights,
            route.subrange(1, route.len() as int),
        ),
    decreases route.len(),
{
    let rest = route.subrange(1, route.len() as int);
    if route.len() == 2 {
        assert(route_cost(weights, route.drop_last()) == 0);
        assert(route_cost(weights, rest) == 0);
    } else {
        let front = route.drop_last();
        lemma_route_cost_front(weights, front);
        assert(front.subrange(1, front.len() as int) =~= rest.drop_last());
        assert(front[0] == route[0] && front[1] == route[1]);
        assert(rest[rest.len() - 2] == route[route.len() - 2]);
        assert(rest[rest.len() - 1] == route[route.len() - 1]);
    }
}

/// A complete weighted graph over the locations and the depot. The depot is
/// the node with the highest index.
pub struct DistanceGraph {
    weights: Vec<Vec<u64>>,
}

impl View for DistanceGraph {
    type V = Seq<Seq<u64>>;

    closed spec fn view(&self) -> Seq<Seq<u64>> {
        rows_of(self.weights@)
    }
}

/// Whether row `i` of `weights` mirrors column `i` up to column `limit`.
fn row_is_mirrored(weights: &Vec<Vec<u64>>, i: usize) -> (mirrored: bool)
    requires
        i < weights.len(),
        is_square(rows_of(weights@)),
    ensures
        mirrored == forall|j: int|
            0 <= j < weights.len() ==> rows_of(weights@)[i as int][j] == rows_of(weights@)[j][i as int],
{
    let n = weights.len();
    let mut j: usize = 0;
    while j < n
        invariant
            j <= n,
            n == weights.len(),
            i < n,
            is_square(rows_of(weights@)),
            forall|k: int|
                0 <= k < j ==> rows_of(weights@)[i as int][k] == rows_of(weights@)[k][i as int],
        decreases n - j,
    {
        assert(rows_of(weights@)[i as int].len() == n);
        assert(rows_of(weights@)[j as int].len() == n);
        if weights[i][j] != weights[j][i] {
            return false;
        }
        j = j + 1;
    }
    true
}

impl DistanceGraph {
    #[verifier::type_invariant]
    spec fn table_is_sound(&self) -> bool {
        is_distance_table(rows_of(self.weights@))
    }

    /// Makes a graph of a table of weights, `weights[a][b]` being the cost of
    /// the edge between `a` and `b`. The table is refused where it is empty,
    /// where a row has not one weight for each node, or where two opposite
    /// weights differ; the first of these that holds names the error.
    pub fn new(weights: Vec<Vec<u64>>) -> (made: Result<DistanceGraph, GraphError>)
        ensures
            made matches Ok(graph) ==> graph@ == rows_of(weights@) && is_distance_table(graph@),
            made.is_ok() <==> is_distance_table(rows_of(weights@)),
            made == Err::<DistanceGraph, GraphError>(GraphError::Empty) <==> weights.len() == 0,
            made == Err::<DistanceGraph, GraphError>(GraphError::Incomplete) <==> weights.len() > 0
                && !is_square(rows_of(weights@)),
            made == Err::<DistanceGraph, GraphError>(GraphError::Asymmetric) <==> weights.len() > 0
                && is_square(rows_of(weights@)) && !is_symmetric(rows_of(weights@)),
    {
        let n = weights.len();
        if n == 0 {
            return Err(GraphError::Empty);
        }
        let mut i: usize = 0;
        while i < n
            invariant
                i <= n,
                n == weights.len(),
                forall|k: int| 0 <= k < i ==> (#[trigger] rows_of(weights@)[k]).len() == n,
            decreases n - i,
        {
            if weights[i].len() != n {
                assert(rows_of(weights@)[i as int].len() != n);
                return Err(GraphError::Incomplete);
            }
            i = i + 1;
        }
        let mut i: usize = 0;
        while i < n
            invariant
                i <= n,
                n == weights.len(),
                is_square(rows_of(weights@)),
                forall|a: int, b: int|
                    0 <= a < i && 0 <= b < n ==> rows_of(weights@)[a][b] == rows_of(weights@)[b][a],
            decreases n - i,
        {
            if !row_is_mirrored(&weights, i) {
                return Err(GraphError::Asymmetric);
            }
            i = i + 1;
        }
        Ok(DistanceGraph { weights })
    }

    /// Does nothing when run. To the verifier it recalls what holds of the
    /// table of every graph.
    pub(crate) fn recall_table(&self)
        ensures
            is_distance_table(self@),
            self@.len() <= usize::MAX,
    {
        proof {
            use_type_invariant(self);
            assert(self.weights.len() == self.weights@.len());
        }
    }

    /// The number of nodes, the depot included.
    pub fn node_count(&self) -> (nodes: usize)
        ensures
            nodes == self@.len(),
            is_distance_table(self@),
    {
        proof {
            use_type_invariant(self);
        }
        self.weights.len()
    }

    /// The depot: the node with the highest index.
    pub fn depot(&self) -> (depot: usize)
        ensures
            depot == self@.len() - 1,
            is_distance_table(self@),
    {
        proof {
            use_type_invariant(self);
        }
        self.weights.len() - 1
    }

    /// The weight of the edge between `a` and `b`.
    pub fn distance(&self, a: usize, b: usize) -> (weight: u64)
        requires
            a < self@.len(),
            b < self@.len(),
        ensures
            weight == self@[a as int][b as int],
            weight == self@[b as int][a as int],
            is_distance_table(self@),
    {
        proof {
            use_type_invariant(self);
        }
        assert(rows_of(self.weights@)[a as int].len() == self.weights.len());
        self.weights[a][b]
    }
}

/// The cost of the ordered node sequence `route`: the sum of the weights
/// between each node and the next.
pub fn cost(graph: &DistanceGraph, route: &Vec<usize>) -> (total: u128)
    requires
        route.len() >= 1,
        route_in_graph(graph@.len(), route@),
    ensures
        total == route_cost(graph@, route@),
{
    let mut total: u128 = 0;
    let mut i: usize = 1;
    while i < route.len()
        invariant
            1 <= i <= route.len(),
            route_in_graph(graph@.len(), route@),
            total == route_cost(graph@, route@.take(i as int)),
        decreases route.len() - i,
    {
        proof {
            lemma_route_cost_bound(graph@, route@.take(i as int));
            lemma_route_cost_push(graph@, route@.take(i as int), route[i as int]);
            assert(route@.take(i as int).push(route[i as int]) =~= route@.take(i + 1));
        }
        let a = route[i - 1];
        let b = route[i];
        if a != b {
            total = total + graph.distance(a, b) as u128;
        }
        i = i + 1;
    }
    assert(route@.take(i as int) =~= route@);
    total
}

} // verus!
