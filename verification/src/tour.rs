//! What the solver computes, stated over sequences of nodes: paths that
//! start at node 0, tours that visit every node, their costs, and what it
//! means for a cost to be the least one.

use vstd::prelude::*;
use crate::cost::UNREACHABLE;
use crate::nodeset::has_node;

verus! {

/// A distance matrix has as many columns in every row as it has rows.
/// `dist[i][j]` is the cost of the edge from node `i` to node `j`.
pub open spec fn is_square(dist: Seq<Seq<u32>>) -> bool {
    forall|i: int| 0 <= i < dist.len() ==> (#[trigger] dist[i]).len() == dist.len()
}

/// A path among `n` nodes: it starts at node 0, stays among the nodes
/// `0, .., n - 1`, and visits no node twice.
pub open spec fn is_path(n: int, path: Seq<int>) -> bool {
    &&& path.len() > 0
    &&& path[0] == 0
    &&& forall|k: int| 0 <= k < path.len() ==> 0 <= #[trigger] path[k] < n
    &&& forall|a: int, b: int| 0 <= a < b < path.len() ==> path[a] != path[b]
}

/// The nodes on `path` are exactly the members of `mask`.
pub open spec fn visits(path: Seq<int>, mask: usize) -> bool {
    forall|k: int|
        #![trigger has_node(mask, k)]
        #![trigger path.contains(k)]
        has_node(mask, k) <==> path.contains(k)
}

/// The sum of the costs of the edges along `path`, unclamped.
pub open spec fn path_cost(dist: Seq<Seq<u32>>, path: Seq<int>) -> int
    decreases path.len(),
{
    if path.len() <= 1 {
        0
    } else {
        path_cost(dist, path.drop_last()) + dist[path[path.len() - 2]][path[path.len() - 1]]
    }
}

/// A tour among `n` nodes: a path that visits every node. The edge from its
/// last node back to node 0 closes the cycle.
pub open spec fn is_tour(n: int, tour: Seq<int>) -> bool {
    &&& is_path(n, tour)
    &&& forall|k: int| 0 <= k < n ==> tour.contains(k)
}

/// The cost of the closed cycle: the path and the edge back to node 0.
pub open spec fn tour_cost(dist: Seq<Seq<u32>>, tour: Seq<int>) -> int {
    path_cost(dist, tour) + dist[tour.last()][0]
}

/// `cost` is the least cost of a path that starts at node 0, visits exactly
/// the members of `mask` and ends at `last`, clamped to [`UNREACHABLE`];
/// where there is no such path it is [`UNREACHABLE`].
pub open spec fn is_min_path_cost(dist: Seq<Seq<u32>>, mask: usize, last: int, cost: int) -> bool {
    let n = dist.len() as int;
    &&& 0 <= cost <= UNREACHABLE
    &&& forall|path: Seq<int>|
        is_path(n, path) && #[trigger] visits(path, mask) && path.last() == last ==> cost
            <= path_cost(dist, path)
    &&& cost < UNREACHABLE ==> exists|path: Seq<int>|
        is_path(n, path) && #[trigger] visits(path, mask) && path.last() == last && path_cost(
            dist,
            path,
        ) == cost
}

/// `cost` is the least cost of a tour, clamped to [`UNREACHABLE`].
pub open spec fn is_min_tour_cost(dist: Seq<Seq<u32>>, cost: int) -> bool {
    let n = dist.len() as int;
    &&& 0 <= cost <= UNREACHABLE
    &&& forall|tour: Seq<int>| #[trigger] is_tour(n, tour) ==> cost <= tour_cost(dist, tour)
    &&& cost < UNREACHABLE ==> exists|tour: Seq<int>| #[trigger]
        is_tour(n, tour) && tour_cost(dist, tour) == cost
}

/// `cost` is the answer for `dist`: 0 where there are fewer than two nodes
/// and so no edge to travel, the least tour cost otherwise.
pub open spec fn is_answer(dist: Seq<Seq<u32>>, cost: int) -> bool {
    if dist.len() <= 1 {
        cost == 0
    } else {
        is_min_tour_cost(dist, cost)
    }
}

/// The least tour cost is one number: two costs that are both least are
/// equal.
pub proof fn lemma_min_tour_cost_unique(dist: Seq<Seq<u32>>, a: int, b: int)
    requires
        is_min_tour_cost(dist, a),
        is_min_tour_cost(dist, b),
    ensures
        a == b,
{
}

/// The answer is one number.
pub proof fn lemma_answer_unique(dist: Seq<Seq<u32>>, a: int, b: int)
    requires
        is_answer(dist, a),
        is_answer(dist, b),
    ensures
        a == b,
{
}

} // verus!
