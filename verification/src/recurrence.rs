//! The subset recurrence that the solver's table follows, as functions of
//! the distance matrix alone, and the proof that it yields least path and
//! tour costs.

use vstd::prelude::*;
use crate::cost::{min_cost, sat_add, UNREACHABLE};
use crate::nodeset::{
    full_mask,
    has_node,
    lemma_full_mask_members,
    lemma_nonempty_member,
    lemma_small_sets,
    lemma_without_member,
    lemma_without_smaller,
    without,
};
use crate::tour::{
    is_min_path_cost,
    is_min_tour_cost,
    is_path,
    is_square,
    is_tour,
    path_cost,
    tour_cost,
    visits,
};

verus! {

/// The table entry for the set `mask` and the end node `last`: 0 for the
/// path that is node 0 alone; the cheapest way to extend an entry of
/// `mask` without `last` by the edge to `last`, where `last` is a member
/// and other members are left; [`UNREACHABLE`] everywhere else.
pub open spec fn best_path(dist: Seq<Seq<u32>>, mask: usize, last: int) -> int
    decreases mask, 0int,
{
    if 0 <= last < dist.len() && has_node(mask, last) {
        let prev = without(mask, last);
        if prev == 0 {
            if last == 0 {
                0
            } else {
                UNREACHABLE as int
            }
        } else {
            proof {
                lemma_without_smaller(mask, last);
            }
            best_step(dist, prev, last, dist.len() as int)
        }
    } else {
        UNREACHABLE as int
    }
}

/// The least of `best_path(dist, prev, j) + dist[j][last]`, clamped, over
/// the members `j` of `prev` below `upto`.
pub open spec fn best_step(dist: Seq<Seq<u32>>, prev: usize, last: int, upto: int) -> int
    decreases prev, upto,
{
    if upto <= 0 {
        UNREACHABLE as int
    } else {
        let j = upto - 1;
        let rest = best_step(dist, prev, last, j);
        if has_node(prev, j) {
            min_cost(rest, sat_add(best_path(dist, prev, j), dist[j][last] as int))
        } else {
            rest
        }
    }
}

/// The least of `best_path(dist, all, i) + dist[i][0]`, clamped, over the
/// nodes `i` from 1 up to but not including `upto`, where `all` is the set
/// of all nodes.
pub open spec fn best_closing(dist: Seq<Seq<u32>>, upto: int) -> int
    decreases upto,
{
    if upto <= 1 {
        UNREACHABLE as int
    } else {
        let i = upto - 1;
        min_cost(
            best_closing(dist, i),
            sat_add(best_path(dist, full_mask(dist.len() as int), i), dist[i][0] as int),
        )
    }
}

/// The answer for `dist` by the recurrence: 0 for fewer than two nodes,
/// else the cheapest way to close a path through all nodes.
pub open spec fn optimal_cost(dist: Seq<Seq<u32>>) -> int {
    if dist.len() <= 1 {
        0
    } else {
        best_closing(dist, dist.len() as int)
    }
}

/// Every entry is a cost: between 0 and [`UNREACHABLE`].
pub proof fn lemma_best_path_range(dist: Seq<Seq<u32>>, mask: usize, last: int)
    ensures
        0 <= best_path(dist, mask, last) <= UNREACHABLE,
    decreases mask, 0int,
{
    if 0 <= last < dist.len() && has_node(mask, last) && without(mask, last) != 0 {
        lemma_without_smaller(mask, last);
        lemma_best_step_range(dist, without(mask, last), last, dist.len() as int);
    }
}

/// Every step minimum is a cost: between 0 and [`UNREACHABLE`].
pub proof fn lemma_best_step_range(dist: Seq<Seq<u32>>, prev: usize, last: int, upto: int)
    ensures
        0 <= best_step(dist, prev, last, upto) <= UNREACHABLE,
    decreases prev, upto,
{
    if upto > 0 {
        lemma_best_step_range(dist, prev, last, upto - 1);
        if has_node(prev, upto - 1) {
            lemma_best_path_range(dist, prev, upto - 1);
        }
    }
}

/// Every closing minimum is a cost: between 0 and [`UNREACHABLE`].
pub proof fn lemma_best_closing_range(dist: Seq<Seq<u32>>, upto: int)
    ensures
        0 <= best_closing(dist, upto) <= UNREACHABLE,
    decreases upto,
{
    if upto > 1 {
        lemma_best_closing_range(dist, upto - 1);
        lemma_best_path_range(dist, full_mask(dist.len() as int), upto - 1);
    }
}

/// The step minimum is at most each of the sums it ranges over.
proof fn lemma_best_step_at_most(
    dist: Seq<Seq<u32>>,
    prev: usize,
    last: int,
    upto: int,
    j: int,
)
    requires
        0 <= j < upto,
        has_node(prev, j),
    ensures
        best_step(dist, prev, last, upto) <= sat_add(
            best_path(dist, prev, j),
            dist[j][last] as int,
        ),
    decreases upto,
{
    if j < upto - 1 {
        lemma_best_step_at_most(dist, prev, last, upto - 1, j);
    }
}

/// A step minimum below [`UNREACHABLE`] is one of the sums it ranges over.
proof fn lemma_best_step_attained(dist: Seq<Seq<u32>>, prev: usize, last: int, upto: int) -> (j:
    int)
    requires
        best_step(dist, prev, last, upto) < UNREACHABLE,
    ensures
        0 <= j < upto,
        has_node(prev, j),
        best_step(dist, prev, last, upto) == sat_add(
            best_path(dist, prev, j),
            dist[j][last] as int,
        ),
    decreases upto,
{
    let rest = best_step(dist, prev, last, upto - 1);
    if has_node(prev, upto - 1) && sat_add(
        best_path(dist, prev, upto - 1),
        dist[upto - 1][last] as int,
    ) < rest {
        upto - 1
    } else {
        lemma_best_step_attained(dist, prev, last, upto - 1)
    }
}

/// The closing minimum is at most each of the sums it ranges over.
proof fn lemma_best_closing_at_most(dist: Seq<Seq<u32>>, upto: int, i: int)
    requires
        1 <= i < upto,
    ensures
        best_closing(dist, upto) <= sat_add(
            best_path(dist, full_mask(dist.len() as int), i),
            dist[i][0] as int,
        ),
    decreases upto,
{
    if i < upto - 1 {
        lemma_best_closing_at_most(dist, upto - 1, i);
    }
}

/// A closing minimum below [`UNREACHABLE`] is one of the sums it ranges
/// over.
proof fn lemma_best_closing_attained(dist: Seq<Seq<u32>>, upto: int) -> (i: int)
    requires
        best_closing(dist, upto) < UNREACHABLE,
    ensures
        1 <= i < upto,
        best_closing(dist, upto) == sat_add(
            best_path(dist, full_mask(dist.len() as int), i),
            dist[i][0] as int,
        ),
    decreases upto,
{
    let rest = best_closing(dist, upto - 1);
    if sat_add(best_path(dist, full_mask(dist.len() as int), upto - 1), dist[upto - 1][0] as int)
        < rest {
        upto - 1
    } else {
        lemma_best_closing_attained(dist, upto - 1)
    }
}

/// No path through exactly the members of `mask` to `last` is cheaper than
/// the table entry.
pub proof fn lemma_best_path_is_lower_bound(
    dist: Seq<Seq<u32>>,
    mask: usize,
    last: int,
    path: Seq<int>,
)
    requires
        is_square(dist),
        dist.len() < usize::BITS,
        is_path(dist.len() as int, path),
        visits(path, mask),
        path.last() == last,
    ensures
        best_path(dist, mask, last) <= path_cost(dist, path),
    decreases path.len(),
{
    let n = dist.len() as int;
    let prev = without(mask, last);
    if path.len() == 1 {
        // the path is node 0 alone, so no other node is left in `prev`
        if prev != 0 {
            let j = lemma_nonempty_member(prev);
            lemma_without_member(mask, last, j);
        }
    } else {
        // the path without its last node visits `prev`, and the step
        // minimum ranges over the node it ends at
        let head = path.drop_last();
        let j = head.last();
        assert forall|k: int| has_node(prev, k) <==> head.contains(k) by {
            lemma_without_member(mask, last, k);
            if has_node(prev, k) {
                let a = choose|a: int| 0 <= a < path.len() && path[a] == k;
                assert(head[a] == k);
            }
        }
        lemma_best_path_is_lower_bound(dist, prev, j, head);
        lemma_small_sets(j);
        lemma_best_step_at_most(dist, prev, last, n, j);
    }
}

/// A table entry below [`UNREACHABLE`] is the cost of a path through
/// exactly the members of `mask` to `last`; the lemma hands one out.
pub proof fn lemma_best_path_is_attained(dist: Seq<Seq<u32>>, mask: usize, last: int) -> (path:
    Seq<int>)
    requires
        is_square(dist),
        dist.len() < usize::BITS,
        best_path(dist, mask, last) < UNREACHABLE,
    ensures
        is_path(dist.len() as int, path),
        visits(path, mask),
        path.last() == last,
        path_cost(dist, path) == best_path(dist, mask, last),
    decreases mask,
{
    let n = dist.len() as int;
    let prev = without(mask, last);
    if prev == 0 {
        // only the entry of node 0 alone is below `UNREACHABLE` here
        let path = seq![0int];
        assert forall|k: int| has_node(mask, k) <==> path.contains(k) by {
            lemma_without_member(mask, last, k);
            lemma_small_sets(k);
            if k == 0 {
                assert(path[0] == k);
            }
        }
        path
    } else {
        // extend a cheapest path through `prev` by the edge to `last`
        lemma_without_smaller(mask, last);
        let j = lemma_best_step_attained(dist, prev, last, n);
        let head = lemma_best_path_is_attained(dist, prev, j);
        let path = head.push(last);
        lemma_without_member(mask, last, last);
        assert forall|k: int| has_node(mask, k) <==> path.contains(k) by {
            lemma_without_member(mask, last, k);
            if has_node(mask, k) {
                if k == last {
                    assert(path[path.len() - 1] == k);
                } else {
                    let a = choose|a: int| 0 <= a < head.len() && head[a] == k;
                    assert(path[a] == k);
                }
            }
        }
        assert(path.drop_last() =~= head);
        path
    }
}

/// The table entry is the least cost of a path through exactly the
/// members of `mask` to `last`.
pub proof fn lemma_best_path_is_min(dist: Seq<Seq<u32>>, mask: usize, last: int)
    requires
        is_square(dist),
        dist.len() < usize::BITS,
    ensures
        is_min_path_cost(dist, mask, last, best_path(dist, mask, last)),
{
    let n = dist.len() as int;
    let cost = best_path(dist, mask, last);
    lemma_best_path_range(dist, mask, last);
    assert forall|path: Seq<int>|
        is_path(n, path) && #[trigger] visits(path, mask) && path.last() == last implies cost
        <= path_cost(dist, path) by {
        lemma_best_path_is_lower_bound(dist, mask, last, path);
    }
    if cost < UNREACHABLE {
        lemma_best_path_is_attained(dist, mask, last);
    }
}

/// Every path starts at node 0: the entries of a set without node 0 are
/// [`UNREACHABLE`].
pub proof fn lemma_sets_without_start(dist: Seq<Seq<u32>>, mask: usize, last: int)
    requires
        is_square(dist),
        dist.len() < usize::BITS,
        !has_node(mask, 0),
    ensures
        best_path(dist, mask, last) == UNREACHABLE,
{
    lemma_best_path_range(dist, mask, last);
    if best_path(dist, mask, last) < UNREACHABLE {
        // a path through `mask` would hold node 0
        lemma_best_path_is_attained(dist, mask, last);
    }
}

/// For two nodes or more, the cost that the recurrence gives is the least
/// cost of a tour, clamped to [`UNREACHABLE`].
pub proof fn lemma_optimal_cost_is_min(dist: Seq<Seq<u32>>)
    requires
        is_square(dist),
        2 <= dist.len() < usize::BITS,
    ensures
        is_min_tour_cost(dist, optimal_cost(dist)),
{
    let n = dist.len() as int;
    let all = full_mask(n);
    let cost = optimal_cost(dist);
    lemma_best_closing_range(dist, n);
    assert forall|tour: Seq<int>| #[trigger] is_tour(n, tour) implies cost <= tour_cost(
        dist,
        tour,
    ) by {
        let last = tour.last();
        assert forall|k: int| has_node(all, k) <==> tour.contains(k) by {
            lemma_full_mask_members(n, k);
        }
        lemma_best_path_is_lower_bound(dist, all, last, tour);
        lemma_best_closing_at_most(dist, n, last);
    }
    if cost < UNREACHABLE {
        let i = lemma_best_closing_attained(dist, n);
        let tour = lemma_best_path_is_attained(dist, all, i);
        assert forall|k: int| 0 <= k < n implies tour.contains(k) by {
            lemma_full_mask_members(n, k);
        }
        assert(is_tour(n, tour) && tour_cost(dist, tour) == cost);
    }
}

} // verus!
