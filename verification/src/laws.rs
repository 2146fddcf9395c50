//! Laws of the solver that relate several of its parts.

use vstd::prelude::*;
use vstd::arithmetic::power2::pow2;
use crate::cost::{sat_add, UNREACHABLE};
use crate::nodeset::{has_node, lemma_full_mask_members, lemma_full_mask_value, lemma_small_sets};
use crate::protocol::{
    answer_line,
    expected_answer,
    first_bad_row,
    node_count,
    row_line,
    solvable,
    MalformedInput,
};
use crate::recurrence::{
    best_closing,
    best_path,
    best_step,
    lemma_optimal_cost_is_min,
    optimal_cost,
};
use crate::solver::{entry, lemma_small_tables_fit, DpSolver};
use crate::text::{lemma_lines_len, lemma_tokens_len, nth_line, tokens};
use crate::tour::{
    is_answer,
    is_min_tour_cost,
    is_path,
    is_square,
    is_tour,
    lemma_min_tour_cost_unique,
    path_cost,
    tour_cost,
};

verus! {

/// `perm` gives each of the nodes `0, .., n - 1` a new name among them: no
/// two nodes get the same name, every name is given, and node 0 keeps its
/// name.
pub open spec fn is_relabeling(perm: Seq<int>, n: int) -> bool {
    &&& perm.len() == n
    &&& n > 0 ==> perm[0] == 0
    &&& forall|i: int| 0 <= i < n ==> 0 <= #[trigger] perm[i] < n
    &&& forall|i: int, j: int| 0 <= i < j < n ==> perm[i] != perm[j]
    &&& forall|k: int| 0 <= k < n ==> perm.contains(k)
}

/// `other` is the matrix `dist` with its nodes renamed by `perm`.
pub open spec fn is_relabeled(dist: Seq<Seq<u32>>, perm: Seq<int>, other: Seq<Seq<u32>>) -> bool {
    &&& other.len() == dist.len()
    &&& is_square(other)
    &&& forall|i: int, j: int|
        0 <= i < dist.len() && 0 <= j < dist.len() ==> other[#[trigger] perm[i]][#[trigger] perm[j]]
            == dist[i][j]
}

/// The nodes of `path` under their new names.
pub open spec fn relabel_path(perm: Seq<int>, path: Seq<int>) -> Seq<int> {
    Seq::new(path.len(), |k: int| perm[path[k]])
}

/// The renaming that undoes `perm`.
pub open spec fn inverse_relabeling(perm: Seq<int>) -> Seq<int> {
    Seq::new(perm.len(), |k: int| choose|i: int| 0 <= i < perm.len() && perm[i] == k)
}

/// A renamed path is a path, and it costs in the renamed matrix what the
/// path costs in the matrix.
proof fn lemma_relabel_path(
    dist: Seq<Seq<u32>>,
    perm: Seq<int>,
    other: Seq<Seq<u32>>,
    path: Seq<int>,
)
    requires
        is_relabeling(perm, dist.len() as int),
        is_relabeled(dist, perm, other),
        is_path(dist.len() as int, path),
    ensures
        is_path(dist.len() as int, relabel_path(perm, path)),
        path_cost(other, relabel_path(perm, path)) == path_cost(dist, path),
    decreases path.len(),
{
    let renamed = relabel_path(perm, path);
    if path.len() > 1 {
        let head = path.drop_last();
        lemma_relabel_path(dist, perm, other, head);
        assert(renamed.drop_last() =~= relabel_path(perm, head));
    }
}

/// A renamed tour is a tour of the same cost.
proof fn lemma_relabel_tour(
    dist: Seq<Seq<u32>>,
    perm: Seq<int>,
    other: Seq<Seq<u32>>,
    tour: Seq<int>,
)
    requires
        is_relabeling(perm, dist.len() as int),
        is_relabeled(dist, perm, other),
        is_tour(dist.len() as int, tour),
    ensures
        is_tour(dist.len() as int, relabel_path(perm, tour)),
        tour_cost(other, relabel_path(perm, tour)) == tour_cost(dist, tour),
{
    let n = dist.len() as int;
    let renamed = relabel_path(perm, tour);
    lemma_relabel_path(dist, perm, other, tour);
    assert forall|k: int| 0 <= k < n implies renamed.contains(k) by {
        assert(perm.contains(k));
        let i = choose|i: int| 0 <= i < perm.len() && perm[i] == k;
        assert(tour.contains(i));
        let a = choose|a: int| 0 <= a < tour.len() && tour[a] == i;
        assert(renamed[a] == k);
    }
}

/// The renaming that undoes `perm` is a renaming, and it turns the renamed
/// matrix back into the matrix.
proof fn lemma_inverse_relabeling(dist: Seq<Seq<u32>>, perm: Seq<int>, other: Seq<Seq<u32>>)
    requires
        is_square(dist),
        is_relabeling(perm, dist.len() as int),
        is_relabeled(dist, perm, other),
    ensures
        is_relabeling(inverse_relabeling(perm), dist.len() as int),
        is_relabeled(other, inverse_relabeling(perm), dist),
        forall|k: int| 0 <= k < dist.len() ==> perm[#[trigger] inverse_relabeling(perm)[k]] == k,
{
    let n = dist.len() as int;
    let back = inverse_relabeling(perm);
    assert forall|k: int| 0 <= k < n implies 0 <= #[trigger] back[k] < n && perm[back[k]] == k by {
        assert(perm.contains(k));
    }
    assert forall|k: int| 0 <= k < n implies back.contains(k) by {
        assert(back[perm[k]] == k);
    }
}

/// What is the least tour cost of a matrix is the least tour cost of the
/// renamed matrix.
proof fn lemma_relabeling_keeps_min(
    dist: Seq<Seq<u32>>,
    perm: Seq<int>,
    other: Seq<Seq<u32>>,
    cost: int,
)
    requires
        is_square(dist),
        is_relabeling(perm, dist.len() as int),
        is_relabeled(dist, perm, other),
        is_min_tour_cost(dist, cost),
    ensures
        is_min_tour_cost(other, cost),
{
    let n = dist.len() as int;
    let back = inverse_relabeling(perm);
    lemma_inverse_relabeling(dist, perm, other);
    assert forall|tour: Seq<int>| #[trigger] is_tour(n, tour) implies cost <= tour_cost(
        other,
        tour,
    ) by {
        lemma_relabel_tour(other, back, dist, tour);
    }
    if cost < UNREACHABLE {
        let tour = choose|tour: Seq<int>| #[trigger]
            is_tour(n, tour) && tour_cost(dist, tour) == cost;
        lemma_relabel_tour(dist, perm, other, tour);
    }
}

/// Relabeling invariance: giving the nodes other names, node 0 keeping
/// its own, and moving the distances along leaves the answer as it is:
/// what is the answer for the one matrix is the answer for the other. The
/// matrix need not be symmetric.
pub proof fn lemma_relabeling_keeps_answer(
    dist: Seq<Seq<u32>>,
    perm: Seq<int>,
    other: Seq<Seq<u32>>,
    cost: int,
)
    requires
        is_square(dist),
        is_relabeling(perm, dist.len() as int),
        is_relabeled(dist, perm, other),
    ensures
        is_answer(dist, cost) <==> is_answer(other, cost),
{
    if dist.len() >= 2 {
        lemma_inverse_relabeling(dist, perm, other);
        if is_answer(dist, cost) {
            lemma_relabeling_keeps_min(dist, perm, other, cost);
        }
        if is_answer(other, cost) {
            lemma_relabeling_keeps_min(other, inverse_relabeling(perm), dist, cost);
        }
    }
}

/// Relabeling invariance of the cost that the solver returns.
pub proof fn lemma_relabeling_keeps_cost(
    dist: Seq<Seq<u32>>,
    perm: Seq<int>,
    other: Seq<Seq<u32>>,
)
    requires
        is_square(dist),
        dist.len() < usize::BITS,
        is_relabeling(perm, dist.len() as int),
        is_relabeled(dist, perm, other),
    ensures
        optimal_cost(other) == optimal_cost(dist),
{
    if dist.len() >= 2 {
        lemma_optimal_cost_is_min(dist);
        lemma_optimal_cost_is_min(other);
        lemma_relabeling_keeps_answer(dist, perm, other, optimal_cost(dist));
        lemma_min_tour_cost_unique(other, optimal_cost(dist), optimal_cost(other));
    }
}

/// Two matrices that differ on the diagonal alone.
pub open spec fn same_off_diagonal(dist: Seq<Seq<u32>>, other: Seq<Seq<u32>>) -> bool {
    &&& other.len() == dist.len()
    &&& is_square(other)
    &&& forall|i: int, j: int|
        0 <= i < dist.len() && 0 <= j < dist.len() && i != j ==> #[trigger] other[i][j]
            == dist[i][j]
}

/// A path never uses the diagonal: it costs the same in two matrices that
/// differ there alone.
proof fn lemma_path_off_diagonal(dist: Seq<Seq<u32>>, other: Seq<Seq<u32>>, path: Seq<int>)
    requires
        same_off_diagonal(dist, other),
        is_path(dist.len() as int, path),
    ensures
        path_cost(other, path) == path_cost(dist, path),
    decreases path.len(),
{
    if path.len() > 1 {
        lemma_path_off_diagonal(dist, other, path.drop_last());
        let i = path[path.len() - 2];
        let j = path[path.len() - 1];
        assert(other[i][j] == dist[i][j]);
    }
}

/// The diagonal is never travelled: two matrices that differ there alone
/// have the same answers.
pub proof fn lemma_diagonal_is_unused(dist: Seq<Seq<u32>>, other: Seq<Seq<u32>>, cost: int)
    requires
        is_square(dist),
        same_off_diagonal(dist, other),
    ensures
        is_answer(dist, cost) <==> is_answer(other, cost),
{
    let n = dist.len() as int;
    if n >= 2 {
        assert forall|tour: Seq<int>| #[trigger] is_tour(n, tour) implies tour_cost(other, tour)
            == tour_cost(dist, tour) by {
            lemma_path_off_diagonal(dist, other, tour);
            // a tour of two nodes or more does not end where it starts
            assert(tour.contains(1));
            let last = tour[tour.len() - 1];
            assert(last != tour[0]);
            assert(other[last][0] == dist[last][0]);
        }
    }
}

proof fn bits_of_three()
    by (bit_vector)
    ensures
        ((1usize << 2usize) - 1) as usize == 3usize,
        3usize ^ (1usize << 1usize) == 1usize,
        1usize ^ (1usize << 0usize) == 0usize,
{
}

/// Two nodes: the only tour goes to node 1 and back, and the answer is
/// the clamped sum of the two edges: their sum where it fits 32 bits, with
/// no wrapping, and [`UNREACHABLE`] where it does not.
pub proof fn lemma_two_nodes_cost(dist: Seq<Seq<u32>>)
    requires
        is_square(dist),
        dist.len() == 2,
    ensures
        optimal_cost(dist) == sat_add(dist[0][1] as int, dist[1][0] as int),
        dist[0][1] + dist[1][0] <= UNREACHABLE ==> optimal_cost(dist) == dist[0][1] + dist[1][0],
        dist[0][1] + dist[1][0] > UNREACHABLE ==> optimal_cost(dist) == UNREACHABLE,
{
    bits_of_three();
    lemma_small_sets(0);
    lemma_small_sets(1);
    assert(has_node(3, 1)) by {
        lemma_full_mask_members(2, 1);
    }
    assert(best_path(dist, 1, 0) == 0);
    assert(best_step(dist, 1, 1, 0) == UNREACHABLE);
    assert(best_step(dist, 1, 1, 1) == dist[0][1]);
    assert(best_closing(dist, 1) == UNREACHABLE);
}

/// In a matrix of zeros every path costs nothing.
proof fn lemma_zero_path_cost(dist: Seq<Seq<u32>>, path: Seq<int>)
    requires
        is_square(dist),
        forall|i: int, j: int|
            0 <= i < dist.len() && 0 <= j < dist.len() ==> #[trigger] dist[i][j] == 0,
        is_path(dist.len() as int, path),
    ensures
        path_cost(dist, path) == 0,
    decreases path.len(),
{
    if path.len() > 1 {
        let head = path.drop_last();
        lemma_zero_path_cost(dist, head);
    }
}

/// A matrix of zeros has the answer 0, whatever its size.
pub proof fn lemma_zero_matrix_costs_nothing(dist: Seq<Seq<u32>>)
    requires
        is_square(dist),
        dist.len() < usize::BITS,
        forall|i: int, j: int|
            0 <= i < dist.len() && 0 <= j < dist.len() ==> #[trigger] dist[i][j] == 0,
    ensures
        optimal_cost(dist) == 0,
{
    let n = dist.len() as int;
    if n >= 2 {
        let tour = Seq::new(n as nat, |k: int| k);
        assert forall|k: int| 0 <= k < n implies tour.contains(k) by {
            assert(tour[k] == k);
        }
        assert(is_tour(n, tour));
        lemma_zero_path_cost(dist, tour);
        lemma_optimal_cost_is_min(dist);
    }
}

/// Both engines leave the same table: a filled table is a function of the
/// matrix alone.
pub proof fn lemma_filled_table_is_unique(one: DpSolver, other: DpSolver)
    requires
        one.wf(),
        other.wf(),
        one.is_filled(),
        other.is_filled(),
        one@.dist == other@.dist,
    ensures
        one@.table == other@.table,
{
    let n = one@.nodes;
    lemma_full_mask_value(n);
    assert forall|k: int| 0 <= k < one@.table.len() implies one@.table[k] == other@.table[k] by {
        lemma_place_of_entry(n, k, pow2(n as nat) as int);
        let mask = (k / n) as usize;
        let last = k % n;
        assert(entry(one@.table, n, mask, last) == best_path(one@.dist, mask, last));
        assert(entry(other@.table, n, mask, last) == best_path(one@.dist, mask, last));
    }
}

/// Every place in a table of `sets * n` entries belongs to one set below
/// `sets` and one end node.
proof fn lemma_place_of_entry(n: int, k: int, sets: int)
    by (nonlinear_arith)
    requires
        0 <= k < sets * n,
        0 <= sets,
    ensures
        n > 0,
        0 <= k / n < sets,
        0 <= k % n < n,
        (k / n) * n + k % n == k,
{
}

/// No nodes: the answer is the line `0`, whatever follows the first line.
pub proof fn lemma_no_nodes_answer(text: Seq<char>)
    requires
        node_count(nth_line(text, 0)) == Some(0usize),
    ensures
        solvable(text),
        expected_answer(text) == Ok::<Seq<char>, MalformedInput>(seq!['0', '\n']),
{
    assert(answer_line(0) =~= seq!['0', '\n']);
}

/// One node: the answer is the line `0`, whatever the one distance.
pub proof fn lemma_one_node_answer(text: Seq<char>)
    requires
        node_count(nth_line(text, 0)) == Some(1usize),
        tokens(row_line(text, 0)).len() == 1,
    ensures
        solvable(text),
        expected_answer(text) == Ok::<Seq<char>, MalformedInput>(seq!['0', '\n']),
{
    lemma_small_tables_fit(1);
    assert(first_bad_row(text, 1, 0) is None);
    assert(answer_line(0) =~= seq!['0', '\n']);
}

/// The first bad row, where there is one, is a bad row with none before
/// it; where there is none, no row is bad.
pub proof fn lemma_first_bad_row(text: Seq<char>, n: nat, upto: nat)
    ensures
        match first_bad_row(text, n, upto) {
            Some(k) => k < upto && tokens(row_line(text, k)).len() != n && forall|j: nat|
                j < k ==> tokens(#[trigger] row_line(text, j)).len() == n,
            None => forall|j: nat| j < upto ==> tokens(#[trigger] row_line(text, j)).len() == n,
        },
    decreases upto,
{
    if upto > 0 {
        lemma_first_bad_row(text, n, (upto - 1) as nat);
    }
}

/// Shape is enforced: an input is answered with a cost exactly when its
/// first line holds a node count `n` and each of the `n` lines after it
/// holds `n` tokens; a missing line holds none.
pub proof fn lemma_answered_iff_well_shaped(text: Seq<char>)
    ensures
        expected_answer(text) is Ok <==> (node_count(nth_line(text, 0)) matches Some(n) && forall|
            k: nat,
        | k < n ==> tokens(#[trigger] row_line(text, k)).len() == n),
        node_count(nth_line(text, 0)) is None ==> expected_answer(text) == Err::<
            Seq<char>,
            MalformedInput,
        >(MalformedInput::NodeCount),
{
    if let Some(n) = node_count(nth_line(text, 0)) {
        lemma_first_bad_row(text, n as nat, n as nat);
    }
}

/// A row with the wrong number of tokens makes the input an error that
/// names the first such row and says how many tokens it holds.
pub proof fn lemma_wrong_row_is_rejected(text: Seq<char>, k: nat)
    requires
        text.len() <= usize::MAX,
        node_count(nth_line(text, 0)) matches Some(n) && k < n && tokens(row_line(text, k)).len()
            != n,
    ensures
        expected_answer(text) matches Err(MalformedInput::RowLength { line: row, expected, found })
            && 1 <= row <= k + 1 && Some(expected) == node_count(nth_line(text, 0)) && found
            == tokens(row_line(text, (row - 1) as nat)).len() && found != expected,
{
    let n = node_count(nth_line(text, 0))->0;
    lemma_first_bad_row(text, n as nat, n as nat);
    let first = first_bad_row(text, n as nat, n as nat)->0;
    lemma_lines_len(text, first + 1);
    lemma_tokens_len(row_line(text, first));
}

} // verus!
