//! The table of partial-tour costs and the engines that fill it.

use vstd::prelude::*;
use vstd::arithmetic::power2::{lemma_pow2_strictly_increases, lemma2_to64, pow2};
use crate::cost::{min_cost, sat_add, UNREACHABLE};
use crate::lanes::{
    lanes_add,
    lanes_load,
    lanes_min,
    lanes_reduce_min,
    lanes_unreachable,
    least_of,
    lemma_least_of_min,
    LANES,
};
use crate::nodeset::{
    full_mask,
    has_node,
    lemma_full_mask_value,
    lemma_single_member,
    lemma_small_sets,
    lemma_without_smaller,
    without,
};
use crate::recurrence::{
    best_closing,
    best_path,
    best_step,
    lemma_best_step_range,
    lemma_optimal_cost_is_min,
    optimal_cost,
};
use crate::tour::{is_answer, is_min_tour_cost, is_square};

verus! {

/// Solver for one distance matrix of `n` nodes. `dp[mask * n + last]` is
/// the table entry for the node set `mask` and the end node `last`.
pub struct DpSolver {
    /// The number of nodes.
    pub n: usize,
    /// The distance matrix: `dist[i][j]` is the cost of the edge from node
    /// `i` to node `j`.
    pub dist: Vec<Vec<u32>>,
    /// The table of `2^n * n` entries.
    pub dp: Vec<u32>,
}

/// A matrix held in rows, as a sequence of sequences.
pub open spec fn matrix_view(rows: Vec<Vec<u32>>) -> Seq<Seq<u32>> {
    Seq::new(rows@.len(), |r: int| rows@[r]@)
}

/// A solver as mathematics sees it.
pub struct SolverView {
    /// The number of nodes.
    pub nodes: int,
    /// The distance matrix, row by row.
    pub dist: Seq<Seq<u32>>,
    /// The table, set by set.
    pub table: Seq<u32>,
}

impl View for DpSolver {
    type V = SolverView;

    open spec fn view(&self) -> SolverView {
        SolverView {
            nodes: self.n as int,
            dist: matrix_view(self.dist),
            table: self.dp@,
        }
    }
}

/// Which engine fills the table. Both give the same table and the same
/// answer; they differ in speed alone.
#[derive(Clone, Copy, Debug, PartialEq, Eq)]
pub enum Engine {
    /// One predecessor at a time.
    Scalar,
    /// Predecessors in batches of [`LANES`], then the rest one at a time.
    Lanes,
}

/// The table has one entry for each set of nodes and each end node:
/// `2^n * n` of them.
pub open spec fn table_len(n: int) -> int {
    pow2(n as nat) * n
}

/// A table for `n` nodes can be addressed on this machine.
pub open spec fn table_fits(n: int) -> bool {
    0 <= n < usize::BITS && table_len(n) <= usize::MAX
}

/// The entry of `table` for the set `mask` and the end node `last`.
pub open spec fn entry(table: Seq<u32>, n: int, mask: usize, last: int) -> int {
    table[mask * n + last] as int
}

/// What a fresh table holds for the set `mask` and the end node `last`: 0
/// for the path that is node 0 alone, [`UNREACHABLE`] everywhere else.
pub open spec fn seed_cost(mask: usize, last: int) -> int {
    if mask == 1 && last == 0 {
        0
    } else {
        UNREACHABLE as int
    }
}

/// A fresh table for `n` nodes. The entry of the set `1` and the end node 0
/// has the place `1 * n + 0`.
pub open spec fn seeded_table(n: int) -> Seq<u32> {
    Seq::new(
        table_len(n) as nat,
        |k: int|
            if k == n {
                0u32
            } else {
                UNREACHABLE
            },
    )
}

/// The entries that no engine writes: those whose end node is no member of
/// the set, and those whose set is the end node alone.
pub open spec fn is_fixed(mask: usize, last: int) -> bool {
    !has_node(mask, last) || without(mask, last) == 0
}

/// Every entry of `table` for a set numerically below `bound` is what the
/// recurrence gives.
pub open spec fn filled_below(table: Seq<u32>, dist: Seq<Seq<u32>>, bound: int) -> bool {
    forall|mask: usize, last: int|
        mask < bound && 0 <= last < dist.len() ==> #[trigger] entry(
            table,
            dist.len() as int,
            mask,
            last,
        ) == best_path(dist, mask, last)
}

/// Two entries that share a place in the table are the same entry.
proof fn lemma_entry_place(n: int, mask: int, last: int, other_mask: int, other_last: int)
    by (nonlinear_arith)
    requires
        0 <= last < n,
        0 <= other_last < n,
        mask * n + last == other_mask * n + other_last,
    ensures
        mask == other_mask,
        last == other_last,
{
}

/// Every entry of a set below `sets` lies inside a table of `sets * n`
/// entries.
proof fn lemma_entry_order(n: int, mask: int, last: int, sets: int)
    by (nonlinear_arith)
    requires
        0 <= last < n,
        0 <= mask < sets,
    ensures
        0 <= mask * n,
        mask * n + last < sets * n,
{
}

/// Writing the entry of `mask` and `last` in a table for `sets` sets
/// changes no other entry.
proof fn lemma_entry_written(
    before: Seq<u32>,
    n: int,
    sets: int,
    mask: usize,
    last: int,
    value: u32,
)
    requires
        0 <= last < n,
        mask < sets,
        before.len() == sets * n,
    ensures
        entry(before.update(mask * n + last, value), n, mask, last) == value,
        forall|other: usize, end: int|
            other < sets && 0 <= end < n && !(other == mask && end == last) ==> #[trigger] entry(
                before.update(mask * n + last, value),
                n,
                other,
                end,
            ) == entry(before, n, other, end),
{
    lemma_entry_order(n, mask as int, last, sets);
    assert forall|other: usize, end: int|
        other < sets && 0 <= end < n && !(other == mask && end == last) implies #[trigger] entry(
        before.update(mask * n + last, value),
        n,
        other,
        end,
    ) == entry(before, n, other, end) by {
        lemma_entry_order(n, other as int, end, sets);
        if other * n + end == mask * n + last {
            lemma_entry_place(n, other as int, end, mask as int, last);
        }
    }
}

/// For an entry that no engine writes, the recurrence gives what a fresh
/// table holds.
proof fn lemma_fixed_entry(dist: Seq<Seq<u32>>, mask: usize, last: int)
    requires
        0 <= last < dist.len(),
        is_fixed(mask, last),
    ensures
        best_path(dist, mask, last) == seed_cost(mask, last),
{
    lemma_small_sets(last);
    if has_node(mask, last) {
        lemma_single_member(mask, last);
    }
}

/// In a table whose fixed entries hold what a fresh table holds, they hold
/// what the recurrence gives; so do all entries of the empty set.
proof fn lemma_fixed_entries(table: Seq<u32>, dist: Seq<Seq<u32>>, n: int)
    requires
        n == dist.len(),
        forall|mask: usize, last: int|
            mask <= full_mask(n) && 0 <= last < n && is_fixed(mask, last) ==> #[trigger] entry(
                table,
                n,
                mask,
                last,
            ) == seed_cost(mask, last),
    ensures
        forall|mask: usize, last: int|
            mask <= full_mask(n) && 0 <= last < n && is_fixed(mask, last) ==> #[trigger] entry(
                table,
                n,
                mask,
                last,
            ) == best_path(dist, mask, last),
        filled_below(table, dist, 1),
{
    assert forall|mask: usize, last: int|
        mask <= full_mask(n) && 0 <= last < n && is_fixed(mask, last) implies #[trigger] entry(
        table,
        n,
        mask,
        last,
    ) == best_path(dist, mask, last) by {
        lemma_fixed_entry(dist, mask, last);
    }
    assert forall|mask: usize, last: int| mask < 1 && 0 <= last < n implies #[trigger] entry(
        table,
        n,
        mask,
        last,
    ) == best_path(dist, mask, last) by {
        lemma_small_sets(last);
    }
}

/// A table for at most 27 nodes can be addressed on every machine whose
/// `usize` has 32 bits or more.
pub proof fn lemma_small_tables_fit(n: int)
    requires
        0 <= n <= 27,
    ensures
        table_fits(n),
{
    lemma2_to64();
    assert(pow2(n as nat) * n <= 0x800_0000 * 27) by (nonlinear_arith)
        requires
            0 <= n <= 27,
            pow2(n as nat) <= 0x800_0000,
    ;
}

/// Taking a batch of sums into a step minimum without asking which lanes
/// belong to members of `prev` gives the step minimum over the members:
/// the entry of a node that is no member is [`UNREACHABLE`], and so is any
/// sum with it.
pub proof fn lemma_step_over_batch(
    dist: Seq<Seq<u32>>,
    prev: usize,
    last: int,
    from: int,
    sums: Seq<u32>,
    width: int,
)
    requires
        0 <= from,
        0 <= width <= sums.len(),
        forall|k: int|
            0 <= k < width ==> #[trigger] sums[k] as int == sat_add(
                best_path(dist, prev, from + k),
                dist[from + k][last] as int,
            ),
    ensures
        best_step(dist, prev, last, from + width) == min_cost(
            best_step(dist, prev, last, from),
            least_of(sums, width),
        ),
    decreases width,
{
    lemma_best_step_range(dist, prev, last, from);
    if width > 0 {
        lemma_step_over_batch(dist, prev, last, from, sums, width - 1);
    }
}

impl DpSolver {
    /// The solver's data has the shape that its methods rely on: a square
    /// matrix, a table of `2^n * n` entries, and in the entries that no
    /// engine writes what a fresh table holds.
    pub open spec fn wf(&self) -> bool {
        &&& table_fits(self@.nodes)
        &&& self@.dist.len() == self@.nodes
        &&& is_square(self@.dist)
        &&& self@.table.len() == table_len(self@.nodes)
        &&& forall|mask: usize, last: int|
            mask <= full_mask(self@.nodes) && 0 <= last < self@.nodes && is_fixed(mask, last)
                ==> #[trigger] entry(self@.table, self@.nodes, mask, last) == seed_cost(mask, last)
    }

    /// Every entry of the table is what the recurrence gives: the least
    /// cost, clamped, of a path from node 0 through exactly the members of
    /// its set to its end node.
    pub open spec fn is_filled(&self) -> bool {
        filled_below(self@.table, self@.dist, full_mask(self@.nodes) + 1)
    }

    /// Whether a table for `n` nodes can be addressed on this machine.
    pub fn fits(n: usize) -> (fits: bool)
        ensures
            fits == table_fits(n as int),
    {
        if n >= usize::BITS as usize {
            return false;
        }
        proof {
            lemma_full_mask_value(n as int);
        }
        let sets = 1usize << n;
        sets.checked_mul(n).is_some()
    }

    /// Initialize a new solver for `n` cities with the given distance matrix.
    pub fn new(n: usize, dist: Vec<Vec<u32>>) -> (solver: Self)
        requires
            table_fits(n as int),
            matrix_view(dist).len() == n,
            is_square(matrix_view(dist)),
        ensures
            solver.n == n,
            solver.dist == dist,
            solver@.table == seeded_table(n as int),
            solver.wf(),
    {
        proof {
            lemma_full_mask_value(n as int);
        }
        let size = (1usize << n) * n;
        let mut dp = vec![u32::MAX; size];
        if n > 0 {
            proof {
                lemma2_to64();
                lemma_pow2_strictly_increases(0, n as nat);
            }
            assert(n < size) by (nonlinear_arith)
                requires
                    size == pow2(n as nat) * n,
                    pow2(n as nat) >= 2,
                    n > 0,
            ;
            // the entry of the set {0} and the end node 0
            dp[n] = 0;
        }
        let solver = DpSolver { n, dist, dp };
        proof {
            assert(n == 0 ==> size == 0) by (nonlinear_arith)
                requires
                    size == pow2(n as nat) * n,
            ;
            assert forall|mask: usize, last: int|
                mask <= full_mask(n as int) && 0 <= last < n implies #[trigger] entry(
                solver@.table,
                n as int,
                mask,
                last,
            ) == seed_cost(mask, last) by {
                lemma_entry_order(n as int, mask as int, last, pow2(n as nat) as int);
                if mask * n + last == n {
                    lemma_entry_place(n as int, mask as int, last, 1, 0);
                }
            }
        }
        solver
    }

    /// Scalar engine: fills the table set by set in increasing order, taking
    /// the predecessors of each entry one at a time, and closes the cycle.
    /// `full` is the set of all nodes.
    pub fn compute_scalar(&mut self, full: usize) -> (cost: u32)
        requires
            old(self).wf(),
            old(self).n >= 2,
            full == full_mask(old(self)@.nodes),
        ensures
            final(self).wf(),
            final(self).is_filled(),
            final(self)@.nodes == old(self)@.nodes,
            final(self)@.dist == old(self)@.dist,
            cost == optimal_cost(old(self)@.dist),
            is_min_tour_cost(old(self)@.dist, cost as int),
    {
        let n = self.n;
        proof {
            lemma_full_mask_value(n as int);
            lemma_optimal_cost_is_min(self@.dist);
            lemma_fixed_entries(self@.table, self@.dist, n as int);
        }
        for mask in 1..full + 1
            invariant
                self.wf(),
                self.n == n,
                n >= 2,
                self@.dist == old(self)@.dist,
                full == full_mask(n as int),
                full + 1 == pow2(n as nat),
                filled_below(self@.table, self@.dist, mask as int),
        {
            for i in 0..n
                invariant
                    self.wf(),
                    self.n == n,
                    n >= 2,
                    self@.dist == old(self)@.dist,
                    full == full_mask(n as int),
                    full + 1 == pow2(n as nat),
                    1 <= mask <= full,
                    filled_below(self@.table, self@.dist, mask as int),
                    forall|done: int|
                        0 <= done < i ==> #[trigger] entry(self@.table, n as int, mask, done)
                            == best_path(self@.dist, mask, done),
            {
                let ghost before = self@.table;
                proof {
                    lemma_fixed_entries(self@.table, self@.dist, n as int);
                }
                if mask & (1usize << i) != 0 {
                    let prev = mask ^ (1usize << i);
                    if prev != 0 {
                        // the seed entry has `prev == 0` and is never written
                        proof {
                            lemma_without_smaller(mask, i as int);
                            lemma_entry_order(n as int, prev as int, 0, pow2(n as nat) as int);
                            lemma_entry_order(
                                n as int,
                                mask as int,
                                i as int,
                                pow2(n as nat) as int,
                            );
                        }
                        let base = mask * n + i;
                        let base_prev = prev * n;
                        let mut best = u32::MAX;
                        for j in 0..n
                            invariant
                                self.wf(),
                                self.n == n,
                                i < n,
                                prev < mask <= full,
                                full + 1 == pow2(n as nat),
                                base_prev == prev * n,
                                filled_below(self@.table, self@.dist, mask as int),
                                best == best_step(self@.dist, prev, i as int, j as int),
                        {
                            if prev & (1usize << j) != 0 {
                                proof {
                                    assert(self@.dist[j as int] == self.dist@[j as int]@);
                                    lemma_entry_order(
                                        n as int,
                                        prev as int,
                                        j as int,
                                        pow2(n as nat) as int,
                                    );
                                    assert(entry(self@.table, n as int, prev, j as int)
                                        == best_path(self@.dist, prev, j as int));
                                }
                                let cost = self.dp[base_prev + j].saturating_add(self.dist[j][i]);
                                if cost < best {
                                    best = cost;
                                }
                            }
                        }
                        self.dp[base] = best;
                        proof {
                            lemma_entry_written(
                                before,
                                n as int,
                                pow2(n as nat) as int,
                                mask,
                                i as int,
                                best,
                            );
                        }
                    }
                }
            }
        }
        self.close_cycle(full)
    }

    /// Batched engine: fills the same table as [`DpSolver::compute_scalar`],
    /// taking the predecessors of each entry in batches of [`LANES`] with a
    /// lane-wise add-then-minimum, and the predecessors left after the last
    /// full batch one at a time. `full_mask` is the set of all nodes.
    pub fn compute_simd(&mut self, full_mask: usize) -> (cost: u32)
        requires
            old(self).wf(),
            old(self).n >= 2,
            full_mask == crate::nodeset::full_mask(old(self)@.nodes),
        ensures
            final(self).wf(),
            final(self).is_filled(),
            final(self)@.nodes == old(self)@.nodes,
            final(self)@.dist == old(self)@.dist,
            cost == optimal_cost(old(self)@.dist),
            is_min_tour_cost(old(self)@.dist, cost as int),
    {
        let n = self.n;
        let lane = LANES;
        let chunks = n / lane;
        proof {
            lemma_full_mask_value(n as int);
            lemma_optimal_cost_is_min(self@.dist);
            lemma_fixed_entries(self@.table, self@.dist, n as int);
        }
        for mask in 1..full_mask + 1
            invariant
                self.wf(),
                self.n == n,
                n >= 2,
                lane == LANES,
                chunks == n / lane,
                self@.dist == old(self)@.dist,
                full_mask == crate::nodeset::full_mask(n as int),
                full_mask + 1 == pow2(n as nat),
                filled_below(self@.table, self@.dist, mask as int),
        {
            for i in 0..n
                invariant
                    self.wf(),
                    self.n == n,
                    n >= 2,
                    lane == LANES,
                    chunks == n / lane,
                    self@.dist == old(self)@.dist,
                    full_mask == crate::nodeset::full_mask(n as int),
                    full_mask + 1 == pow2(n as nat),
                    1 <= mask <= full_mask,
                    filled_below(self@.table, self@.dist, mask as int),
                    forall|done: int|
                        0 <= done < i ==> #[trigger] entry(self@.table, n as int, mask, done)
                            == best_path(self@.dist, mask, done),
            {
                let ghost before = self@.table;
                proof {
                    lemma_fixed_entries(self@.table, self@.dist, n as int);
                }
                if mask & (1usize << i) != 0 {
                    let prev = mask ^ (1usize << i);
                    if prev != 0 {
                        // the seed entry has `prev == 0` and is never written
                        proof {
                            lemma_without_smaller(mask, i as int);
                            lemma_entry_order(n as int, prev as int, n - 1, pow2(n as nat) as int);
                            lemma_entry_order(
                                n as int,
                                mask as int,
                                i as int,
                                pow2(n as nat) as int,
                            );
                        }
                        let base = mask * n + i;
                        let base_prev = prev * n;

                        let mut best_vec = lanes_unreachable();
                        for c in 0..chunks
                            invariant
                                self.wf(),
                                self.n == n,
                                i < n,
                                lane == LANES,
                                chunks == n / lane,
                                prev < mask <= full_mask,
                                full_mask + 1 == pow2(n as nat),
                                base_prev == prev * n,
                                base_prev + n <= self.dp.len(),
                                filled_below(self@.table, self@.dist, mask as int),
                                least_of(best_vec@, LANES as int) == best_step(
                                    self@.dist,
                                    prev,
                                    i as int,
                                    c * LANES,
                                ),
                        {
                            // a batch takes in every node of its range: the entry
                            // of a node outside `prev` is unreachable, and so is
                            // any sum with it
                            let j0 = c * lane;
                            let dp_vec = lanes_load(&self.dp, base_prev + j0);

                            let mut ds = [0u32;LANES];
                            for k in 0..lane
                                invariant
                                    self.wf(),
                                    self.n == n,
                                    i < n,
                                    lane == LANES,
                                    j0 + LANES <= n,
                                    forall|done: int|
                                        0 <= done < k ==> #[trigger] ds@[done]
                                            == self@.dist[j0 + done][i as int],
                            {
                                proof {
                                    assert(self@.dist[j0 + k] == self.dist@[j0 + k]@);
                                }
                                ds[k] = self.dist[j0 + k][i];
                            }

                            let sum = lanes_add(&dp_vec, &ds);
                            let ghost batch_before = best_vec@;
                            best_vec = lanes_min(&best_vec, &sum);
                            proof {
                                assert forall|k: int|
                                    0 <= k < LANES implies #[trigger] sum@[k] as int == sat_add(
                                    best_path(self@.dist, prev, j0 + k),
                                    self@.dist[j0 + k][i as int] as int,
                                ) by {
                                    assert(entry(self@.table, n as int, prev, j0 + k) == best_path(
                                        self@.dist,
                                        prev,
                                        j0 + k,
                                    ));
                                }
                                lemma_step_over_batch(
                                    self@.dist,
                                    prev,
                                    i as int,
                                    j0 as int,
                                    sum@,
                                    LANES as int,
                                );
                                lemma_least_of_min(batch_before, sum@, best_vec@, LANES as int);
                            }
                        }

                        let mut best = lanes_reduce_min(&best_vec);

                        for j in (chunks * lane)..n
                            invariant
                                self.wf(),
                                self.n == n,
                                i < n,
                                prev < mask <= full_mask,
                                full_mask + 1 == pow2(n as nat),
                                base_prev == prev * n,
                                filled_below(self@.table, self@.dist, mask as int),
                                best == best_step(self@.dist, prev, i as int, j as int),
                        {
                            if prev & (1usize << j) != 0 {
                                proof {
                                    assert(self@.dist[j as int] == self.dist@[j as int]@);
                                    lemma_entry_order(
                                        n as int,
                                        prev as int,
                                        j as int,
                                        pow2(n as nat) as int,
                                    );
                                    assert(entry(self@.table, n as int, prev, j as int)
                                        == best_path(self@.dist, prev, j as int));
                                }
                                let cost = self.dp[base_prev + j].saturating_add(self.dist[j][i]);
                                if cost < best {
                                    best = cost;
                                }
                            }
                        }
                        self.dp[base] = best;
                        proof {
                            lemma_entry_written(
                                before,
                                n as int,
                                pow2(n as nat) as int,
                                mask,
                                i as int,
                                best,
                            );
                        }
                    }
                }
            }
        }
        self.close_cycle(full_mask)
    }

    /// The cheapest way back to node 0 from a path through all nodes.
    fn close_cycle(&self, full: usize) -> (cost: u32)
        requires
            self.wf(),
            self.is_filled(),
            self.n >= 2,
            full == full_mask(self@.nodes),
        ensures
            cost == optimal_cost(self@.dist),
    {
        let n = self.n;
        proof {
            lemma_full_mask_value(n as int);
        }
        let mut result = u32::MAX;
        for i in 1..n
            invariant
                self.wf(),
                self.is_filled(),
                self.n == n,
                full == full_mask(n as int),
                full + 1 == pow2(n as nat),
                result == best_closing(self@.dist, i as int),
        {
            proof {
                assert(self@.dist[i as int] == self.dist@[i as int]@);
                lemma_entry_order(n as int, full as int, i as int, pow2(n as nat) as int);
                assert(entry(self@.table, n as int, full, i as int) == best_path(
                    self@.dist,
                    full,
                    i as int,
                ));
            }
            let cost = self.dp[full * n + i].saturating_add(self.dist[i][0]);
            if cost < result {
                result = cost;
            }
        }
        result
    }

    /// Compute the shortest Hamiltonian cycle length with the engine asked
    /// for. Returns 0 immediately for `n <= 1`, leaving the table as it is.
    pub fn compute(&mut self, engine: Engine) -> (cost: u32)
        requires
            old(self).wf(),
        ensures
            final(self).wf(),
            final(self)@.nodes == old(self)@.nodes,
            final(self)@.dist == old(self)@.dist,
            cost == optimal_cost(old(self)@.dist),
            is_answer(old(self)@.dist, cost as int),
            old(self).n <= 1 ==> final(self)@.table == old(self)@.table,
            old(self).n >= 2 ==> final(self).is_filled(),
    {
        if self.n <= 1 {
            return 0;
        }
        proof {
            lemma_full_mask_value(self.n as int);
        }
        let full_mask = (1usize << self.n) - 1;
        match engine {
            Engine::Lanes => self.compute_simd(full_mask),
            Engine::Scalar => self.compute_scalar(full_mask),
        }
    }
}

} // verus!
