//! Fixed-width batches of costs. Each operation takes whole batches and
//! hands back a whole batch or one number; every lane is treated alike,
//! with the clamped addition and the unsigned comparison of single costs.

use vstd::prelude::*;
use crate::cost::{min_cost, sat_add, UNREACHABLE};

verus! {

/// The number of costs that one batch holds.
pub const LANES: usize = 8;

/// The least of the first `upto` values, [`UNREACHABLE`] where there is
/// none.
pub open spec fn least_of(values: Seq<u32>, upto: int) -> int
    decreases upto,
{
    if upto <= 0 {
        UNREACHABLE as int
    } else {
        min_cost(least_of(values, upto - 1), values[upto - 1] as int)
    }
}

/// The least of the lane-wise minima of two batches is the smaller of the
/// two batches' least values.
pub proof fn lemma_least_of_min(a: Seq<u32>, b: Seq<u32>, both: Seq<u32>, upto: int)
    requires
        forall|k: int|
            0 <= k < upto ==> #[trigger] both[k] as int == min_cost(a[k] as int, b[k] as int),
    ensures
        least_of(both, upto) == min_cost(least_of(a, upto), least_of(b, upto)),
    decreases upto,
{
    if upto > 0 {
        lemma_least_of_min(a, b, both, upto - 1);
    }
}

/// A batch with [`UNREACHABLE`] in every lane.
pub fn lanes_unreachable() -> (lanes: [u32; LANES])
    ensures
        forall|k: int| 0 <= k < LANES ==> #[trigger] lanes@[k] == UNREACHABLE,
        least_of(lanes@, LANES as int) == UNREACHABLE,
{
    let lanes = [u32::MAX;LANES];
    proof {
        assert forall|k: int| 0 <= k <= LANES implies least_of(lanes@, k) == UNREACHABLE by {
            lemma_all_unreachable(lanes@, k);
        }
    }
    lanes
}

proof fn lemma_all_unreachable(values: Seq<u32>, upto: int)
    requires
        0 <= upto <= values.len(),
        forall|k: int| 0 <= k < values.len() ==> #[trigger] values[k] == UNREACHABLE,
    ensures
        least_of(values, upto) == UNREACHABLE,
    decreases upto,
{
    if upto > 0 {
        lemma_all_unreachable(values, upto - 1);
    }
}

/// Loads the batch of the `LANES` costs that start at `table[at]`.
pub fn lanes_load(table: &Vec<u32>, at: usize) -> (lanes: [u32; LANES])
    requires
        at + LANES <= table.len(),
    ensures
        forall|k: int| 0 <= k < LANES ==> #[trigger] lanes@[k] == table@[at + k],
{
    let mut lanes = [0u32;LANES];
    for k in 0..LANES
        invariant
            at + LANES <= table.len(),
            forall|done: int| 0 <= done < k ==> #[trigger] lanes@[done] == table@[at + done],
    {
        lanes[k] = table[at + k];
    }
    lanes
}

/// Lane-wise addition, clamped in every lane as the addition of two
/// single costs is.
pub fn lanes_add(a: &[u32; LANES], b: &[u32; LANES]) -> (sum: [u32; LANES])
    ensures
        forall|k: int|
            0 <= k < LANES ==> #[trigger] sum@[k] as int == sat_add(a@[k] as int, b@[k] as int),
{
    let mut sum = [0u32;LANES];
    for k in 0..LANES
        invariant
            forall|done: int|
                0 <= done < k ==> #[trigger] sum@[done] as int == sat_add(
                    a@[done] as int,
                    b@[done] as int,
                ),
    {
        sum[k] = a[k].saturating_add(b[k]);
    }
    sum
}

/// Lane-wise minimum by unsigned comparison.
pub fn lanes_min(a: &[u32; LANES], b: &[u32; LANES]) -> (least: [u32; LANES])
    ensures
        forall|k: int|
            0 <= k < LANES ==> #[trigger] least@[k] as int == min_cost(a@[k] as int, b@[k] as int),
{
    let mut least = [0u32;LANES];
    for k in 0..LANES
        invariant
            forall|done: int|
                0 <= done < k ==> #[trigger] least@[done] as int == min_cost(
                    a@[done] as int,
                    b@[done] as int,
                ),
    {
        least[k] = if b[k] < a[k] {
            b[k]
        } else {
            a[k]
        };
    }
    least
}

/// The least cost in a batch.
pub fn lanes_reduce_min(lanes: &[u32; LANES]) -> (least: u32)
    ensures
        least as int == least_of(lanes@, LANES as int),
{
    let mut least = u32::MAX;
    for k in 0..LANES
        invariant
            least as int == least_of(lanes@, k as int),
    {
        if lanes[k] < least {
            least = lanes[k];
        }
    }
    least
}

} // verus!
