//! Sets of nodes packed into the bits of a `usize`: bit `i` is set exactly
//! when node `i` belongs to the set.

use vstd::prelude::*;
use vstd::arithmetic::power2::pow2;
use vstd::bits::{lemma_usize_pow2_no_overflow, lemma_usize_shl_is_mul};

verus! {

/// Whether `node` belongs to the set `mask`.
pub open spec fn has_node(mask: usize, node: int) -> bool {
    0 <= node < usize::BITS && mask & (1usize << (node as usize)) != 0
}

/// The set `mask` with the membership of `node` flipped; for a member this
/// is the set without it.
pub open spec fn without(mask: usize, node: int) -> usize {
    mask ^ (1usize << (node as usize))
}

/// The set of the nodes `0, .., n - 1`.
pub open spec fn full_mask(n: int) -> usize
    recommends
        0 <= n < usize::BITS,
{
    ((1usize << (n as usize)) - 1) as usize
}

proof fn bits_without_smaller(mask: usize, i: usize)
    by (bit_vector)
    requires
        i < usize::BITS,
        mask & (1usize << i) != 0,
    ensures
        (mask ^ (1usize << i)) < mask,
{
}

proof fn bits_without_member(mask: usize, i: usize, j: usize)
    by (bit_vector)
    requires
        i < usize::BITS,
        j < usize::BITS,
    ensures
        ((mask ^ (1usize << i)) & (1usize << j) != 0) == ((mask & (1usize << j) != 0) != (i
            == j)),
{
}

proof fn bits_of_zero_and_one(j: usize)
    by (bit_vector)
    requires
        j < usize::BITS,
    ensures
        0usize & (1usize << j) == 0,
        (1usize & (1usize << j) != 0) == (j == 0),
{
}

proof fn bits_of_full(n: usize, j: usize)
    by (bit_vector)
    requires
        n < usize::BITS,
        j < usize::BITS,
    ensures
        ((((1usize << n) - 1) as usize) & (1usize << j) != 0) == (j < n),
{
}

proof fn bits_shifted_out(mask: usize, k: usize)
    by (bit_vector)
    requires
        k < usize::BITS,
        (mask >> k) != 0,
    ensures
        (mask >> k) & 1 == 1 ==> mask & (1usize << k) != 0,
        (mask >> k) & 1 != 1 ==> k + 1 < usize::BITS && (mask >> ((k + 1) as usize)) != 0,
{
}

proof fn bits_single(mask: usize, i: usize)
    by (bit_vector)
    requires
        i < usize::BITS,
        mask ^ (1usize << i) == 0,
    ensures
        mask == 1usize << i,
        i == 0 ==> mask == 1,
{
}

proof fn bits_shift_none(mask: usize)
    by (bit_vector)
    ensures
        (mask >> 0usize) == mask,
{
}

/// Removing a member gives a numerically smaller set.
pub proof fn lemma_without_smaller(mask: usize, node: int)
    requires
        has_node(mask, node),
    ensures
        without(mask, node) < mask,
{
    bits_without_smaller(mask, node as usize);
}

/// `without(mask, node)` differs from `mask` in the membership of `node`
/// and in nothing else.
pub proof fn lemma_without_member(mask: usize, node: int, other: int)
    requires
        0 <= node < usize::BITS,
    ensures
        has_node(without(mask, node), other) == (has_node(mask, other) != (node == other)),
{
    if 0 <= other < usize::BITS {
        bits_without_member(mask, node as usize, other as usize);
    }
}

/// The set `0` is empty, and the set `1` holds node 0 alone.
pub proof fn lemma_small_sets(node: int)
    ensures
        !has_node(0, node),
        has_node(1, node) == (node == 0),
{
    if 0 <= node < usize::BITS {
        bits_of_zero_and_one(node as usize);
    }
}

/// The members of `full_mask(n)` are the nodes below `n`.
pub proof fn lemma_full_mask_members(n: int, node: int)
    requires
        0 <= n < usize::BITS,
    ensures
        has_node(full_mask(n), node) == (0 <= node < n),
{
    if 0 <= node < usize::BITS {
        bits_of_full(n as usize, node as usize);
    }
}

proof fn lemma_member_from(mask: usize, k: int) -> (node: int)
    requires
        0 <= k < usize::BITS,
        (mask >> (k as usize)) != 0,
    ensures
        has_node(mask, node),
    decreases usize::BITS - k,
{
    bits_shifted_out(mask, k as usize);
    if (mask >> (k as usize)) & 1 == 1 {
        k
    } else {
        lemma_member_from(mask, k + 1)
    }
}

/// A set other than `0` has a member.
pub proof fn lemma_nonempty_member(mask: usize) -> (node: int)
    requires
        mask != 0,
    ensures
        has_node(mask, node),
{
    bits_shift_none(mask);
    lemma_member_from(mask, 0)
}

/// A set that is empty once `node` is removed holds `node` alone.
pub proof fn lemma_single_member(mask: usize, node: int)
    requires
        0 <= node < usize::BITS,
        without(mask, node) == 0,
    ensures
        mask == 1usize << (node as usize),
        node == 0 ==> mask == 1,
{
    bits_single(mask, node as usize);
}

/// `full_mask(n)` is the number `2^n - 1`, so there are `2^n` sets of the
/// nodes below `n`.
pub proof fn lemma_full_mask_value(n: int)
    requires
        0 <= n < usize::BITS,
    ensures
        full_mask(n) == pow2(n as nat) - 1,
        (1usize << (n as usize)) == pow2(n as nat),
        0 < pow2(n as nat) < usize::MAX,
{
    lemma_usize_pow2_no_overflow(n as nat);
    lemma_usize_shl_is_mul(1usize, n as usize);
}

} // verus!
