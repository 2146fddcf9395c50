//! Edge and path costs: 32-bit unsigned numbers whose sums clamp at the
//! largest value instead of wrapping.

use vstd::prelude::*;

verus! {

/// The cost that stands for "no usable edge" and "no such path". It is the
/// ceiling of every sum and the neutral element of every minimum.
pub const UNREACHABLE: u32 = 0xffff_ffffu32;

/// The sum `a + b`, clamped to [`UNREACHABLE`].
pub open spec fn sat_add(a: int, b: int) -> int {
    if a + b > UNREACHABLE as int {
        UNREACHABLE as int
    } else {
        a + b
    }
}

/// The smaller of two costs.
pub open spec fn min_cost(a: int, b: int) -> int {
    if b < a {
        b
    } else {
        a
    }
}

} // verus!
