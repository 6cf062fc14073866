//! Arithmetic on unsigned numbers.

use vstd::prelude::*;

verus! {

/// The distance between two numbers on the number line.
pub open spec fn gap(left: int, right: int) -> int {
    if left > right {
        left - right
    } else {
        right - left
    }
}

/// The absolute difference of two unsigned numbers.
pub fn diff(left: u32, right: u32) -> (difference: u32)
    ensures
        difference == gap(left as int, right as int),
{
    if left > right {
        left - right
    } else {
        right - left
    }
}

} // verus!
