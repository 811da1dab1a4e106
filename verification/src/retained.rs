//! Saturating byte counts for the deterministic retained-size estimates.

use vstd::prelude::*;

verus! {

/// `x`, or `usize::MAX` when it does not fit.
pub open spec fn saturated(x: int) -> int {
    if x > usize::MAX {
        usize::MAX as int
    } else {
        x
    }
}

pub open spec fn sat_add(a: int, b: int) -> int {
    saturated(a + b)
}

pub open spec fn sat_mul(a: int, b: int) -> int {
    saturated(a * b)
}

/// `start`, plus each of `rooms` times `elem`, saturating at every step.
pub open spec fn sat_sum(start: int, rooms: Seq<int>, elem: int) -> int
    decreases rooms.len(),
{
    if rooms.len() == 0 {
        start
    } else {
        sat_add(sat_sum(start, rooms.drop_last(), elem), sat_mul(rooms.last(), elem))
    }
}

pub fn saturating_add(a: usize, b: usize) -> (sum: usize)
    ensures
        sum == sat_add(a as int, b as int),
{
    a.saturating_add(b)
}

pub fn saturating_mul(a: usize, b: usize) -> (product: usize)
    ensures
        product == sat_mul(a as int, b as int),
{
    match a.checked_mul(b) {
        Some(product) => product,
        None => usize::MAX,
    }
}

/// `Vec::capacity`: the number of elements the vector has room for, which
/// std documents as never below its length; how much more the allocator
/// reserved is left open.
#[verifier::external_body]
pub(crate) fn vec_capacity<T>(v: &Vec<T>) -> (capacity: usize)
    ensures
        capacity >= v@.len(),
{
    v.capacity()
}

} // verus!
