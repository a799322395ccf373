//! Accounting of the bytes that the containers hold on the heap.

use vstd::prelude::*;

verus! {

/// Bytes of `capacity` elements of `elem_size` bytes each, held at the
/// largest size where the product does not fit.
pub open spec fn heap_bytes_of(capacity: usize, elem_size: usize) -> usize {
    if capacity * elem_size <= usize::MAX {
        (capacity * elem_size) as usize
    } else {
        usize::MAX
    }
}

/// Sum of two byte counts, held at the largest size where it does not fit.
pub open spec fn bytes_sum(a: usize, b: usize) -> usize {
    if a + b <= usize::MAX {
        (a + b) as usize
    } else {
        usize::MAX
    }
}

/// `Vec::capacity` of std: the number of elements the vector can hold
/// without reallocating. It is never less than the length; what it is beyond
/// that is the allocator's choice, so nothing more is claimed.
#[verifier::external_body]
pub(crate) fn vec_capacity<T>(v: &Vec<T>) -> (capacity: usize)
    ensures
        capacity >= v@.len(),
{
    v.capacity()
}

/// Bytes that a vector's buffer of the given capacity takes.
pub fn heap_bytes(capacity: usize, elem_size: usize) -> (bytes: usize)
    ensures
        bytes == heap_bytes_of(capacity, elem_size),
{
    match capacity.checked_mul(elem_size) {
        Some(bytes) => bytes,
        None => usize::MAX,
    }
}

/// Adds two byte counts.
pub fn add_bytes(a: usize, b: usize) -> (sum: usize)
    ensures
        sum == bytes_sum(a, b),
{
    a.saturating_add(b)
}

} // verus!
