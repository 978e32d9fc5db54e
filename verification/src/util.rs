//! Small helpers: dense counter allocation and duration conversion.

use vstd::prelude::*;

verus! {

/// Allocates a dense zero vector of size `dimensions`.
pub fn new_dense_vector(dimensions: usize) -> (v: Vec<u32>)
    ensures
        v@.len() == dimensions,
        forall|k: int| 0 <= k < dimensions ==> v@[k] == 0u32,
{
    let mut v: Vec<u32> = Vec::new();
    while v.len() < dimensions
        invariant
            v@.len() <= dimensions,
            forall|k: int| 0 <= k < v@.len() ==> v@[k] == 0u32,
        decreases dimensions - v@.len(),
    {
        v.push(0);
    }
    v
}

/// Converts a duration, given as whole seconds plus the sub-second
/// nanoseconds, to whole milliseconds.
pub fn to_millis(secs: u64, subsec_nanos: u32) -> (millis: u64)
    requires
        secs * 1000 + subsec_nanos as int / 1000000 <= u64::MAX,
    ensures
        millis == secs * 1000 + subsec_nanos as int / 1000000,
{
    secs * 1000 + (subsec_nanos / 1_000_000) as u64
}

} // verus!
