//! A verified core for the Helix runtime, its migration tools and its render surface.
use vstd::prelude::*;

pub mod appfront;
pub mod migrate;
pub mod runtime;
pub mod string_laws;
pub mod strings;

verus! {

/// The sum of two numbers.
pub fn add(left: u64, right: u64) -> (sum: u64)
    requires
        left + right <= u64::MAX,
    ensures
        sum == left + right,
{
    left + right
}

} // verus!
