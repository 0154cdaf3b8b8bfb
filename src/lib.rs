//! A binary min-heap priority queue, a greedy nearest-neighbour matcher built
//! on it, and a few small numeric and string routines.

use vstd::prelude::*;

pub mod basics;
pub mod heap;
pub mod locator;

verus! {

} // verus!
