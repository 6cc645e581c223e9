//! Marker for what may need to be shared between threads.
use vstd::prelude::*;

verus! {

/// Types that the engine may share; in the single-threaded build it asks
/// nothing of them.
pub trait MaybeSync {}

} // verus!
