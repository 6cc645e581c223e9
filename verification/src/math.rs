//! Conversions between vectors and totally ordered keys.
use vstd::prelude::*;

verus! {

/// A value that has a totally ordered, hashable form `T`.
pub trait ToOrd<T> where T: Eq + PartialEq + Ord + PartialOrd + core::hash::Hash + Copy {
    fn to_ord(&self) -> T;
}

/// A value that converts back to the vector type `T`.
pub trait ToVec<T> {
    fn to_vec(&self) -> T;
}

} // verus!
