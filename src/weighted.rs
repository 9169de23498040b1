//! Things that carry a weight.
use vstd::prelude::*;

verus! {

/// Something with a weight of type `T`, for users of the library to implement.
pub trait Weighted<T: Ord + Eq> {
    /// The weight.
    fn weight(&self) -> &T;

    /// Gives it the weight `new_weight`.
    fn set_weight(&mut self, new_weight: T);
}

} // verus!
