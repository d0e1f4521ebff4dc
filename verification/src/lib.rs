//! Fixed-capacity, array-backed associative containers.
//!
//! [`PetitMap`] is a map that stores its key-value pairs in a fixed-length
//! sequence of optional slots and finds entries by linear scan; [`PetitSet`]
//! is the corresponding set, built as a map with unit values.  Both keep
//! entries at stable indices: removing an entry leaves a gap and never moves
//! any other entry.

use vstd::prelude::*;

pub mod map;
pub mod set;
pub mod set_algebra;
pub mod slots;
pub mod utils;

pub use map::PetitMap;
pub use map::PetitMapIter;
pub use map::SuccesfulMapInsertion;
pub use set::PetitSet;
pub use set::PetitSetIter;
pub use set::SuccesfulSetInsertion;

verus! {

/// An error returned when attempting to insert into a full [`PetitSet`](crate::set::PetitSet)
/// or [`PetitMap`].
///
/// It contains the element that could not be inserted.
#[derive(Debug, PartialEq, Eq, Clone, Copy)]
pub struct CapacityError<T>(pub T);

} // verus!
