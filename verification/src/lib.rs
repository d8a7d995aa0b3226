//! Three-dimensional bin packing of cuboid items into cuboid bins.
//!
//! The items are packed into as few bins as a greedy "first fit decreasing"
//! strategy finds: the items are taken longest first, and each goes into the
//! first free space of the open bin that can hold it in some orientation. An
//! item may be turned in any way that keeps its edges parallel to those of
//! the bin. The packing is an approximation: finding the least number of
//! bins is not attempted.
//!
//! Edge lengths are whole numbers of a unit of length that the caller picks.
//!
//! What each function returns is stated in its contract and proved. The
//! modules also state, and prove, what holds of the packing in general: that
//! cutting the free space around an item neither loses nor gains volume, that
//! no item is lost or packed twice, and that the same items are always
//! packed in the same way.

pub mod bin;
pub mod block;
pub mod cuboid;
pub mod error;
pub mod item;
pub mod packing_algorithm;
pub mod sorting;
