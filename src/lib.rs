//! An in-place hybrid sort over a caller-supplied three-way comparator:
//! insertion sort for short slices, and otherwise a three-way partition
//! around a median-selected pivot, recursing on the outer zones.
pub mod order;
pub mod median;
pub mod swap;
pub mod partition;
pub mod sorting;
pub mod laws;
