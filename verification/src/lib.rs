//! An in-place bitonic sorting network over slices whose length is a power of
//! two, with the two halves of each large enough step handed to a fork-join
//! worker pool.

use vstd::prelude::*;

pub mod comparator;
pub mod laws;
pub mod length;
pub mod marks;
pub mod parallel;
pub mod relation;

verus! {

/// The direction in which a slice is to be ordered.
#[derive(Clone, Copy, Debug, PartialEq, Eq)]
pub enum SortOrder {
    /// Smallest element first.
    Ascending,
    /// Largest element first.
    Descending,
}

} // verus!
