//! A parallel bitonic sorter for slices whose length is a power of two.
use vstd::prelude::*;

pub mod order;
pub mod zero_one;
pub mod network;
pub mod sorter;
pub mod utils;

pub use sorter::{sort, sort_by, sort_by_with_threshold, PARALLEL_THRESHOLD};
pub use utils::{is_sorted_ascending, is_sorted_descending, new_u32_vec};

verus! {

/// The direction in which `sort` arranges the elements.
#[derive(Clone, Copy, Debug, PartialEq, Eq, Structural)]
pub enum SortOrder {
    Ascending,
    Descending,
}

/// Why a slice was not sorted.
#[derive(Clone, Copy, Debug, PartialEq, Eq, Structural)]
pub enum SortError {
    /// The slice's length, which is not a power of two.
    LengthNotPowerOfTwo(usize),
}

} // verus!
