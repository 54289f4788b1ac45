//! In-place quicksort over a contiguous run of machine integers.
//!
//! The same median-of-three, Lomuto-partition algorithm is exposed through two
//! entry points: one that sorts a whole vector, and one that sorts the first
//! `n` elements of a buffer while leaving the rest untouched. Both are proved
//! to leave the affected range in non-decreasing order and to permute, never
//! create or drop, its elements.

pub mod laws;
pub mod sort;

pub use crate::sort::quick_sort_buffer;
pub use crate::sort::quick_sort_slice;
