//! Searching in slices.

pub mod kmp;
pub mod max_subarray;

pub use self::max_subarray::max_subarray;
