//! Sorting routines on slices.

pub mod heap;
pub mod insertion;
pub mod merge;
pub mod selection;

pub use self::heap::sort as heap_sort;
pub use self::insertion::sort as insertion_sort;
pub use self::insertion::sort_with_binary_search as insertion_sort_with_binary_search;
pub use self::insertion::sort_with_copy as insertion_sort_with_copy;
pub use self::merge::sort as merge_sort;
pub use self::selection::sort as selection_sort;
