//! Textbook algorithms and data structures with machine-checked contracts.
//!
//! The centrepiece is [`data_structures::heap::FibonacciHeap`], a mergeable
//! priority queue whose nodes live in an arena and refer to each other by
//! slot number. Around it stand the classics: greatest common divisor and
//! least common multiple ([`math`]), substring search and the maximum
//! subarray ([`search`]), selection of the k-th smallest element
//! ([`select`]) and sorting ([`sort`]).
//!
//! Every routine states what it returns over a mathematical model of its
//! arguments: sequences, multisets and integers. [`order`] holds the
//! vocabulary for comparisons that the contracts share.

pub mod data_structures;
pub mod math;
pub mod matrix;
pub mod order;
pub mod search;
pub mod select;
pub mod slices;
pub mod sort;
