//! Priority queues.
//!
//! [`FibonacciHeap`] is the queue. Its nodes live in an [`arena`] and refer
//! to each other by slot number. What it means for the nodes to be the
//! forest of a heap is said in [`forest`]; [`insertion`], [`extraction`],
//! [`linking`], [`consolidation`] and [`merging`] show that each step of an
//! operation leaves such a forest behind, and [`binomial`] that the forest
//! stays one of full trees. [`laws`] holds what follows from the contracts
//! of the operations alone.

pub mod arena;
pub mod binomial;
pub mod consolidation;
pub mod extraction;
pub mod fibonacci;
pub mod forest;
pub mod insertion;
pub mod laws;
pub mod linking;
pub mod merging;

pub use self::fibonacci::FibonacciHeap;
