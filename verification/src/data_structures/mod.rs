//! Container types.

pub mod heap;
