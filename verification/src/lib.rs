//! A sparse, dynamically-resizable ordered key-value store.
//!
//! The backing structure is a packed memory array: a sorted array
//! interleaved with gaps that supports ordered insertion without full
//! shifts, rebalancing only the smallest density-violating window.

pub mod model;
pub mod pma;
pub mod vector;
pub mod pcsr;

pub use crate::pma::{PackedMemoryArray, Error};
pub use crate::vector::{dynamicsparsevec, shrink_size, DynamicSparseVector};
pub use crate::pcsr::{PackedCSC, MappedPackedCSC, semaphore_key};
