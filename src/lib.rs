//! A min-priority queue kept as a binary heap in a vector, with its contracts and laws
//! proved by Verus.

pub mod heap;
pub mod laws;
pub mod order;

pub use heap::BinaryHeap;
