//! Instrumented sorting algorithms over vectors of `u32`.
//!
//! Each algorithm consumes an owned vector and returns a [`stats::Stats`]
//! record holding the sorted vector together with the number of comparisons
//! and element movements the algorithm performed, counted under each
//! algorithm's own documented cost model.

pub mod bubble;
pub mod counting;
pub mod digits;
pub mod insertion;
pub mod merge;
pub mod order;
pub mod quick;
pub mod radix;
pub mod selection;
pub mod stats;
pub mod vecs;
