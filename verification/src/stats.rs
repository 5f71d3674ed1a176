//! The record every algorithm returns: its cost counters and its output.

use vstd::prelude::*;

verus! {

use crate::order::{is_sorted, permutes};

/// Cost counters and the sorted result of one algorithm invocation.
///
/// `cmp_counter` counts evaluations of the relative order of two elements;
/// `swap_counter` counts element movements, each algorithm weighting its own
/// operations as documented on that algorithm.  Counters are 64 bits wide so
/// that they cannot wrap for any input length this crate accepts.
pub struct Stats {
    pub cmp_counter: u64,
    pub swap_counter: u64,
    pub ordered: Vec<u32>,
}

impl Stats {
    /// The record's `ordered` field is the input `s` sorted ascending.
    pub open spec fn sorts(self, s: Seq<u32>) -> bool {
        &&& self.ordered@.len() == s.len()
        &&& permutes(self.ordered@, s)
        &&& is_sorted(self.ordered@)
    }
}

} // verus!
