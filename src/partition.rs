//! The unit of work handed to one worker for one phase.
use vstd::prelude::*;

verus! {

/// The half-open range `[from, from + delta)`, of numbers or of indices.
#[derive(Clone, Copy, Debug, PartialEq, Eq, Structural)]
pub struct Partition {
    pub from: usize,
    pub delta: usize,
}

impl Partition {
    /// The first value past the range.
    pub open spec fn end(self) -> int {
        self.from + self.delta
    }
}

} // verus!
