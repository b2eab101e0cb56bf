use vstd::prelude::*;

verus! {

/// Which end of a buffer retrievals take from.
#[derive(Copy, Clone, PartialEq, Eq, Debug, Structural)]
pub enum BufferType {
    /// Oldest item first.
    FIFO,
    /// Newest item first.
    LIFO,
}

impl BufferType {
    /// Whether retrievals in this mode take the most recently pushed item.
    pub open spec fn takes_newest(self) -> bool {
        self is LIFO
    }
}

impl Default for BufferType {
    fn default() -> (r: BufferType)
        ensures
            r == BufferType::FIFO,
    {
        BufferType::FIFO
    }
}

} // verus!
