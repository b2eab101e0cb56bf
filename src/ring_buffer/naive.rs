use std::collections::VecDeque;

use vstd::prelude::*;

use crate::enums::BufferType;
use crate::traits::{polled, Buffer, BufferMode, Peek, Snapshot};

verus! {

/// A FIFO/LIFO container over a double-ended queue, oldest item at the
/// front.
pub struct RingStorageNaive<T> {
    buffer: VecDeque<T>,
    mode: BufferType,
}

impl<T> RingStorageNaive<T> {
    /// A buffer holding the items of `v`, oldest first, in FIFO mode.
    pub fn from(v: Vec<T>) -> (r: Self)
        ensures
            r.items() == v@,
            !r.takes_newest(),
    {
        let ghost all = v@;
        let mut v = v;
        let mut buffer: VecDeque<T> = VecDeque::new();
        while v.len() > 0
            invariant
                v@ + buffer@ == all,
            decreases v@.len(),
        {
            let ghost before = v@;
            let ghost held = buffer@;
            let x = v.pop().unwrap();
            buffer.push_front(x);
            assert(v@ + buffer@ =~= before + held) by {
                assert(before == v@.push(x));
            }
        }
        assert(buffer@ =~= v@ + buffer@);
        RingStorageNaive { buffer, mode: BufferType::FIFO }
    }
}

impl<T> Default for RingStorageNaive<T> {
    fn default() -> (r: Self)
        ensures
            r.items().len() == 0,
            !r.takes_newest(),
    {
        RingStorageNaive { buffer: VecDeque::new(), mode: BufferType::FIFO }
    }
}

impl<T> Buffer for RingStorageNaive<T> {
    type Item = T;

    open spec fn well_formed(&self) -> bool {
        true
    }

    closed spec fn items(&self) -> Seq<T> {
        self.buffer@
    }

    closed spec fn takes_newest(&self) -> bool {
        self.mode.takes_newest()
    }

    open spec fn full(&self) -> bool {
        false
    }

    open spec fn unbounded() -> bool {
        true
    }

    proof fn lemma_unbounded_never_full(&self) {
    }

    proof fn lemma_full_not_empty(&self) {
    }

    fn empty() -> (r: Self) {
        RingStorageNaive { buffer: VecDeque::new(), mode: BufferType::FIFO }
    }

    fn push(&mut self, item: T) {
        self.buffer.push_back(item);
    }

    fn pop(&mut self) -> (r: Option<T>) {
        match self.mode {
            BufferType::FIFO => self.buffer.pop_front(),
            BufferType::LIFO => self.buffer.pop_back(),
        }
    }

    fn len(&self) -> (r: usize) {
        self.buffer.len()
    }

    fn is_empty(&self) -> (r: bool) {
        self.buffer.len() == 0
    }
}

impl<T> BufferMode for RingStorageNaive<T> {
    type Mode = BufferType;

    open spec fn mode_takes_newest(mode: BufferType) -> bool {
        mode.takes_newest()
    }

    closed spec fn current_mode(&self) -> BufferType {
        self.mode
    }

    fn mode(&self) -> (r: BufferType) {
        self.mode
    }

    fn set_mode(&mut self, mode: BufferType) {
        self.mode = mode;
    }
}

impl<T: Clone> Peek for RingStorageNaive<T> {
    type Item = T;

    open spec fn peek_ready(&self) -> bool {
        true
    }

    open spec fn front(&self) -> Option<T> {
        polled(Buffer::items(self), Buffer::takes_newest(self))
    }

    fn peek(&self) -> (r: Option<T>) {
        let n = self.buffer.len();
        if n == 0 {
            return None;
        }
        match self.mode {
            BufferType::FIFO => Some(self.buffer[0].clone()),
            BufferType::LIFO => Some(self.buffer[n - 1].clone()),
        }
    }
}

impl<T: Clone> Snapshot for RingStorageNaive<T> {
    type Item = T;

    open spec fn snapshot_ready(&self) -> bool {
        true
    }

    open spec fn stored(&self) -> Seq<T> {
        Buffer::items(self)
    }

    fn snapshot(&self) -> (r: Vec<T>) {
        let mut out: Vec<T> = Vec::new();
        let mut i: usize = 0;
        while i < self.buffer.len()
            invariant
                0 <= i <= self.buffer@.len(),
                out@.len() == i,
                forall|j: int| 0 <= j < i ==> cloned(self.buffer@[j], #[trigger] out@[j]),
            decreases self.buffer@.len() - i,
        {
            out.push(self.buffer[i].clone());
            i = i + 1;
        }
        out
    }
}

} // verus!
