mod indexed;
mod laws;
mod naive;

use vstd::prelude::*;

use crate::traits::{Buffer, BufferMode, Peek, Snapshot};

pub use self::indexed::{filtered, fold_chain, folded, IndexedRing, Slot};
pub use self::laws::{
    as_seq, lemma_fifo_keeps_push_order, lemma_run_one_more, lemma_len_counts_pushes_and_polls, lemma_lifo_reverses,
    lemma_polls_drain, lemma_round_trip, lemma_run_after_pushes, polls, pushed, pushes, run,
};
pub use self::naive::RingStorageNaive;

verus! {

/// A buffer that forwards every operation to a backend, so that backends
/// can be swapped without changing callers.
pub struct RingBuffer<Impl> {
    storage: Impl,
}

impl<Impl> RingBuffer<Impl> {
    /// The backend the operations go to.
    pub closed spec fn backend(&self) -> Impl {
        self.storage
    }

    /// A buffer over a backend that holds the items of `v`, pushed in order.
    pub fn from<T>(v: Vec<T>) -> (r: Self) where Impl: Buffer<Item = T>
        ensures
            r.backend().well_formed(),
            !r.backend().takes_newest(),
            Impl::unbounded() ==> r.backend().items() == v@,
            r.backend().items().len() <= v@.len(),
            r.backend().items() == v@.subrange(
                v@.len() - r.backend().items().len(),
                v@.len() as int,
            ),
            v@.len() > 0 ==> r.backend().items().len() > 0,
    {
        let ghost all = v@;
        let mut rest = v;
        let mut reversed: Vec<T> = Vec::new();
        while rest.len() > 0
            invariant
                rest@ + reversed@.reverse() == all,
            decreases rest@.len(),
        {
            let ghost before = rest@;
            let ghost held = reversed@;
            let x = rest.pop().unwrap();
            reversed.push(x);
            assert(rest@ + reversed@.reverse() =~= before + held.reverse()) by {
                assert(before == rest@.push(x));
                assert(reversed@.reverse() =~= seq![x] + held.reverse());
            }
        }
        let mut storage = Impl::empty();
        let ghost pushed_so_far: Seq<T> = Seq::empty();
        while reversed.len() > 0
            invariant
                storage.well_formed(),
                !storage.takes_newest(),
                pushed_so_far + reversed@.reverse() == all,
                Impl::unbounded() ==> storage.items() == pushed_so_far,
                storage.items().len() <= pushed_so_far.len(),
                storage.items() == pushed_so_far.subrange(
                    pushed_so_far.len() - storage.items().len(),
                    pushed_so_far.len() as int,
                ),
                pushed_so_far.len() > 0 ==> storage.items().len() > 0,
            decreases reversed@.len(),
        {
            let ghost held = reversed@;
            let x = reversed.pop().unwrap();
            let ghost p0 = pushed_so_far;
            proof {
                if Impl::unbounded() {
                    storage.lemma_unbounded_never_full();
                }
                if storage.full() {
                    storage.lemma_full_not_empty();
                }
                assert(held.reverse() =~= seq![x] + reversed@.reverse());
                assert(pushed_so_far.push(x) + reversed@.reverse() =~= pushed_so_far + held.reverse());
                pushed_so_far = pushed_so_far.push(x);
            }
            storage.push(x);
            proof {
                let p1 = p0.push(x);
                assert(storage.items() =~= p1.subrange(
                    p1.len() - storage.items().len(),
                    p1.len() as int,
                ));
            }
        }
        assert(pushed_so_far =~= all);
        RingBuffer { storage }
    }
}

impl<Impl: Buffer> Default for RingBuffer<Impl> {
    fn default() -> (r: Self)
        ensures
            r.backend().well_formed(),
            r.backend().items().len() == 0,
            !r.backend().takes_newest(),
    {
        RingBuffer { storage: Impl::empty() }
    }
}

impl<Impl: Buffer> Buffer for RingBuffer<Impl> {
    type Item = Impl::Item;

    open spec fn well_formed(&self) -> bool {
        self.backend().well_formed()
    }

    open spec fn items(&self) -> Seq<Impl::Item> {
        self.backend().items()
    }

    open spec fn takes_newest(&self) -> bool {
        self.backend().takes_newest()
    }

    open spec fn full(&self) -> bool {
        self.backend().full()
    }

    open spec fn unbounded() -> bool {
        Impl::unbounded()
    }

    proof fn lemma_unbounded_never_full(&self) {
        self.backend().lemma_unbounded_never_full();
    }

    proof fn lemma_full_not_empty(&self) {
        self.backend().lemma_full_not_empty();
    }

    fn empty() -> (r: Self) {
        RingBuffer { storage: Impl::empty() }
    }

    fn push(&mut self, item: Impl::Item) {
        self.storage.push(item);
    }

    fn pop(&mut self) -> (r: Option<Impl::Item>) {
        self.storage.pop()
    }

    fn len(&self) -> (r: usize) {
        self.storage.len()
    }

    fn is_empty(&self) -> (r: bool) {
        self.storage.is_empty()
    }
}

impl<Impl: BufferMode> BufferMode for RingBuffer<Impl> {
    type Mode = Impl::Mode;

    open spec fn mode_takes_newest(mode: Impl::Mode) -> bool {
        Impl::mode_takes_newest(mode)
    }

    open spec fn current_mode(&self) -> Impl::Mode {
        self.backend().current_mode()
    }

    fn mode(&self) -> (r: Impl::Mode) {
        self.storage.mode()
    }

    fn set_mode(&mut self, mode: Impl::Mode) {
        self.storage.set_mode(mode);
    }
}

impl<Impl: Peek> Peek for RingBuffer<Impl> {
    type Item = <Impl as Peek>::Item;

    open spec fn peek_ready(&self) -> bool {
        self.backend().peek_ready()
    }

    open spec fn front(&self) -> Option<<Impl as Peek>::Item> {
        self.backend().front()
    }

    fn peek(&self) -> (r: Option<<Impl as Peek>::Item>) {
        self.storage.peek()
    }
}

impl<Impl: Snapshot> Snapshot for RingBuffer<Impl> {
    type Item = <Impl as Snapshot>::Item;

    open spec fn snapshot_ready(&self) -> bool {
        self.backend().snapshot_ready()
    }

    open spec fn stored(&self) -> Seq<<Impl as Snapshot>::Item> {
        self.backend().stored()
    }

    fn snapshot(&self) -> (r: Vec<<Impl as Snapshot>::Item>) {
        self.storage.snapshot()
    }
}

} // verus!
