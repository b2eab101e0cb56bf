use vstd::prelude::*;

verus! {

/// Position, among `len` items listed oldest first, of the item that a
/// retrieval takes: the newest one or the oldest one.
pub open spec fn out_index(len: int, newest: bool) -> int {
    if newest {
        len - 1
    } else {
        0
    }
}

/// What a retrieval from `items` (oldest first) returns.
pub open spec fn polled<T>(items: Seq<T>, newest: bool) -> Option<T> {
    if items.len() == 0 {
        None
    } else {
        Some(items[out_index(items.len() as int, newest)])
    }
}

/// What is left of `items` (oldest first) after a retrieval.
pub open spec fn after_poll<T>(items: Seq<T>, newest: bool) -> Seq<T> {
    if items.len() == 0 {
        items
    } else {
        items.remove(out_index(items.len() as int, newest))
    }
}

/// A container of items that can be pushed and popped.
pub trait Buffer: Sized {
    type Item;

    /// The internal structure is consistent.
    spec fn well_formed(&self) -> bool;

    /// The stored items, oldest first.
    spec fn items(&self) -> Seq<Self::Item>;

    /// Retrievals take the newest item rather than the oldest.
    spec fn takes_newest(&self) -> bool;

    /// The next push drops the oldest item to make room.
    spec fn full(&self) -> bool;

    /// Pushes never drop an item.
    spec fn unbounded() -> bool;

    /// An unbounded buffer is never full.
    proof fn lemma_unbounded_never_full(&self)
        requires
            Self::unbounded(),
        ensures
            !self.full(),
    ;

    /// Only a buffer that holds something can be full.
    proof fn lemma_full_not_empty(&self)
        requires
            self.full(),
        ensures
            self.items().len() > 0,
    ;

    /// An empty container that takes the oldest item first.
    fn empty() -> (r: Self)
        ensures
            r.well_formed(),
            r.items().len() == 0,
            !r.takes_newest(),
    ;

    /// Stores `item` as the newest item.
    fn push(&mut self, item: Self::Item)
        requires
            old(self).well_formed(),
        ensures
            final(self).well_formed(),
            final(self).takes_newest() == old(self).takes_newest(),
            !old(self).full() ==> final(self).items() == old(self).items().push(item),
            old(self).full() ==> final(self).items() == old(self).items().drop_first().push(item),
    ;

    /// Removes and returns the item at the retrieval end, if any.
    fn pop(&mut self) -> (r: Option<Self::Item>)
        requires
            old(self).well_formed(),
        ensures
            final(self).well_formed(),
            final(self).takes_newest() == old(self).takes_newest(),
            old(self).items().len() == 0 ==> r is None && final(self).items() == old(
                self,
            ).items(),
            old(self).items().len() > 0 ==> {
                let i = out_index(old(self).items().len() as int, old(self).takes_newest());
                &&& r == Some(old(self).items()[i])
                &&& final(self).items() == old(self).items().remove(i)
            },
    ;

    /// Number of stored items.
    fn len(&self) -> (r: usize)
        requires
            self.well_formed(),
        ensures
            r == self.items().len(),
    ;

    /// Whether no item is stored.
    fn is_empty(&self) -> (r: bool)
        requires
            self.well_formed(),
        ensures
            r == (self.items().len() == 0),
    ;
}

/// A buffer whose retrieval end can be chosen.
pub trait BufferMode: Buffer {
    type Mode;

    /// Whether retrievals in `mode` take the newest item.
    spec fn mode_takes_newest(mode: Self::Mode) -> bool;

    /// The mode currently set.
    spec fn current_mode(&self) -> Self::Mode;

    fn mode(&self) -> (r: Self::Mode)
        requires
            self.well_formed(),
        ensures
            r == self.current_mode(),
            self.takes_newest() == Self::mode_takes_newest(r),
    ;

    /// Changes the retrieval end; the stored items stay as they are.
    fn set_mode(&mut self, mode: Self::Mode)
        requires
            old(self).well_formed(),
        ensures
            final(self).well_formed(),
            final(self).current_mode() == mode,
            final(self).takes_newest() == Self::mode_takes_newest(mode),
            final(self).items() == old(self).items(),
    ;
}

/// Reading the item at the retrieval end without removing it.
pub trait Peek {
    type Item: Clone;

    /// The state in which `peek` may be called.
    spec fn peek_ready(&self) -> bool;

    /// The item that `peek` reads, if any.
    spec fn front(&self) -> Option<Self::Item>;

    /// A clone of the item at the retrieval end, if any.
    fn peek(&self) -> (r: Option<Self::Item>)
        requires
            self.peek_ready(),
        ensures
            r is Some <==> self.front() is Some,
            r is Some ==> cloned(self.front().unwrap(), r.unwrap()),
    ;
}

/// A buffer made with a bound on how many items it keeps.
pub trait Capacity: Buffer {
    /// The bound the buffer was made with.
    spec fn capacity_view(&self) -> nat;

    /// An empty buffer with the bound `cap`.
    fn with_capacity(cap: usize) -> (r: Self)
        ensures
            r.well_formed(),
            r.items().len() == 0,
            r.capacity_view() == cap,
    ;

    fn capacity(&self) -> (r: usize)
        requires
            self.well_formed(),
        ensures
            r == self.capacity_view(),
    ;
}

/// Copying out every stored item.
pub trait Snapshot {
    type Item: Clone;

    /// The state in which `snapshot` may be called.
    spec fn snapshot_ready(&self) -> bool;

    /// The items in the order `snapshot` copies them.
    spec fn stored(&self) -> Seq<Self::Item>;

    /// Clones of the stored items, in storage order.
    fn snapshot(&self) -> (r: Vec<Self::Item>)
        requires
            self.snapshot_ready(),
        ensures
            r@.len() == self.stored().len(),
            forall|i: int| 0 <= i < r@.len() ==> cloned(self.stored()[i], #[trigger] r@[i]),
    ;
}

} // verus!
