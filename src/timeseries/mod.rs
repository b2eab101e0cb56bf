mod storage;

use vstd::prelude::*;

use crate::traits::{Buffer, Capacity, Peek, Snapshot};

pub use self::storage::TimeseriesStorage;

verus! {

/// A bounded series of values: pushes always succeed, dropping the oldest
/// value once the bound is reached; pops take the oldest value and peeks
/// read the newest.
pub struct Timeseries<T> {
    storage: TimeseriesStorage<T>,
}

impl<T> Timeseries<T> {
    /// The series state the operations go to.
    pub closed spec fn series(&self) -> TimeseriesStorage<T> {
        self.storage
    }

    /// An empty series with bound 0, which keeps only the latest value.
    pub fn new() -> (r: Self)
        ensures
            r.well_formed(),
            r.items().len() == 0,
            r.capacity_view() == 0,
    {
        Self::from(Vec::new())
    }

    /// A series holding `v`, its first value the newest, bounded by its
    /// length.
    pub fn from(v: Vec<T>) -> (r: Self)
        ensures
            r.well_formed(),
            r.items() == v@.reverse(),
            r.capacity_view() == v@.len(),
    {
        Timeseries { storage: TimeseriesStorage::from(v) }
    }
}

impl<T> Default for Timeseries<T> {
    fn default() -> (r: Self)
        ensures
            r.well_formed(),
            r.items().len() == 0,
            r.capacity_view() == 0,
    {
        Timeseries { storage: TimeseriesStorage::default() }
    }
}

impl<T> Buffer for Timeseries<T> {
    type Item = T;

    open spec fn well_formed(&self) -> bool {
        self.series().well_formed()
    }

    open spec fn items(&self) -> Seq<T> {
        self.series().items()
    }

    open spec fn takes_newest(&self) -> bool {
        false
    }

    open spec fn full(&self) -> bool {
        self.series().full()
    }

    open spec fn unbounded() -> bool {
        false
    }

    proof fn lemma_unbounded_never_full(&self) {
    }

    proof fn lemma_full_not_empty(&self) {
        self.series().lemma_full_not_empty();
    }

    fn empty() -> (r: Self) {
        Timeseries { storage: TimeseriesStorage::empty() }
    }

    fn push(&mut self, item: T)
        ensures
            final(self).capacity_view() == old(self).capacity_view(),
    {
        self.storage.push(item);
    }

    fn pop(&mut self) -> (r: Option<T>)
        ensures
            final(self).capacity_view() == old(self).capacity_view(),
    {
        self.storage.pop()
    }

    fn len(&self) -> (r: usize) {
        self.storage.len()
    }

    fn is_empty(&self) -> (r: bool) {
        self.storage.is_empty()
    }
}

impl<T: Clone> Peek for Timeseries<T> {
    type Item = T;

    open spec fn peek_ready(&self) -> bool {
        true
    }

    open spec fn front(&self) -> Option<T> {
        self.series().front()
    }

    fn peek(&self) -> (r: Option<T>) {
        self.storage.peek()
    }
}

impl<T> Capacity for Timeseries<T> {
    open spec fn capacity_view(&self) -> nat {
        self.series().capacity_view()
    }

    fn with_capacity(cap: usize) -> (r: Self) {
        Timeseries { storage: TimeseriesStorage::with_capacity(cap) }
    }

    fn capacity(&self) -> (r: usize) {
        self.storage.capacity()
    }
}

impl<T: Clone> Snapshot for Timeseries<T> {
    type Item = T;

    open spec fn snapshot_ready(&self) -> bool {
        true
    }

    open spec fn stored(&self) -> Seq<T> {
        self.series().stored()
    }

    fn snapshot(&self) -> (r: Vec<T>) {
        self.storage.snapshot()
    }
}

} // verus!
