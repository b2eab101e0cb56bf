use std::collections::VecDeque;

use vstd::prelude::*;

use crate::traits::{Buffer, Capacity, Peek, Snapshot};

verus! {

/// A bounded series, newest item at the front. Once `cap` items are held,
/// each push drops the oldest one; a series made with bound 0 keeps only
/// the latest item.
pub struct TimeseriesStorage<T> {
    buf: VecDeque<T>,
    cap: usize,
}

impl<T> TimeseriesStorage<T> {
    /// The items held, oldest first.
    pub closed spec fn held(&self) -> Seq<T> {
        self.buf@.reverse()
    }

    /// The bound the series was made with.
    pub closed spec fn bound(&self) -> nat {
        self.cap as nat
    }

    /// A series holding `v`, its first item the newest, bounded by its length.
    pub fn from(v: Vec<T>) -> (r: Self)
        ensures
            r.well_formed(),
            r.items() == v@.reverse(),
            r.capacity_view() == v@.len(),
    {
        let ghost all = v@;
        let cap = v.len();
        let mut v = v;
        let mut buf: VecDeque<T> = VecDeque::new();
        while v.len() > 0
            invariant
                v@ + buf@ == all,
            decreases v@.len(),
        {
            let ghost before = v@;
            let ghost held = buf@;
            let x = v.pop().unwrap();
            buf.push_front(x);
            assert(v@ + buf@ =~= before + held) by {
                assert(before == v@.push(x));
            }
        }
        assert(buf@ =~= v@ + buf@);
        TimeseriesStorage { buf, cap }
    }
}

impl<T> Default for TimeseriesStorage<T> {
    fn default() -> (r: Self)
        ensures
            r.well_formed(),
            r.items().len() == 0,
            r.capacity_view() == 0,
    {
        TimeseriesStorage { buf: VecDeque::new(), cap: 0 }
    }
}

impl<T> Buffer for TimeseriesStorage<T> {
    type Item = T;

    /// At most `capacity()` items are held, or a single one under bound 0.
    open spec fn well_formed(&self) -> bool {
        self.held().len() <= self.bound() || self.held().len() <= 1
    }

    open spec fn items(&self) -> Seq<T> {
        self.held()
    }

    open spec fn takes_newest(&self) -> bool {
        false
    }

    /// The bound is reached and something is held to drop.
    open spec fn full(&self) -> bool {
        self.held().len() >= self.bound() && self.held().len() > 0
    }

    open spec fn unbounded() -> bool {
        false
    }

    proof fn lemma_unbounded_never_full(&self) {
    }

    proof fn lemma_full_not_empty(&self) {
    }

    fn empty() -> (r: Self) {
        TimeseriesStorage { buf: VecDeque::new(), cap: 0 }
    }

    /// Stores `item` as the newest item, first dropping the oldest when the
    /// bound is reached.
    fn push(&mut self, item: T)
        ensures
            final(self).capacity_view() == old(self).capacity_view(),
    {
        let n = self.buf.len();
        if n >= self.cap && n > 0 {
            let _ = self.buf.pop_back();
        }
        self.buf.push_front(item);
        proof {
            let b0 = old(self).buf@;
            if b0.len() >= self.cap && b0.len() > 0 {
                assert(self.buf@.reverse() =~= b0.reverse().drop_first().push(item));
            } else {
                assert(self.buf@.reverse() =~= b0.reverse().push(item));
            }
        }
    }

    /// Removes and returns the oldest item, if any.
    fn pop(&mut self) -> (r: Option<T>)
        ensures
            final(self).capacity_view() == old(self).capacity_view(),
    {
        let r = self.buf.pop_back();
        proof {
            let b0 = old(self).buf@;
            if b0.len() > 0 {
                assert(self.buf@.reverse() =~= b0.reverse().remove(0));
            }
        }
        r
    }

    fn len(&self) -> (r: usize) {
        self.buf.len()
    }

    fn is_empty(&self) -> (r: bool) {
        self.buf.len() == 0
    }
}

impl<T: Clone> Peek for TimeseriesStorage<T> {
    type Item = T;

    open spec fn peek_ready(&self) -> bool {
        true
    }

    /// The newest item.
    open spec fn front(&self) -> Option<T> {
        if Buffer::items(self).len() == 0 {
            None
        } else {
            Some(Buffer::items(self).last())
        }
    }

    fn peek(&self) -> (r: Option<T>) {
        if self.buf.len() == 0 {
            None
        } else {
            Some(self.buf[0].clone())
        }
    }
}

impl<T> Capacity for TimeseriesStorage<T> {
    open spec fn capacity_view(&self) -> nat {
        self.bound()
    }

    fn with_capacity(cap: usize) -> (r: Self) {
        TimeseriesStorage { buf: VecDeque::with_capacity(cap), cap }
    }

    fn capacity(&self) -> (r: usize) {
        self.cap
    }
}

impl<T: Clone> Snapshot for TimeseriesStorage<T> {
    type Item = T;

    open spec fn snapshot_ready(&self) -> bool {
        true
    }

    /// The items newest first.
    open spec fn stored(&self) -> Seq<T> {
        Buffer::items(self).reverse()
    }

    fn snapshot(&self) -> (r: Vec<T>) {
        let mut out: Vec<T> = Vec::new();
        let mut i: usize = 0;
        proof {
            assert(Buffer::items(self).reverse() =~= self.buf@);
        }
        while i < self.buf.len()
            invariant
                0 <= i <= self.buf@.len(),
                out@.len() == i,
                forall|j: int| 0 <= j < i ==> cloned(self.buf@[j], #[trigger] out@[j]),
            decreases self.buf@.len() - i,
        {
            out.push(self.buf[i].clone());
            i = i + 1;
        }
        out
    }
}

} // verus!
