use vstd::prelude::*;

use crate::enums::BufferType;
use crate::traits::{after_poll, out_index, polled, Buffer, BufferMode, Peek, Snapshot};

verus! {

/// One entry of the slot table: the sentinel at position 0, or an item.
///
/// `next` leads toward older items and `prev` toward newer ones; index 0
/// stands for the sentinel. The sentinel's `prev` names the oldest item
/// and its `next` the newest.
#[derive(Copy, Clone, Debug)]
pub enum Slot {
    Root { prev: usize, next: usize },
    Item { prev: usize, next: usize, storage_index: usize },
}

impl Slot {
    /// The link toward newer items.
    pub open spec fn prev_spec(self) -> int {
        match self {
            Slot::Root { prev, .. } => prev as int,
            Slot::Item { prev, .. } => prev as int,
        }
    }

    /// The link toward older items.
    pub open spec fn next_spec(self) -> int {
        match self {
            Slot::Root { next, .. } => next as int,
            Slot::Item { next, .. } => next as int,
        }
    }

    /// The storage position of an item slot; -1 for the sentinel.
    pub open spec fn storage_spec(self) -> int {
        match self {
            Slot::Root { .. } => -1,
            Slot::Item { storage_index, .. } => storage_index as int,
        }
    }

    pub fn prev(&self) -> (r: usize)
        ensures
            r == self.prev_spec(),
    {
        match self {
            Slot::Root { prev, .. } => *prev,
            Slot::Item { prev, .. } => *prev,
        }
    }

    pub fn next(&self) -> (r: usize)
        ensures
            r == self.next_spec(),
    {
        match self {
            Slot::Root { next, .. } => *next,
            Slot::Item { next, .. } => *next,
        }
    }

    /// The storage position an item slot refers to.
    pub fn storage_slot(&self) -> (r: usize)
        requires
            self is Item,
        ensures
            r == self.storage_spec(),
    {
        match self {
            Slot::Root { .. } => 0,
            Slot::Item { storage_index, .. } => *storage_index,
        }
    }

    /// The same slot with its `prev` link replaced.
    pub fn with_prev(self, p: usize) -> (r: Slot)
        ensures
            r.prev_spec() == p,
            r.next_spec() == self.next_spec(),
            r.storage_spec() == self.storage_spec(),
            (r is Root) == (self is Root),
    {
        match self {
            Slot::Root { next, .. } => Slot::Root { prev: p, next },
            Slot::Item { next, storage_index, .. } => Slot::Item { prev: p, next, storage_index },
        }
    }

    /// The same slot with its `next` link replaced.
    pub fn with_next(self, n: usize) -> (r: Slot)
        ensures
            r.next_spec() == n,
            r.prev_spec() == self.prev_spec(),
            r.storage_spec() == self.storage_spec(),
            (r is Root) == (self is Root),
    {
        match self {
            Slot::Root { prev, .. } => Slot::Root { prev, next: n },
            Slot::Item { prev, storage_index, .. } => Slot::Item { prev, next: n, storage_index },
        }
    }
}

/// Where a link to slot `i` points once the last slot, `last`, has moved
/// into position `pos`.
pub open spec fn relabel(i: int, last: int, pos: int) -> int {
    if i == last {
        pos
    } else {
        i
    }
}

/// Position in an order after the entry at `k` is removed.
pub open spec fn shift_rank(r: int, k: int) -> int {
    if r > k {
        r - 1
    } else {
        r
    }
}

/// Slot index of the item just older than the one at position `k` of
/// `ord` (0, the sentinel, for the oldest).
pub open spec fn older_in(ord: Seq<int>, k: int) -> int {
    if k == 0 {
        0
    } else {
        ord[k - 1]
    }
}

/// Slot index of the item just newer than the one at position `k` of
/// `ord` (0, the sentinel, for the newest).
pub open spec fn newer_in(ord: Seq<int>, k: int) -> int {
    if k == ord.len() - 1 {
        0
    } else {
        ord[k + 1]
    }
}

/// The slots named by `ord`, oldest first, form a ring through the
/// sentinel at index 0, linked both ways.
#[verifier::opaque]
pub open spec fn chain_ok(s: Seq<Slot>, ord: Seq<int>) -> bool {
    let n = ord.len();
    &&& s.len() >= 1
    &&& s[0].prev_spec() == (if n == 0 { 0 } else { ord[0] })
    &&& s[0].next_spec() == (if n == 0 { 0 } else { ord[n - 1] })
    &&& ord.no_duplicates()
    &&& forall|k: int| 0 <= k < n ==> 1 <= #[trigger] ord[k] < s.len()
    &&& forall|k: int|
        0 <= k < n ==> s[#[trigger] ord[k]].next_spec() == older_in(ord, k) && s[ord[k]].prev_spec()
            == newer_in(ord, k)
}

/// Unlinking the item at position `k` of `ord` by pointing its two
/// neighbours at each other leaves a ring of the others.
proof fn lemma_bypass(s0: Seq<Slot>, ord: Seq<int>, k: int, s1: Seq<Slot>)
    requires
        chain_ok(s0, ord),
        ord.len() >= 2,
        0 <= k < ord.len(),
        s1.len() == s0.len(),
        forall|x: int|
            0 <= x < s0.len() ==> {
                &&& (#[trigger] s1[x]).next_spec() == (if x == newer_in(ord, k) {
                    older_in(ord, k)
                } else {
                    s0[x].next_spec()
                })
                &&& s1[x].prev_spec() == (if x == older_in(ord, k) {
                    newer_in(ord, k)
                } else {
                    s0[x].prev_spec()
                })
            },
    ensures
        chain_ok(s1, ord.remove(k)),
{
    reveal(chain_ok);
    reveal(ranks_ok);
    let n = ord.len() as int;
    let bprev = newer_in(ord, k);
    let bnext = older_in(ord, k);
    let o1 = ord.remove(k);
    assert(o1.no_duplicates()) by {
        assert forall|i: int, j: int| 0 <= i < j < o1.len() implies o1[i] != o1[j] by {
            let i0 = if i < k { i } else { i + 1 };
            let j0 = if j < k { j } else { j + 1 };
            assert(o1[i] == ord[i0] && o1[j] == ord[j0]);
        }
    }
    assert forall|j: int| 0 <= j < o1.len() implies 1 <= #[trigger] o1[j] < s1.len() && s1[o1[j]].next_spec() == older_in(o1, j)
        && s1[o1[j]].prev_spec() == newer_in(o1, j) by {
        let j0 = if j < k { j } else { j + 1 };
        assert(o1[j] == ord[j0]);
        assert(ord[j0] != ord[k]);
        if j > 0 {
            let i0 = if j - 1 < k { j - 1 } else { j };
            assert(o1[j - 1] == ord[i0]);
        }
        if j < o1.len() - 1 {
            let i0 = if j + 1 < k { j + 1 } else { j + 2 };
            assert(o1[j + 1] == ord[i0]);
        }
        if ord[j0] == bprev {
            assert(j0 == k + 1) by {
                assert(ord[k + 1] == ord[j0]);
            }
        }
        if ord[j0] == bnext {
            assert(j0 == k - 1) by {
                assert(ord[k - 1] == ord[j0]);
            }
        }
    }
    if n - 1 > 0 {
        assert(o1[0] == if k == 0 { ord[1] } else { ord[0] });
        assert(o1[n - 2] == if k == n - 1 { ord[n - 2] } else { ord[n - 1] });
    }
}

/// Moving the last slot, which `o1` names, into the unused position `pos`
/// and pointing its two neighbours at its new position keeps the ring.
proof fn lemma_relocate(s1: Seq<Slot>, o1: Seq<int>, pos: int, s3: Seq<Slot>)
    requires
        chain_ok(s1, o1),
        1 <= pos < s1.len() - 1,
        !o1.contains(pos),
        o1.contains(s1.len() - 1),
        s3.len() == s1.len() - 1,
        forall|x: int|
            0 <= x < s3.len() ==> {
                let moved = s1[s1.len() - 1];
                &&& (#[trigger] s3[x]).next_spec() == (if x == moved.prev_spec() {
                    pos
                } else if x == pos {
                    moved.next_spec()
                } else {
                    s1[x].next_spec()
                })
                &&& s3[x].prev_spec() == (if x == moved.next_spec() {
                    pos
                } else if x == pos {
                    moved.prev_spec()
                } else {
                    s1[x].prev_spec()
                })
            },
    ensures
        chain_ok(s3, o1.map_values(|i: int| relabel(i, s1.len() - 1, pos))),
{
    reveal(chain_ok);
    reveal(ranks_ok);
    let last = s1.len() - 1;
    let n = o1.len() as int;
    let o2 = o1.map_values(|i: int| relabel(i, last, pos));
    let j0 = o1.index_of(last);
    let lprev = newer_in(o1, j0);
    let lnext = older_in(o1, j0);
    assert(s1[last].prev_spec() == lprev && s1[last].next_spec() == lnext);
    assert forall|j: int| 0 <= j < n implies older_in(o2, j) == relabel(older_in(o1, j), last, pos)
        && newer_in(o2, j) == relabel(newer_in(o1, j), last, pos) by {}
    assert(o2.no_duplicates()) by {
        assert forall|i: int, j: int| 0 <= i < j < o2.len() implies o2[i] != o2[j] by {
            assert(o1[i] != o1[j]);
            assert(o1[i] != pos && o1[j] != pos) by {
                assert(o1.contains(o1[i]) && o1.contains(o1[j]));
            }
        }
    }
    assert forall|j: int| 0 <= j < n implies 1 <= #[trigger] o2[j] < s3.len() && s3[o2[j]].next_spec()
        == older_in(o2, j) && s3[o2[j]].prev_spec() == newer_in(o2, j) by {
        let x = o1[j];
        assert(x != pos) by {
            assert(o1.contains(x));
        }
        if j == j0 {
            assert(o2[j] == pos);
            assert(lprev != pos && lnext != pos) by {
                if j0 + 1 < n {
                    assert(o1.contains(o1[j0 + 1]));
                }
                if j0 > 0 {
                    assert(o1.contains(o1[j0 - 1]));
                }
            }
            if j0 > 0 {
                assert(o1[j0 - 1] != last);
            }
            if j0 + 1 < n {
                assert(o1[j0 + 1] != last);
            }
        } else {
            assert(x != last);
            assert(o2[j] == x);
            if j > 0 {
                assert(o1[j - 1] != pos) by {
                    assert(o1.contains(o1[j - 1]));
                }
            }
            if j + 1 < n {
                assert(o1[j + 1] != pos) by {
                    assert(o1.contains(o1[j + 1]));
                }
            }
            if x == lprev {
                assert(j == j0 + 1);
            }
            if x == lnext {
                assert(j == j0 - 1);
            }
            if older_in(o1, j) == last {
                assert(j == j0 + 1);
            }
            if newer_in(o1, j) == last {
                assert(j == j0 - 1);
            }
        }
    }
    if n > 0 {
        if o1[0] == last {
            assert(j0 == 0);
        }
        if o1[n - 1] == last {
            assert(j0 == n - 1);
        }
    }
}

/// Dropping the last slot, which `o1` does not name, keeps the ring.
proof fn lemma_drop_unused(s1: Seq<Slot>, o1: Seq<int>)
    requires
        chain_ok(s1, o1),
        s1.len() >= 2,
        !o1.contains(s1.len() - 1),
    ensures
        chain_ok(s1.drop_last(), o1),
{
    reveal(chain_ok);
    reveal(ranks_ok);
    assert forall|k: int| 0 <= k < o1.len() implies #[trigger] o1[k] < s1.len() - 1 by {
        assert(o1.contains(o1[k]));
    }
}

/// `rank` gives, for each slot index that `ord` names, its position in
/// `ord`; `ord` names exactly the slot indices `1..=ord.len()`.
#[verifier::opaque]
pub open spec fn ranks_ok(ord: Seq<int>, rank: Seq<int>) -> bool {
    let n = ord.len() as int;
    &&& rank.len() == n + 1
    &&& forall|k: int| 0 <= k < n ==> 1 <= #[trigger] ord[k] <= n && rank[ord[k]] == k
    &&& forall|i: int| 1 <= i <= n ==> 0 <= #[trigger] rank[i] < n && ord[rank[i]] == i
}

/// Slot 0 is the sentinel and every other slot is an item that refers to
/// the storage entry just before its own index.
#[verifier::opaque]
pub open spec fn shape_ok(s: Seq<Slot>) -> bool {
    &&& s.len() >= 1
    &&& s[0] is Root
    &&& forall|i: int| 1 <= i < s.len() ==> (#[trigger] s[i]) is Item && s[i].storage_spec() == i - 1
}

/// Removing position `k` of `ord` and renaming the last slot index as
/// `ord[k]` leaves an order and ranks that agree.
proof fn lemma_reindex(ord: Seq<int>, rank: Seq<int>, k: int)
    requires
        ranks_ok(ord, rank),
        ord.len() >= 2,
        0 <= k < ord.len(),
    ensures
        ({
            let n = ord.len() as int;
            let pos = ord[k];
            let o1 = ord.remove(k);
            &&& !o1.contains(pos)
            &&& pos != n ==> o1.contains(n)
            &&& ranks_ok(
                o1.map_values(|i: int| relabel(i, n, pos)),
                Seq::new(n as nat, |i: int| shift_rank(rank[relabel(i, pos, n)], k)),
            )
        }),
{
    reveal(chain_ok);
    reveal(ranks_ok);
    let n = ord.len() as int;
    let pos = ord[k];
    let o1 = ord.remove(k);
    let o2 = o1.map_values(|i: int| relabel(i, n, pos));
    let r2 = Seq::new(n as nat, |i: int| shift_rank(rank[relabel(i, pos, n)], k));
    assert forall|j: int| 0 <= j < o1.len() implies o1[j] != pos by {
        let j0 = if j < k { j } else { j + 1 };
        assert(o1[j] == ord[j0]);
    }
    if pos != n {
        let jn = rank[n];
        assert(ord[jn] == n);
        let j1 = if jn < k { jn } else { jn - 1 };
        assert(o1[j1] == n);
    }
    assert forall|j: int| 0 <= j < n - 1 implies 1 <= #[trigger] o2[j] <= n - 1 && r2[o2[j]] == j by {
        let j0 = if j < k { j } else { j + 1 };
        assert(o1[j] == ord[j0]);
        assert(rank[ord[j0]] == j0);
    }
    assert forall|i: int| 1 <= i <= n - 1 implies 0 <= #[trigger] r2[i] < n - 1 && o2[r2[i]] == i by {
        let src = relabel(i, pos, n);
        let r = rank[src];
        assert(ord[r] == src);
        assert(r != k) by {
            if i == pos {
                assert(src == n);
            }
        }
    }
}

/// What the ring says of the item at position `k` and of the sentinel.
proof fn lemma_chain_at(s: Seq<Slot>, ord: Seq<int>, rank: Seq<int>, k: int)
    requires
        chain_ok(s, ord),
        ranks_ok(ord, rank),
        shape_ok(s),
        s.len() == ord.len() + 1,
        0 <= k < ord.len(),
    ensures
        1 <= ord[k] < s.len(),
        rank[ord[k]] == k,
        s[ord[k]].next_spec() == older_in(ord, k),
        s[ord[k]].prev_spec() == newer_in(ord, k),
        0 <= older_in(ord, k) < s.len(),
        0 <= newer_in(ord, k) < s.len(),
        s[0].prev_spec() == ord[0],
        s[0].next_spec() == ord[ord.len() - 1],
        s[0] is Root,
        ord.len() >= 2 ==> older_in(ord, k) != newer_in(ord, k),
{
    reveal(chain_ok);
    reveal(ranks_ok);
    reveal(shape_ok);
    if k > 0 {
        assert(1 <= ord[k - 1]);
    }
    if k + 1 < ord.len() {
        assert(1 <= ord[k + 1]);
    }
    if ord.len() >= 2 && k > 0 && k + 1 < ord.len() {
        assert(ord[k - 1] != ord[k + 1]);
    }
}

/// What the ring says of the neighbours of the item at position `k`.
proof fn lemma_links_at(s: Seq<Slot>, ord: Seq<int>, k: int)
    requires
        chain_ok(s, ord),
        0 <= k < ord.len(),
    ensures
        1 <= ord[k] < s.len(),
        s[ord[k]].next_spec() == older_in(ord, k),
        s[ord[k]].prev_spec() == newer_in(ord, k),
        0 <= older_in(ord, k) < s.len(),
        0 <= newer_in(ord, k) < s.len(),
        older_in(ord, k) != ord[k],
        newer_in(ord, k) != ord[k],
{
    reveal(chain_ok);
    if k > 0 {
        assert(1 <= ord[k - 1]);
    }
    if k + 1 < ord.len() {
        assert(1 <= ord[k + 1]);
    }
}

/// `accs` lists the accumulators of a fold of `combine` over `items` from
/// `seed`: one before each item and one after the last.
pub open spec fn fold_chain<R, T, F: Fn(R, &T) -> R>(
    combine: F,
    seed: R,
    items: Seq<T>,
    accs: Seq<R>,
) -> bool {
    &&& accs.len() == items.len() + 1
    &&& accs[0] == seed
    &&& forall|i: int| 0 <= i < items.len() ==> combine.ensures((accs[i], &items[i]), #[trigger] accs[i + 1])
}

/// `r` is a result of folding `combine` over `items` from `seed`, first
/// item to last.
pub open spec fn folded<R, T, F: Fn(R, &T) -> R>(combine: F, seed: R, items: Seq<T>, r: R) -> bool {
    exists|accs: Seq<R>| #[trigger] fold_chain(combine, seed, items, accs) && accs.last() == r
}

/// `part` is `whole` with some items taken out and the rest in their
/// order: `idx` lists, increasing, the positions in `whole` that were
/// kept, and `keep` answered `false` for every position not listed.
pub open spec fn filtered<T, F: Fn(&T) -> bool>(
    keep: F,
    whole: Seq<T>,
    part: Seq<T>,
    idx: Seq<int>,
) -> bool {
    &&& idx.len() == part.len()
    &&& forall|j: int|
        0 <= j < idx.len() ==> 0 <= #[trigger] idx[j] < whole.len() && part[j] == whole[idx[j]]
    &&& forall|j1: int, j2: int| 0 <= j1 < j2 < idx.len() ==> idx[j1] < idx[j2]
    &&& forall|i: int|
        0 <= i < whole.len() && !idx.contains(i) ==> keep.ensures((&#[trigger] whole[i],), false)
}

/// `a` lists the items of `b` through the index map `f`, whose inverse is
/// `g`; the two hold the same items.
proof fn lemma_permuted_multiset<T>(a: Seq<T>, b: Seq<T>, f: Seq<int>, g: Seq<int>)
    requires
        a.len() == b.len(),
        f.len() == a.len(),
        g.len() == a.len(),
        forall|k: int|
            0 <= k < a.len() ==> 0 <= #[trigger] f[k] < a.len() && g[f[k]] == k && a[k] == b[f[k]],
        forall|i: int| 0 <= i < a.len() ==> 0 <= #[trigger] g[i] < a.len() && f[g[i]] == i,
    ensures
        a.to_multiset() == b.to_multiset(),
    decreases a.len(),
{
    broadcast use vstd::seq_lib::group_to_multiset_ensures;

    let n = a.len() as int;
    if n == 0 {
        assert(a =~= b);
    } else {
        let j = g[n - 1];
        let a1 = a.remove(j);
        let b1 = b.drop_last();
        let f1 = f.remove(j);
        let g1 = Seq::new((n - 1) as nat, |i: int| shift_rank(g[i], j));
        assert forall|k: int| 0 <= k < n - 1 implies 0 <= #[trigger] f1[k] < n - 1 && g1[f1[k]] == k
            && a1[k] == b1[f1[k]] by {
            let k0 = if k < j { k } else { k + 1 };
            assert(f1[k] == f[k0]);
            assert(f[k0] != n - 1);
        }
        assert forall|i: int| 0 <= i < n - 1 implies 0 <= #[trigger] g1[i] < n - 1 && f1[g1[i]] == i by {
            assert(g[i] != j);
            let r = g[i];
            if r > j {
                assert(f1[r - 1] == f[r]);
            } else {
                assert(f1[r] == f[r]);
            }
        }
        lemma_permuted_multiset(a1, b1, f1, g1);
        assert(b1.push(b[n - 1]) =~= b);
        assert(a.to_multiset().count(a[j]) > 0);
    }
}

/// With `combine` computing `step`, a fold chain ends in `fold_left`.
proof fn lemma_folded_is_fold_left<R, T, F: Fn(R, &T) -> R>(
    combine: F,
    step: spec_fn(R, T) -> R,
    seed: R,
    items: Seq<T>,
    r: R,
)
    requires
        folded(combine, seed, items, r),
        forall|acc: R, x: T, out: R| combine.ensures((acc, &x), out) ==> out == step(acc, x),
    ensures
        r == items.fold_left(seed, step),
{
    let accs = choose|accs: Seq<R>| #[trigger]
        fold_chain(combine, seed, items, accs) && accs.last() == r;
    let n = items.len() as int;
    assert forall|i: int| 0 <= i <= n implies #[trigger] accs[i] == items.take(i).fold_left(
        seed,
        step,
    ) by {
        lemma_chain_prefix(combine, step, seed, items, accs, i);
    }
    assert(items.take(n) =~= items);
}

proof fn lemma_chain_prefix<R, T, F: Fn(R, &T) -> R>(
    combine: F,
    step: spec_fn(R, T) -> R,
    seed: R,
    items: Seq<T>,
    accs: Seq<R>,
    i: int,
)
    requires
        fold_chain(combine, seed, items, accs),
        forall|acc: R, x: T, out: R| combine.ensures((acc, &x), out) ==> out == step(acc, x),
        0 <= i <= items.len(),
    ensures
        accs[i] == items.take(i).fold_left(seed, step),
    decreases i,
{
    if i > 0 {
        lemma_chain_prefix(combine, step, seed, items, accs, i - 1);
        assert(items.take(i).drop_last() =~= items.take(i - 1));
        let j = i - 1;
        assert(combine.ensures((accs[j], &items[j]), accs[j + 1]));
    }
}

/// A FIFO/LIFO container whose items form a doubly linked ring of slot
/// indices, with the payloads held in a separate storage array.
///
/// Slot `i > 0` always refers to storage entry `i - 1`: a removal takes the
/// same position out of both arrays by moving the last entry into it.
pub struct IndexedRing<T> {
    slots: Vec<Slot>,
    storage: Vec<T>,
    mode: BufferType,
    /// Slot indices of the items, oldest first.
    order: Ghost<Seq<int>>,
    /// For each slot index, its position in `order`.
    rank: Ghost<Seq<int>>,
}

impl<T> IndexedRing<T> {
    /// The first `n` storage entries are linked into a consistent ring.
    spec fn linked(&self, n: nat) -> bool {
        &&& self.slots@.len() == n + 1
        &&& n <= self.storage@.len()
        &&& self.order@.len() == n
        &&& chain_ok(self.slots@, self.order@)
        &&& ranks_ok(self.order@, self.rank@)
        &&& shape_ok(self.slots@)
    }

    /// Slot table, storage array and ghost order agree.
    pub closed spec fn well_formed(&self) -> bool {
        self.linked(self.storage@.len())
    }

    /// The stored items, oldest first.
    pub closed spec fn items(&self) -> Seq<T> {
        Seq::new(self.order@.len(), |k: int| self.storage@[self.order@[k] - 1])
    }

    /// The stored items in storage order.
    pub closed spec fn stored(&self) -> Seq<T> {
        self.storage@
    }

    /// The retrieval mode currently set.
    pub closed spec fn mode_view(&self) -> BufferType {
        self.mode
    }

    /// An empty ring in FIFO mode.
    pub fn new() -> (r: Self)
        ensures
            r.well_formed(),
            r.items() == Seq::<T>::empty(),
            r.mode_view() == BufferType::FIFO,
    {
        let mut slots: Vec<Slot> = Vec::new();
        slots.push(Slot::Root { prev: 0, next: 0 });
        let r = IndexedRing {
            slots,
            storage: Vec::new(),
            mode: BufferType::FIFO,
            order: Ghost(Seq::empty()),
            rank: Ghost(Seq::empty().push(0int)),
        };
        assert(r.well_formed()) by {
            reveal(chain_ok);
            reveal(ranks_ok);
            reveal(shape_ok);
        }
        assert(r.items() =~= Seq::<T>::empty());
        r
    }

    /// Links a new slot for the first storage entry that has none, as the
    /// newest item.
    fn attach_newest(&mut self)
        requires
            old(self).linked(old(self).order@.len()),
            old(self).order@.len() < old(self).storage@.len(),
        ensures
            final(self).linked(old(self).order@.len() + 1),
            final(self).storage == old(self).storage,
            final(self).mode == old(self).mode,
            final(self).order@ == old(self).order@.push(old(self).order@.len() + 1int),
    {
        let ghost n = self.order@.len();
        let idx = self.slots.len();
        let root = self.slots[0];
        proof {
            if n > 0 {
                lemma_chain_at(self.slots@, self.order@, self.rank@, n - 1);
            }
        }
        if idx == 1 {
            self.slots.push(Slot::Item { prev: 0, next: 0, storage_index: 0 });
            self.slots.set(0, Slot::Root { prev: 1, next: 1 });
        } else {
            let h = root.next();
            self.slots.push(Slot::Item { prev: 0, next: h, storage_index: idx - 1 });
            let hs = self.slots[h];
            self.slots.set(h, hs.with_prev(idx));
            self.slots.set(0, root.with_next(idx));
        }
        self.order = Ghost(self.order@.push(idx as int));
        self.rank = Ghost(self.rank@.push(n as int));
        assert(self.linked(n + 1)) by {
            reveal(chain_ok);
            reveal(ranks_ok);
            reveal(shape_ok);
            let ord = self.order@;
            let s = self.slots@;
            assert(forall|k: int| 0 <= k < n ==> ord[k] == old(self).order@[k]);
            assert forall|k: int| 0 <= k < n + 1 implies s[#[trigger] ord[k]].next_spec()
                == older_in(ord, k) && s[ord[k]].prev_spec() == newer_in(ord, k) by {
                if k < n {
                    assert(old(self).order@[k] == ord[k]);
                }
            }
        }
    }

    /// Unlinks the item in slot `pos` and moves the last slot and the last
    /// storage entry into the positions it leaves; returns the item.
    #[verifier::spinoff_prover]
    #[verifier::rlimit(30)]
    fn remove_slot(&mut self, pos: usize) -> (r: T)
        requires
            old(self).well_formed(),
            1 <= pos < old(self).slots@.len(),
        ensures
            final(self).well_formed(),
            final(self).mode == old(self).mode,
            r == old(self).items()[old(self).rank@[pos as int]],
            r == old(self).storage@[pos - 1],
            final(self).items() == old(self).items().remove(old(self).rank@[pos as int]),
            final(self).storage@ == old(self).storage@.update(
                pos - 1,
                old(self).storage@.last(),
            ).drop_last(),
    {
        let ghost n = self.storage@.len() as int;
        let ghost k = self.rank@[pos as int];
        let ghost ord0 = self.order@;
        let ghost rank0 = self.rank@;
        let ghost s0 = self.slots@;
        assert(0 <= k < n && ord0[k] == pos) by {
            reveal(ranks_ok);
        }
        proof {
            lemma_chain_at(s0, ord0, rank0, k);
        }
        if self.slots.len() == 2 {
            let _ = self.slots.pop();
            self.slots.set(0, Slot::Root { prev: 0, next: 0 });
            let item = self.storage.swap_remove(0);
            self.order = Ghost(Seq::empty());
            self.rank = Ghost(Seq::empty().push(0int));
            assert(self.well_formed()) by {
                reveal(chain_ok);
                reveal(ranks_ok);
                reveal(shape_ok);
            }
            assert(self.items() =~= old(self).items().remove(k));
            return item;
        }
        let s = self.slots[pos];
        let bprev = s.prev();
        let bnext = s.next();
        let a = self.slots[bnext];
        self.slots.set(bnext, a.with_prev(bprev));
        let b = self.slots[bprev];
        self.slots.set(bprev, b.with_next(bnext));
        let ghost s1 = self.slots@;
        proof {
            lemma_bypass(s0, ord0, k, s1);
            lemma_reindex(ord0, rank0, k);
        }
        let ghost o1 = ord0.remove(k);
        let last = self.slots.len() - 1;
        let _ = self.slots.swap_remove(pos);
        let item = self.storage.swap_remove(pos - 1);
        let ghost lst = last as int;
        let ghost p = pos as int;
        if pos != last {
            proof {
                lemma_links_at(s1, o1, o1.index_of(lst));
            }
            let moved = self.slots[pos];
            let lprev = moved.prev();
            let lnext = moved.next();
            self.slots.set(pos, Slot::Item { prev: lprev, next: lnext, storage_index: pos - 1 });
            let c = self.slots[lprev];
            self.slots.set(lprev, c.with_next(pos));
            let d = self.slots[lnext];
            self.slots.set(lnext, d.with_prev(pos));
            proof {
                lemma_relocate(s1, o1, pos as int, self.slots@);
            }
        } else {
            proof {
                assert(self.slots@ =~= s1.drop_last());
                lemma_drop_unused(s1, o1);
            }
        }
        self.order = Ghost(o1.map_values(|i: int| relabel(i, lst, p)));
        self.rank = Ghost(Seq::new(n as nat, |i: int| shift_rank(rank0[relabel(i, p, lst)], k)));
        assert(lst == n);
        assert(self.order@ =~= ord0.remove(k).map_values(|i: int| relabel(i, n, ord0[k])));
        assert(self.rank@ =~= Seq::new(n as nat, |i: int| shift_rank(rank0[relabel(i, ord0[k], n)], k)));
        assert(ranks_ok(self.order@, self.rank@));
        assert(chain_ok(self.slots@, self.order@)) by {
            if p != lst {
                assert(self.order@ =~= o1.map_values(|i: int| relabel(i, s1.len() - 1, p)));
            } else {
                assert(self.order@ =~= o1);
            }
        }
        assert(shape_ok(self.slots@)) by {
            reveal(shape_ok);
            assert(forall|x: int|
                0 <= x < s0.len() ==> (#[trigger] s1[x]).storage_spec() == s0[x].storage_spec() && (
                s1[x] is Root) == (s0[x] is Root));
        }
        assert(self.items() =~= old(self).items().remove(k)) by {
            reveal(ranks_ok);
            assert forall|j: int| 0 <= j < n - 1 implies o1[j] != pos && 1 <= o1[j] <= n by {
                let j0 = if j < k { j } else { j + 1 };
                assert(o1[j] == ord0[j0]);
            }
        }
        item
    }

    /// Slot index of the item that a retrieval takes, or 0 when empty.
    fn end_slot(&self) -> (r: usize)
        requires
            self.well_formed(),
        ensures
            self.items().len() == 0 ==> r == 0,
            self.items().len() > 0 ==> 1 <= r < self.slots@.len() && self.rank@[r as int]
                == out_index(self.items().len() as int, self.mode.takes_newest()),
    {
        proof {
            let n = self.order@.len() as int;
            if n > 0 {
                lemma_chain_at(self.slots@, self.order@, self.rank@, 0);
                lemma_chain_at(self.slots@, self.order@, self.rank@, n - 1);
            } else {
                reveal(chain_ok);
            }
        }
        let root = self.slots[0];
        match self.mode {
            BufferType::FIFO => root.prev(),
            BufferType::LIFO => root.next(),
        }
    }

    /// The item of `items()` at position `k` is the storage entry of the
    /// slot at position `k` of the order.
    proof fn lemma_item_at(&self, k: int)
        requires
            self.well_formed(),
            0 <= k < self.items().len(),
        ensures
            1 <= self.order@[k] < self.slots@.len(),
            self.slots@[self.order@[k]].storage_spec() == self.order@[k] - 1,
            self.slots@[self.order@[k]] is Item,
            self.items()[k] == self.storage@[self.order@[k] - 1],
    {
        reveal(ranks_ok);
        reveal(shape_ok);
    }

    /// Builds a ring holding the items of `v`, pushed in order.
    pub fn from(v: Vec<T>) -> (r: Self)
        ensures
            r.well_formed(),
            r.items() == v@,
            r.mode_view() == BufferType::FIFO,
    {
        let mut slots: Vec<Slot> = Vec::new();
        slots.push(Slot::Root { prev: 0, next: 0 });
        let mut r = IndexedRing {
            slots,
            storage: v,
            mode: BufferType::FIFO,
            order: Ghost(Seq::empty()),
            rank: Ghost(Seq::empty().push(0int)),
        };
        assert(r.linked(0)) by {
            reveal(chain_ok);
            reveal(ranks_ok);
            reveal(shape_ok);
        }
        while r.slots.len() <= r.storage.len()
            invariant
                r.linked(r.order@.len()),
                r.storage@ == v@,
                r.mode == BufferType::FIFO,
                forall|j: int| 0 <= j < r.order@.len() ==> #[trigger] r.order@[j] == j + 1,
            decreases r.storage@.len() - r.order@.len(),
        {
            r.attach_newest();
        }
        assert(r.items() =~= v@);
        r
    }

    /// Number of stored items.
    pub fn len(&self) -> (r: usize)
        requires
            self.well_formed(),
        ensures
            r == self.items().len(),
    {
        self.storage.len()
    }

    /// Whether the ring holds no item: the slot table holds only the sentinel.
    pub fn is_empty(&self) -> (r: bool)
        requires
            self.well_formed(),
        ensures
            r == (self.items().len() == 0),
    {
        self.slots.len() == 1
    }

    /// The retrieval mode currently set.
    pub fn mode(&self) -> (r: BufferType)
        ensures
            r == self.mode_view(),
    {
        self.mode
    }

    /// Sets the retrieval end; the items stay as they are.
    pub fn set_mode(&mut self, mode: BufferType)
        requires
            old(self).well_formed(),
        ensures
            final(self).well_formed(),
            final(self).mode_view() == mode,
            final(self).items() == old(self).items(),
            final(self).stored() == old(self).stored(),
    {
        self.mode = mode;
    }

    /// Removes and returns the oldest item (FIFO) or the newest (LIFO).
    pub fn poll(&mut self) -> (r: Option<T>)
        requires
            old(self).well_formed(),
        ensures
            final(self).well_formed(),
            final(self).mode_view() == old(self).mode_view(),
            r == polled(old(self).items(), old(self).mode_view().takes_newest()),
            final(self).items() == after_poll(old(self).items(), old(self).mode_view().takes_newest()),
    {
        if self.slots.len() == 1 {
            return None;
        }
        let pos = self.end_slot();
        Some(self.remove_slot(pos))
    }

    /// Applies `transform` to the item at the retrieval end, without
    /// removing it.
    pub fn peek<R, F: Fn(&T) -> Option<R>>(&self, transform: F) -> (r: Option<R>)
        requires
            self.well_formed(),
            forall|x: &T| transform.requires((x,)),
        ensures
            self.items().len() == 0 ==> r is None,
            self.items().len() > 0 ==> transform.ensures(
                (&self.items()[out_index(self.items().len() as int, self.mode_view().takes_newest())],),
                r,
            ),
    {
        if self.slots.len() == 1 {
            return None;
        }
        let pos = self.end_slot();
        proof {
            self.lemma_item_at(self.rank@[pos as int]);
            reveal(ranks_ok);
        }
        let at = self.slots[pos].storage_slot();
        transform(&self.storage[at])
    }

    /// Removes and returns the item at the retrieval end if `predicate`
    /// holds of it; otherwise leaves the ring as it is. Only that one item
    /// is looked at.
    pub fn poll_with<F: Fn(&T) -> bool>(&mut self, predicate: F) -> (r: Option<T>)
        requires
            old(self).well_formed(),
            forall|x: &T| predicate.requires((x,)),
        ensures
            final(self).well_formed(),
            final(self).mode_view() == old(self).mode_view(),
            old(self).items().len() == 0 ==> r is None && final(self).items() == old(self).items(),
            old(self).items().len() > 0 ==> {
                let i = out_index(old(self).items().len() as int, old(self).mode_view().takes_newest());
                let x = old(self).items()[i];
                &&& r is Some ==> predicate.ensures((&x,), true) && r == Some(x) && final(self).items()
                    == old(self).items().remove(i)
                &&& r is None ==> predicate.ensures((&x,), false) && final(self).items() == old(
                    self,
                ).items()
            },
    {
        if self.slots.len() == 1 {
            return None;
        }
        let pos = self.end_slot();
        proof {
            self.lemma_item_at(self.rank@[pos as int]);
            reveal(ranks_ok);
        }
        let at = self.slots[pos].storage_slot();
        if predicate(&self.storage[at]) {
            Some(self.remove_slot(pos))
        } else {
            None
        }
    }

    /// Folds `combine` over the items in list order, oldest first, by
    /// following the links from the sentinel.
    pub fn fold<R, F: Fn(R, &T) -> R>(&self, seed: R, combine: F) -> (r: R)
        requires
            self.well_formed(),
            forall|acc: R, x: &T| combine.requires((acc, x)),
        ensures
            folded(combine, seed, self.items(), r),
    {
        let ghost items = self.items();
        let ghost n = items.len() as int;
        let ghost mut accs: Seq<R> = Seq::empty().push(seed);
        let mut acc = seed;
        if self.slots.len() == 1 {
            assert(fold_chain(combine, seed, items, accs));
            return acc;
        }
        proof {
            lemma_chain_at(self.slots@, self.order@, self.rank@, 0);
        }
        let mut cur = self.slots[0].prev();
        let mut steps: usize = 0;
        let len = self.storage.len();
        while cur != 0
            invariant
                self.well_formed(),
                len == n,
                items == self.items(),
                n == self.order@.len(),
                forall|acc: R, x: &T| combine.requires((acc, x)),
                0 <= steps <= n,
                cur == (if steps < n { self.order@[steps as int] } else { 0 }),
                accs.len() == steps + 1,
                accs[0] == seed,
                accs.last() == acc,
                forall|i: int|
                    0 <= i < steps ==> combine.ensures((accs[i], &items[i]), #[trigger] accs[i + 1]),
            decreases n - steps,
        {
            proof {
                self.lemma_item_at(steps as int);
                lemma_links_at(self.slots@, self.order@, steps as int);
            }
            let slot = self.slots[cur];
            let at = slot.storage_slot();
            acc = combine(acc, &self.storage[at]);
            proof {
                accs = accs.push(acc);
            }
            cur = slot.prev();
            steps = steps + 1;
        }
        proof {
            if steps < n {
                lemma_links_at(self.slots@, self.order@, steps as int);
            }
            assert(fold_chain(combine, seed, items, accs));
        }
        acc
    }

    /// Folds `combine` over the items in storage order, without following
    /// links.
    pub fn fold_fast<R, F: Fn(R, &T) -> R>(&self, seed: R, combine: F) -> (r: R)
        requires
            forall|acc: R, x: &T| combine.requires((acc, x)),
        ensures
            folded(combine, seed, self.stored(), r),
    {
        let ghost items = self.stored();
        let ghost mut accs: Seq<R> = Seq::empty().push(seed);
        let mut acc = seed;
        let mut i: usize = 0;
        while i < self.storage.len()
            invariant
                items == self.storage@,
                forall|acc: R, x: &T| combine.requires((acc, x)),
                0 <= i <= items.len(),
                accs.len() == i + 1,
                accs[0] == seed,
                accs.last() == acc,
                forall|j: int|
                    0 <= j < i ==> combine.ensures((accs[j], &items[j]), #[trigger] accs[j + 1]),
            decreases items.len() - i,
        {
            acc = combine(acc, &self.storage[i]);
            proof {
                accs = accs.push(acc);
            }
            i = i + 1;
        }
        assert(fold_chain(combine, seed, items, accs));
        acc
    }

    /// Removes every item for which `keep` is false, walking the storage
    /// array once; what is kept stays in list order.
    pub fn purge<F: Fn(&T) -> bool>(&mut self, keep: F)
        requires
            old(self).well_formed(),
            forall|x: &T| keep.requires((x,)),
        ensures
            final(self).well_formed(),
            final(self).mode_view() == old(self).mode_view(),
            forall|i: int|
                0 <= i < final(self).items().len() ==> keep.ensures(
                    (&final(self).items()[i],),
                    true,
                ),
            exists|idx: Seq<int>| #[trigger]
                filtered(keep, old(self).items(), final(self).items(), idx),
    {
        let ghost whole = self.items();
        let ghost mut idx: Seq<int> = Seq::new(whole.len(), |j: int| j);
        assert(filtered(keep, whole, self.items(), idx)) by {
            assert forall|i: int| 0 <= i < whole.len() implies idx.contains(i) by {
                assert(idx[i] == i);
            }
        }
        let mut i: usize = 0;
        while i < self.storage.len()
            invariant
                self.well_formed(),
                self.mode == old(self).mode,
                whole == old(self).items(),
                forall|x: &T| keep.requires((x,)),
                0 <= i <= self.storage@.len(),
                forall|j: int| 0 <= j < i ==> keep.ensures((&self.storage@[j],), true),
                filtered(keep, whole, self.items(), idx),
            decreases self.storage@.len() - i,
        {
            if keep(&self.storage[i]) {
                i = i + 1;
            } else {
                proof {
                    reveal(shape_ok);
                    reveal(ranks_ok);
                }
                let ghost before = self.items();
                let ghost k = self.rank@[i + 1];
                let ghost idx0 = idx;
                let ghost si = self.storage@[i as int];
                assert(keep.ensures((&si,), false));
                let x = self.remove_slot(i + 1);
                proof {
                    idx = idx0.remove(k);
                    assert(before[k] == whole[idx0[k]]);
                    assert forall|m: int| 0 <= m < whole.len() && !idx.contains(m) implies keep.ensures(
                        (&whole[m],),
                        false,
                    ) by {
                        if idx0.contains(m) {
                            let j = idx0.index_of(m);
                            if j < k {
                                assert(idx[j] == m);
                            } else if j > k {
                                assert(idx[j - 1] == m);
                            }
                        }
                    }
                    assert forall|j: int| 0 <= j < idx.len() implies 0 <= #[trigger] idx[j] < whole.len()
                        && self.items()[j] == whole[idx[j]] by {
                        if j < k {
                            assert(idx[j] == idx0[j]);
                        } else {
                            assert(idx[j] == idx0[j + 1]);
                        }
                    }
                    assert forall|j1: int, j2: int| 0 <= j1 < j2 < idx.len() implies idx[j1] < idx[j2] by {
                        let a = if j1 < k { j1 } else { j1 + 1 };
                        let b = if j2 < k { j2 } else { j2 + 1 };
                        assert(idx[j1] == idx0[a] && idx[j2] == idx0[b]);
                    }
                }
            }
        }
        proof {
            assert forall|j: int| 0 <= j < self.items().len() implies keep.ensures(
                (&self.items()[j],),
                true,
            ) by {
                self.lemma_item_at(j);
            }
        }
    }

    /// List order and storage order hold the same items.
    pub proof fn lemma_items_permute_stored(&self)
        requires
            self.well_formed(),
        ensures
            self.items().to_multiset() == self.stored().to_multiset(),
    {
        reveal(ranks_ok);
        let n = self.order@.len() as int;
        let f = self.order@.map_values(|v: int| v - 1);
        let g = Seq::new(n as nat, |i: int| self.rank@[i + 1]);
        assert forall|k: int| 0 <= k < n implies 0 <= #[trigger] f[k] < n && g[f[k]] == k
            && self.items()[k] == self.storage@[f[k]] by {}
        assert forall|i: int| 0 <= i < n implies 0 <= #[trigger] g[i] < n && f[g[i]] == i by {
            assert(1 <= i + 1 <= n);
        }
        lemma_permuted_multiset(self.items(), self.storage@, f, g);
    }

    /// `fold` and `fold_fast` agree whenever the step they compute does not
    /// depend on the order in which items are combined.
    pub proof fn lemma_fold_matches_fold_fast<R, F: Fn(R, &T) -> R>(
        &self,
        combine: F,
        step: spec_fn(R, T) -> R,
        seed: R,
        r1: R,
        r2: R,
    )
        requires
            self.well_formed(),
            forall|acc: R, x: T, out: R| combine.ensures((acc, &x), out) ==> out == step(acc, x),
            vstd::seq_lib::commutative_foldl(step),
            folded(combine, seed, self.items(), r1),
            folded(combine, seed, self.stored(), r2),
        ensures
            r1 == r2,
    {
        lemma_folded_is_fold_left(combine, step, seed, self.items(), r1);
        lemma_folded_is_fold_left(combine, step, seed, self.stored(), r2);
        self.lemma_items_permute_stored();
        vstd::seq_lib::lemma_fold_left_permutation(self.items(), self.stored(), step, seed);
    }

    /// Stores `item` as the newest item.
    pub fn push(&mut self, item: T)
        requires
            old(self).well_formed(),
        ensures
            final(self).well_formed(),
            final(self).items() == old(self).items().push(item),
            final(self).stored() == old(self).stored().push(item),
            final(self).mode_view() == old(self).mode_view(),
    {
        self.storage.push(item);
        self.attach_newest();
        assert(self.items() =~= old(self).items().push(item)) by {
            reveal(ranks_ok);
        }
    }
}

impl<T> Buffer for IndexedRing<T> {
    type Item = T;

    open spec fn well_formed(&self) -> bool {
        IndexedRing::well_formed(self)
    }

    open spec fn items(&self) -> Seq<T> {
        IndexedRing::items(self)
    }

    open spec fn takes_newest(&self) -> bool {
        self.mode_view().takes_newest()
    }

    open spec fn full(&self) -> bool {
        false
    }

    open spec fn unbounded() -> bool {
        true
    }

    proof fn lemma_unbounded_never_full(&self) {
    }

    proof fn lemma_full_not_empty(&self) {
    }

    fn empty() -> (r: Self) {
        IndexedRing::new()
    }

    fn push(&mut self, item: T) {
        IndexedRing::push(self, item)
    }

    fn pop(&mut self) -> (r: Option<T>) {
        self.poll()
    }

    fn len(&self) -> (r: usize) {
        IndexedRing::len(self)
    }

    fn is_empty(&self) -> (r: bool) {
        IndexedRing::is_empty(self)
    }
}

impl<T> BufferMode for IndexedRing<T> {
    type Mode = BufferType;

    open spec fn mode_takes_newest(mode: BufferType) -> bool {
        mode.takes_newest()
    }

    open spec fn current_mode(&self) -> BufferType {
        self.mode_view()
    }

    fn mode(&self) -> (r: BufferType) {
        IndexedRing::mode(self)
    }

    fn set_mode(&mut self, mode: BufferType) {
        IndexedRing::set_mode(self, mode)
    }
}

impl<T: Clone> Peek for IndexedRing<T> {
    type Item = T;

    open spec fn peek_ready(&self) -> bool {
        IndexedRing::well_formed(self)
    }

    open spec fn front(&self) -> Option<T> {
        polled(IndexedRing::items(self), self.mode_view().takes_newest())
    }

    fn peek(&self) -> (r: Option<T>) {
        let copy = |x: &T| -> (c: Option<T>)
            ensures
                c is Some && cloned(*x, c.unwrap()),
            { Some(x.clone()) };
        IndexedRing::peek(self, copy)
    }
}

impl<T: Clone> Snapshot for IndexedRing<T> {
    type Item = T;

    open spec fn snapshot_ready(&self) -> bool {
        true
    }

    open spec fn stored(&self) -> Seq<T> {
        IndexedRing::stored(self)
    }

    fn snapshot(&self) -> (r: Vec<T>) {
        let mut out: Vec<T> = Vec::new();
        let mut i: usize = 0;
        while i < self.storage.len()
            invariant
                0 <= i <= self.storage@.len(),
                out@.len() == i,
                forall|j: int| 0 <= j < i ==> cloned(self.storage@[j], #[trigger] out@[j]),
            decreases self.storage@.len() - i,
        {
            out.push(self.storage[i].clone());
            i = i + 1;
        }
        out
    }
}

} // verus!
