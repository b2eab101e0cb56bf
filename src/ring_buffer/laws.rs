use vstd::prelude::*;

use crate::traits::{after_poll, polled};

verus! {

/// The items and the retrieved values after running `ops` from `items`,
/// with retrievals taking the newest item when `newest` holds. `Some(x)`
/// pushes `x`; `None` polls, and a poll of an empty ring yields nothing.
pub open spec fn run<T>(items: Seq<T>, newest: bool, ops: Seq<Option<T>>) -> (Seq<T>, Seq<T>)
    decreases ops.len(),
{
    if ops.len() == 0 {
        (items, Seq::empty())
    } else {
        match ops[0] {
            Some(x) => run(items.push(x), newest, ops.drop_first()),
            None => {
                let rest = run(after_poll(items, newest), newest, ops.drop_first());
                match polled(items, newest) {
                    Some(y) => (rest.0, seq![y] + rest.1),
                    None => rest,
                }
            },
        }
    }
}

/// The value a retrieval returns, as a sequence of zero or one values.
pub open spec fn as_seq<T>(r: Option<T>) -> Seq<T> {
    match r {
        Some(y) => seq![y],
        None => Seq::empty(),
    }
}

/// Running one more operation after `ops` does to the items held what a
/// single call does: a push appends its value (the `push` contract) and a
/// poll leaves `after_poll` and retrieves `polled` (the `poll` contract).
/// So a ring that went through the calls of `ops` holds `run(..).0`, and
/// its polls returned `run(..).1`, whatever the interleaving.
pub proof fn lemma_run_one_more<T>(items: Seq<T>, newest: bool, ops: Seq<Option<T>>, op: Option<T>)
    ensures
        ({
            let before = run(items, newest, ops);
            let after = run(items, newest, ops.push(op));
            match op {
                Some(x) => after == (before.0.push(x), before.1),
                None => after == (
                    after_poll(before.0, newest),
                    before.1 + as_seq(polled(before.0, newest)),
                ),
            }
        }),
    decreases ops.len(),
{
    let all = ops.push(op);
    if ops.len() == 0 {
        assert(all.drop_first() =~= Seq::<Option<T>>::empty());
        assert(all[0] == op);
        assert(run(items, newest, ops) == (items, Seq::<T>::empty()));
        match op {
            Some(x) => {
                assert(run(items, newest, all) == run(items.push(x), newest, all.drop_first()));
            },
            None => {
                let tail = run(after_poll(items, newest), newest, all.drop_first());
                assert(tail == (after_poll(items, newest), Seq::<T>::empty()));
                assert(Seq::<T>::empty() + as_seq(polled(items, newest)) =~= as_seq(
                    polled(items, newest),
                ));
                match polled(items, newest) {
                    Some(y) => {
                        assert(seq![y] + Seq::<T>::empty() =~= seq![y]);
                    },
                    None => {},
                }
            },
        }
    } else {
        assert(all[0] == ops[0]);
        assert(all.drop_first() =~= ops.drop_first().push(op));
        match ops[0] {
            Some(x) => {
                lemma_run_one_more(items.push(x), newest, ops.drop_first(), op);
            },
            None => {
                let next = after_poll(items, newest);
                lemma_run_one_more(next, newest, ops.drop_first(), op);
                let rest = run(next, newest, ops.drop_first());
                let rest2 = run(next, newest, ops.drop_first().push(op));
                match polled(items, newest) {
                    Some(y) => {
                        if op is None {
                            assert(seq![y] + rest2.1 =~= seq![y] + rest.1 + as_seq(
                                polled(rest.0, newest),
                            ));
                        }
                    },
                    None => {},
                }
            },
        }
    }
}

/// The values that `ops` pushes, in order.
pub open spec fn pushed<T>(ops: Seq<Option<T>>) -> Seq<T>
    decreases ops.len(),
{
    if ops.len() == 0 {
        Seq::empty()
    } else {
        match ops[0] {
            Some(x) => seq![x] + pushed(ops.drop_first()),
            None => pushed(ops.drop_first()),
        }
    }
}

/// One push of each value of `xs`, in order.
pub open spec fn pushes<T>(xs: Seq<T>) -> Seq<Option<T>> {
    Seq::new(xs.len(), |i: int| Some(xs[i]))
}

/// `m` polls.
pub open spec fn polls<T>(m: nat) -> Seq<Option<T>> {
    Seq::new(m, |i: int| None::<T>)
}

/// In FIFO mode, whatever pushes and polls are interleaved, the values
/// retrieved followed by those still held are the items held at the start
/// followed by everything pushed, in push order.
pub proof fn lemma_fifo_keeps_push_order<T>(items: Seq<T>, ops: Seq<Option<T>>)
    ensures
        run(items, false, ops).1 + run(items, false, ops).0 == items + pushed(ops),
    decreases ops.len(),
{
    if ops.len() > 0 {
        let rest = ops.drop_first();
        match ops[0] {
            Some(x) => {
                lemma_fifo_keeps_push_order(items.push(x), rest);
                assert(items.push(x) + pushed(rest) =~= items + (seq![x] + pushed(rest)));
            },
            None => {
                lemma_fifo_keeps_push_order(after_poll(items, false), rest);
                if items.len() > 0 {
                    let r = run(after_poll(items, false), false, rest);
                    assert(seq![items[0]] + r.1 + r.0 =~= seq![items[0]] + (r.1 + r.0));
                    assert(seq![items[0]] + (after_poll(items, false) + pushed(rest)) =~= items
                        + pushed(rest));
                }
            },
        }
    } else {
        assert(run(items, false, ops).1 + items =~= items + pushed(ops));
    }
}

/// At every point, the number of items held is the number held at the
/// start plus the number of pushes minus the number of polls that returned
/// a value, in either mode.
pub proof fn lemma_len_counts_pushes_and_polls<T>(items: Seq<T>, newest: bool, ops: Seq<Option<T>>)
    ensures
        run(items, newest, ops).0.len() + run(items, newest, ops).1.len() == items.len()
            + pushed(ops).len(),
    decreases ops.len(),
{
    if ops.len() > 0 {
        let rest = ops.drop_first();
        match ops[0] {
            Some(x) => lemma_len_counts_pushes_and_polls(items.push(x), newest, rest),
            None => lemma_len_counts_pushes_and_polls(after_poll(items, newest), newest, rest),
        }
    }
}

/// Pushing the values of `xs` and then running `ops` is running `ops` on
/// the items with `xs` appended.
pub proof fn lemma_run_after_pushes<T>(items: Seq<T>, newest: bool, xs: Seq<T>, ops: Seq<Option<T>>)
    ensures
        run(items, newest, pushes(xs) + ops) == run(items + xs, newest, ops),
    decreases xs.len(),
{
    if xs.len() == 0 {
        assert(pushes(xs) + ops =~= ops);
        assert(items + xs =~= items);
    } else {
        let all = pushes(xs) + ops;
        assert(all[0] == Some(xs[0]));
        assert(all.drop_first() =~= pushes(xs.drop_first()) + ops);
        lemma_run_after_pushes(items.push(xs[0]), newest, xs.drop_first(), ops);
        assert(items.push(xs[0]) + xs.drop_first() =~= items + xs);
    }
}

/// In LIFO mode, polling as many times as values were just pushed returns
/// them newest first and leaves the earlier items as they were.
pub proof fn lemma_lifo_reverses<T>(items: Seq<T>, xs: Seq<T>)
    ensures
        run(items, true, pushes(xs) + polls(xs.len())) == (items, xs.reverse()),
    decreases xs.len(),
{
    lemma_run_after_pushes(items, true, xs, polls(xs.len()));
    lemma_lifo_polls(items, xs);
}

proof fn lemma_lifo_polls<T>(items: Seq<T>, xs: Seq<T>)
    ensures
        run(items + xs, true, polls(xs.len())) == (items, xs.reverse()),
    decreases xs.len(),
{
    let ops = polls::<T>(xs.len());
    if xs.len() == 0 {
        assert(items + xs =~= items);
        assert(xs.reverse() =~= Seq::<T>::empty());
    } else {
        let s = items + xs;
        let ys = xs.drop_last();
        assert(ops[0] == None::<T>);
        assert(ops.drop_first() =~= polls::<T>(ys.len()));
        assert(after_poll(s, true) =~= items + ys);
        assert(polled(s, true) == Some(xs.last()));
        lemma_lifo_polls(items, ys);
        assert(seq![xs.last()] + ys.reverse() =~= xs.reverse());
    }
}

/// Polling `m` times from `items` retrieves `min(m, len)` values and leaves
/// the rest, in either mode.
pub proof fn lemma_polls_drain<T>(items: Seq<T>, newest: bool, m: nat)
    ensures
        run(items, newest, polls(m)).1.len() == if m <= items.len() {
            m as int
        } else {
            items.len() as int
        },
        run(items, newest, polls(m)).0.len() == if m <= items.len() {
            items.len() - m
        } else {
            0
        },
    decreases m,
{
    if m > 0 {
        let ops = polls::<T>(m);
        assert(ops[0] == None::<T>);
        assert(ops.drop_first() =~= polls::<T>((m - 1) as nat));
        lemma_polls_drain(after_poll(items, newest), newest, (m - 1) as nat);
    }
}

/// Pushing `n` values into an empty ring and polling `n` times drains it;
/// one more poll retrieves nothing. Holds in either mode.
pub proof fn lemma_round_trip<T>(newest: bool, xs: Seq<T>)
    ensures
        run(Seq::empty(), newest, pushes(xs) + polls(xs.len())).0.len() == 0,
        run(Seq::empty(), newest, pushes(xs) + polls(xs.len())).1.len() == xs.len(),
        run(Seq::empty(), newest, pushes(xs) + polls(xs.len() + 1)).1.len() == xs.len(),
{
    lemma_run_after_pushes(Seq::empty(), newest, xs, polls(xs.len()));
    lemma_run_after_pushes(Seq::empty(), newest, xs, polls(xs.len() + 1));
    lemma_polls_drain(Seq::<T>::empty() + xs, newest, xs.len());
    lemma_polls_drain(Seq::<T>::empty() + xs, newest, xs.len() + 1);
}

} // verus!
