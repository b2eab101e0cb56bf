use ringmaster::ring_buffer::{IndexedRing, RingStorageNaive};
use ringmaster::{Buffer, BufferMode, BufferType, Peek, RingBuffer, Snapshot};

fn drain(ring: &mut IndexedRing<i32>) -> Vec<i32> {
    let mut out = Vec::new();
    while let Some(x) = ring.poll() {
        out.push(x);
    }
    out
}

#[test]
fn fifo_scenario_push_five_then_poll() {
    let mut ring = IndexedRing::new();
    for x in 1..=5 {
        ring.push(x);
    }
    for x in 1..=5 {
        assert_eq!(ring.poll(), Some(x));
    }
    assert_eq!(ring.poll(), None);
}

#[test]
fn fifo_scenario_interleaved() {
    let mut ring = IndexedRing::new();
    ring.push(1);
    ring.push(2);
    ring.push(3);
    assert_eq!(ring.poll(), Some(1));
    assert_eq!(ring.poll(), Some(2));
    ring.push(4);
    ring.push(5);
    assert_eq!(ring.poll(), Some(3));
    assert_eq!(ring.poll(), Some(4));
    assert_eq!(ring.poll(), Some(5));
    assert_eq!(ring.poll(), None);
}

#[test]
fn lifo_scenario_interleaved() {
    let mut ring = IndexedRing::new();
    ring.set_mode(BufferType::LIFO);
    ring.push(1);
    ring.push(2);
    ring.push(3);
    assert_eq!(ring.poll(), Some(3));
    assert_eq!(ring.poll(), Some(2));
    ring.push(4);
    ring.push(5);
    assert_eq!(ring.poll(), Some(5));
    assert_eq!(ring.poll(), Some(4));
    assert_eq!(ring.poll(), Some(1));
    assert_eq!(ring.poll(), None);
}

#[test]
fn poll_with_scenario() {
    let mut ring = IndexedRing::from(vec![1, 2, 3]);
    assert_eq!(ring.poll_with(|x: &i32| *x < 3), Some(1));
    assert_eq!(ring.poll_with(|x: &i32| *x < 3), Some(2));
    assert_eq!(ring.poll_with(|x: &i32| *x < 3), None);
    assert_eq!(ring.len(), 1);
    assert_eq!(ring.poll(), Some(3));
}

#[test]
fn poll_with_on_empty_ring() {
    let mut ring: IndexedRing<i32> = IndexedRing::new();
    assert_eq!(ring.poll_with(|_x: &i32| true), None);
    assert!(ring.is_empty());
}

#[test]
fn purge_scenario_keeps_evens() {
    let mut ring = IndexedRing::from(vec![1, 2, 3, 4, 5]);
    ring.purge(|x: &i32| *x % 2 == 0);
    assert_eq!(ring.len(), 2);
    assert_eq!(ring.poll(), Some(2));
    assert_eq!(ring.poll(), Some(4));
    assert_eq!(ring.poll(), None);
}

#[test]
fn purge_keeps_list_order_in_both_modes() {
    let mut ring = IndexedRing::from(vec![1, 2, 3, 4, 5, 6, 7, 8, 9, 10]);
    ring.purge(|x: &i32| *x % 3 != 0);
    assert_eq!(ring.len(), 7);
    ring.set_mode(BufferType::LIFO);
    assert_eq!(drain(&mut ring), vec![10, 8, 7, 5, 4, 2, 1]);
}

#[test]
fn purge_everything_and_nothing() {
    let mut ring = IndexedRing::from(vec![4, 5, 6]);
    ring.purge(|_x: &i32| true);
    assert_eq!(ring.len(), 3);
    ring.purge(|_x: &i32| false);
    assert!(ring.is_empty());
    assert_eq!(ring.poll(), None);
    ring.push(7);
    assert_eq!(ring.poll(), Some(7));
}

#[test]
fn fold_matches_fold_fast_for_a_sum() {
    let mut ring = IndexedRing::from(vec![5, 1, 4]);
    ring.push(2);
    assert_eq!(ring.poll(), Some(5));
    ring.push(3);
    let slow = ring.fold(0, |acc: i32, x: &i32| acc + *x);
    let fast = ring.fold_fast(0, |acc: i32, x: &i32| acc + *x);
    assert_eq!(slow, 10);
    assert_eq!(fast, 10);
}

#[test]
fn fold_visits_oldest_first() {
    let mut ring = IndexedRing::from(vec![1, 2, 3]);
    ring.set_mode(BufferType::LIFO);
    let digits = ring.fold(0, |acc: i32, x: &i32| acc * 10 + *x);
    assert_eq!(digits, 123);
    assert_eq!(ring.fold(7, |acc: i32, _x: &i32| acc), 7);
    let empty: IndexedRing<i32> = IndexedRing::new();
    assert_eq!(empty.fold(9, |acc: i32, x: &i32| acc + *x), 9);
    assert_eq!(empty.fold_fast(9, |acc: i32, x: &i32| acc + *x), 9);
}

#[test]
fn fold_fast_walks_storage_order() {
    let mut ring = IndexedRing::from(vec![1, 2, 3, 4]);
    assert_eq!(ring.poll(), Some(1));
    let stored = ring.fold_fast(0, |acc: i32, x: &i32| acc * 10 + *x);
    assert_eq!(stored, 423);
    let listed = ring.fold(0, |acc: i32, x: &i32| acc * 10 + *x);
    assert_eq!(listed, 234);
}

#[test]
fn peek_applies_transform_at_retrieval_end() {
    let mut ring = IndexedRing::from(vec![10, 20, 30]);
    assert_eq!(ring.peek(|x: &i32| Some(*x + 1)), Some(11));
    ring.set_mode(BufferType::LIFO);
    assert_eq!(ring.peek(|x: &i32| Some(*x + 1)), Some(31));
    assert_eq!(ring.peek(|_x: &i32| None::<i32>), None);
    assert_eq!(ring.len(), 3);
    let empty: IndexedRing<i32> = IndexedRing::new();
    assert_eq!(empty.peek(|x: &i32| Some(*x)), None);
}

#[test]
fn len_and_is_empty_track_pushes_and_polls() {
    let mut ring = IndexedRing::new();
    assert!(ring.is_empty());
    assert_eq!(ring.len(), 0);
    ring.push(1);
    ring.push(2);
    assert_eq!(ring.len(), 2);
    assert!(!ring.is_empty());
    ring.poll();
    assert_eq!(ring.len(), 1);
    ring.poll();
    ring.poll();
    assert_eq!(ring.len(), 0);
    assert!(ring.is_empty());
}

#[test]
fn switching_mode_keeps_len() {
    let mut ring = IndexedRing::from(vec![1, 2, 3]);
    ring.set_mode(BufferType::LIFO);
    assert_eq!(ring.len(), 3);
    assert!(ring.mode() == BufferType::LIFO);
    ring.set_mode(BufferType::FIFO);
    assert_eq!(ring.len(), 3);
    assert_eq!(ring.poll(), Some(1));
}

#[test]
fn round_trip_drains_to_empty() {
    for lifo in [false, true] {
        let mut ring = IndexedRing::new();
        if lifo {
            ring.set_mode(BufferType::LIFO);
        }
        for x in 0..100 {
            ring.push(x);
        }
        for _ in 0..100 {
            assert!(ring.poll().is_some());
        }
        assert!(ring.is_empty());
        assert_eq!(ring.poll(), None);
    }
}

#[test]
fn removal_from_the_middle_of_storage_keeps_order() {
    let mut ring = IndexedRing::from(vec![1, 2, 3, 4, 5, 6]);
    assert_eq!(ring.poll(), Some(1));
    ring.set_mode(BufferType::LIFO);
    assert_eq!(ring.poll(), Some(6));
    ring.push(7);
    ring.set_mode(BufferType::FIFO);
    assert_eq!(ring.poll(), Some(2));
    ring.push(8);
    assert_eq!(drain(&mut ring), vec![3, 4, 5, 7, 8]);
}

#[test]
fn snapshot_copies_storage_order() {
    let mut ring = IndexedRing::from(vec![1, 3, 5]);
    ring.push(7);
    assert_eq!(ring.snapshot(), vec![1, 3, 5, 7]);
    assert_eq!(ring.poll(), Some(1));
    assert_eq!(ring.snapshot(), vec![7, 3, 5]);
    assert_eq!(ring.len(), 3);
}

#[test]
fn ring_buffer_over_indexed_backend() {
    let mut ring = RingBuffer::<IndexedRing<i32>>::from(vec![1, 2, 3]);
    assert_eq!(Peek::peek(&ring), Some(1));
    ring.set_mode(BufferType::LIFO);
    assert_eq!(Peek::peek(&ring), Some(3));
    assert_eq!(ring.pop(), Some(3));
    ring.push(4);
    assert_eq!(ring.pop(), Some(4));
    assert_eq!(ring.len(), 2);
    assert_eq!(ring.snapshot(), vec![1, 2]);
}

#[test]
fn naive_backend_lifo_and_fifo() {
    let mut store = RingStorageNaive::from(vec![1, 2, 3]);
    assert_eq!(store.pop(), Some(1));
    store.set_mode(BufferType::LIFO);
    assert_eq!(store.peek(), Some(3));
    assert_eq!(store.pop(), Some(3));
    assert_eq!(store.len(), 1);
    assert_eq!(store.pop(), Some(2));
    assert!(store.is_empty());
    assert_eq!(store.pop(), None);
}

#[test]
fn default_mode_is_fifo() {
    assert!(BufferType::default() == BufferType::FIFO);
    let ring: IndexedRing<i32> = IndexedRing::new();
    assert!(ring.mode() == BufferType::FIFO);
    let empty = <IndexedRing<i32> as Buffer>::empty();
    assert!(empty.is_empty());
}
