use ringmaster::{Buffer, Capacity, Peek, Snapshot, Timeseries};

#[test]
fn timeseries() {
    let mut t = Timeseries::with_capacity(3);
    assert_eq!(t.len(), 0);
    assert_eq!(&t.snapshot()[..], &Vec::<i32>::new()[..]);

    t.push(1);
    t.push(2);
    assert_eq!(&t.snapshot()[..], &vec![2, 1][..]);

    t.push(3);
    t.push(4);
    assert_eq!(&t.snapshot()[..], &vec![4, 3, 2][..]);
}

#[test]
fn timeseries_pops_oldest_and_peeks_newest() {
    let mut t = Timeseries::with_capacity(2);
    assert_eq!(t.capacity(), 2);
    t.push(10);
    t.push(20);
    t.push(30);
    assert_eq!(t.len(), 2);
    assert_eq!(t.peek(), Some(30));
    assert_eq!(t.pop(), Some(20));
    assert_eq!(t.pop(), Some(30));
    assert_eq!(t.pop(), None);
    assert!(t.is_empty());
}

#[test]
fn timeseries_new_keeps_latest_only() {
    let mut t = Timeseries::<i32>::new();
    assert_eq!(t.capacity(), 0);
    assert!(t.is_empty());
    t.push(1);
    t.push(2);
    assert_eq!(t.len(), 1);
    assert_eq!(t.snapshot(), vec![2]);
}

#[test]
fn timeseries_from_vec_front_is_newest() {
    let mut t = Timeseries::from(vec![3, 2, 1]);
    assert_eq!(t.capacity(), 3);
    assert_eq!(t.peek(), Some(3));
    t.push(4);
    assert_eq!(t.snapshot(), vec![4, 3, 2]);
    assert_eq!(t.pop(), Some(2));
}

#[test]
fn timeseries_peek_newest_while_pop_oldest() {
    let mut t = Timeseries::with_capacity(3);
    t.push(1);
    t.push(2);
    assert_eq!(t.peek(), Some(2));
    assert_eq!(t.pop(), Some(1));
    assert!(t.len() <= t.capacity());
}

#[test]
fn ring_buffer_over_bounded_series_keeps_last_values() {
    let ring = ringmaster::RingBuffer::<Timeseries<i32>>::from(vec![1, 2, 3]);
    assert_eq!(ring.len(), 1);
    assert_eq!(ring.snapshot(), vec![3]);
}
