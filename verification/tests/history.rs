use galaxy_systrkr::history::{RingBuf, RingBuffer};

#[test]
fn new_buffer_is_empty() {
    let buf: RingBuffer<f32, 4> = RingBuffer::new();

    assert_eq!(buf.len(), 0);
    assert!(buf.is_empty());
    assert_eq!(buf.capacity(), 4);
}

#[test]
fn push_below_capacity_appends_in_order() {
    let mut buf: RingBuffer<f32, 4> = RingBuffer::new();

    buf.push(1.0);
    buf.push(2.0);
    buf.push(3.0);

    let collected: Vec<f32> = buf.iter();
    assert_eq!(collected, vec![1.0, 2.0, 3.0]);
    assert_eq!(buf.len(), 3);
}

#[test]
fn push_at_capacity_drops_oldest() {
    let mut buf: RingBuffer<f32, 3> = RingBuffer::new();

    buf.push(1.0);
    buf.push(2.0);
    buf.push(3.0);
    buf.push(4.0);
    buf.push(5.0);

    let collected: Vec<f32> = buf.iter();
    assert_eq!(collected, vec![3.0, 4.0, 5.0]);
    assert_eq!(buf.len(), 3);
}

#[test]
fn iter_handles_wraparound_correctly() {
    let mut buf: RingBuffer<u32, 4> = RingBuffer::new();

    for i in 1..=10u32 {
        buf.push(i);
    }

    let collected: Vec<u32> = buf.iter();
    assert_eq!(collected, vec![7, 8, 9, 10]);
}

#[test]
fn ring_buffer_default_is_empty() {
    let buf: RingBuffer<u8, 2> = RingBuffer::default();
    assert!(buf.is_empty());
    assert!(buf.iter().is_empty());
}

#[test]
fn runtime_ring_keeps_newest_values() {
    let mut ring: RingBuf<u64> = RingBuf::new(5);
    for v in 0..12u64 {
        ring.push(v);
        assert!(ring.len() <= ring.capacity());
    }
    assert_eq!(ring.iter(), vec![7, 8, 9, 10, 11]);
}

#[test]
fn resize_shrink_keeps_most_recent() {
    let mut ring: RingBuf<u32> = RingBuf::new(4);
    for v in 1..=4u32 {
        ring.push(v);
    }
    ring.resize(2);
    assert_eq!(ring.capacity(), 2);
    assert_eq!(ring.iter(), vec![3, 4]);
    ring.push(5);
    assert_eq!(ring.iter(), vec![4, 5]);
}

#[test]
fn resize_grow_keeps_everything() {
    let mut ring: RingBuf<u32> = RingBuf::new(2);
    ring.push(1);
    ring.push(2);
    ring.push(3);
    ring.resize(4);
    assert_eq!(ring.iter(), vec![2, 3]);
    ring.push(4);
    ring.push(5);
    assert_eq!(ring.iter(), vec![2, 3, 4, 5]);
    assert_eq!(ring.len(), 4);
}

#[test]
fn resize_to_zero_empties() {
    let mut ring: RingBuf<u32> = RingBuf::new(3);
    ring.push(9);
    ring.resize(0);
    assert!(ring.is_empty());
    assert_eq!(ring.capacity(), 0);
}
