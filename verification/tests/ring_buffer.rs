use rust_recipes::data_structures::ring_buffer::RingBuffer;

#[test]
fn test_ring_buffer() {
    let mut buf = RingBuffer::new(3);
    assert_eq!(buf.push(10), Ok(()));
    assert_eq!(buf.push(20), Ok(()));
    assert_eq!(buf.push(30), Ok(()));
    assert_eq!(buf.push(40), Err(40));

    assert_eq!(buf.pop(), Some(10));
    assert_eq!(buf.pop(), Some(20));
    assert_eq!(buf.pop(), Some(30));
    assert_eq!(buf.pop(), None);

    let mut buf2 = RingBuffer::new(2);
    buf2.push_overwrite('a');
    buf2.push_overwrite('b');
    assert_eq!(buf2.push_overwrite('c'), Some('a'));
    assert_eq!(buf2.pop(), Some('b'));
    assert_eq!(buf2.pop(), Some('c'));
}

#[test]
fn ring_buffer_wraps_around() {
    let mut buf = RingBuffer::new(3);
    for i in 0..10 {
        assert_eq!(buf.push(i), Ok(()));
        assert_eq!(buf.pop(), Some(i));
    }
    assert!(buf.is_empty());
    assert_eq!(buf.capacity(), 3);
}

#[test]
fn ring_buffer_peek_and_peek_mut() {
    let mut buf = RingBuffer::new(2);
    assert_eq!(buf.peek(), None);
    buf.push(5).unwrap();
    buf.push(6).unwrap();
    assert!(buf.is_full());
    assert_eq!(buf.peek(), Some(&5));
    if let Some(x) = buf.peek_mut() {
        *x = 50;
    }
    assert_eq!(buf.pop(), Some(50));
    assert_eq!(buf.len(), 1);
}

#[test]
fn ring_buffer_clear_and_drain() {
    let mut buf = RingBuffer::new(4);
    buf.push(1).unwrap();
    buf.push(2).unwrap();
    buf.clear();
    assert!(buf.is_empty());
    assert_eq!(buf.pop(), None);
    buf.push_overwrite(7);
    buf.push_overwrite(8);
    assert_eq!(buf.into_iter(), vec![7, 8]);
}
