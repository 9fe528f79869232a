use complesh::ring_buffer::RingBuffer;

#[test]
fn test_empty_ring_wraps_and_has_no_current() {
    let mut ring: RingBuffer<u32> = RingBuffer::new();
    assert_eq!(ring.len(), 0);
    assert!(ring.current().is_none());
    ring.forward();
    assert!(ring.current().is_none());
    ring.back();
    assert!(ring.current().is_none());
    assert_eq!(ring.len(), 0);
}

#[test]
fn test_singleton_ring_wraps_to_itself() {
    let mut ring = RingBuffer::from_vec(vec![7u32]);
    assert_eq!(ring.current(), Some(&7));
    ring.forward();
    assert_eq!(ring.current(), Some(&7));
    ring.back();
    assert_eq!(ring.current(), Some(&7));
}

#[test]
fn test_longer_ring_wraps_at_both_ends() {
    let mut ring = RingBuffer::from_vec(vec![1u32, 2, 3]);
    assert_eq!(ring.current(), Some(&1));
    ring.forward();
    assert_eq!(ring.current(), Some(&2));
    ring.forward();
    assert_eq!(ring.current(), Some(&3));
    ring.forward();
    assert_eq!(ring.current(), Some(&1));
    ring.back();
    assert_eq!(ring.current(), Some(&3));
    ring.back();
    assert_eq!(ring.current(), Some(&2));
    ring.back();
    assert_eq!(ring.current(), Some(&1));
    ring.back();
    assert_eq!(ring.current(), Some(&3));
}

#[test]
fn test_current_is_none_exactly_when_empty() {
    let empty: RingBuffer<String> = RingBuffer::new();
    assert!(empty.current().is_none());
    let full = RingBuffer::from_vec(vec!["x".to_string()]);
    assert!(full.current().is_some());
}

#[test]
fn test_insert_makes_newest_current() {
    let mut ring: RingBuffer<String> = RingBuffer::new();
    ring.insert("one".to_string());
    assert_eq!(ring.clone_current(), Some("one".to_string()));
    ring.insert("two".to_string());
    assert_eq!(ring.clone_current(), Some("two".to_string()));
    assert_eq!(ring.len(), 2);
    ring.rotate();
    assert_eq!(ring.clone_current(), Some("one".to_string()));
}

#[test]
fn test_iter_visits_every_element_once_from_cursor() {
    let mut ring = RingBuffer::from_vec(vec![10u32, 20, 30]);
    ring.forward();
    let mut it = ring.iter();
    assert_eq!(it.next(), Some(20));
    assert_eq!(it.next(), Some(30));
    assert_eq!(it.next(), Some(10));
    assert_eq!(it.next(), None);
    // a fresh traversal restarts; the ring's own cursor did not move
    let mut again = ring.iter();
    assert_eq!(again.next(), Some(20));
    assert_eq!(ring.clone_current(), Some(20));
}
