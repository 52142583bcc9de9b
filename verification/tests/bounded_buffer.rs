use sequences::bounded_buffer::BoundedBuffer;

#[test]
fn test_add() {
    let mut buffer = BoundedBuffer::new(3);
    assert_eq!(buffer.add(1), true);
    assert_eq!(buffer.add(2), true);

    // Duplicate adds
    assert_eq!(buffer.add(2), false);
    assert_eq!(buffer.add(1), false);

    assert_eq!(buffer.add(3), true);
    // This kicks out element `1`
    assert_eq!(buffer.add(4), true);
    assert_eq!(buffer.add(1), true);
}

#[test]
fn test_add_contains() {
    let mut buffer = BoundedBuffer::new(3);
    assert_eq!(buffer.add(1), true);
    assert_eq!(buffer.add(2), true);
    assert_eq!(buffer.add(3), true);

    assert_eq!(buffer.contains(&1), true);
    assert_eq!(buffer.contains(&2), true);
    assert_eq!(buffer.contains(&3), true);

    assert_eq!(buffer.add(4), true);
    assert_eq!(buffer.contains(&1), false);
}

#[test]
fn buffer_of_one_keeps_the_last() {
    let mut buffer = BoundedBuffer::new(1);
    assert!(buffer.add((7u32, 1u32)));
    assert!(!buffer.add((7, 1)));
    assert!(buffer.add((7, 2)));
    assert!(!buffer.contains(&(7, 1)));
    assert!(buffer.contains(&(7, 2)));
}
