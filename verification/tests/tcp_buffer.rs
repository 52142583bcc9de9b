use sequences::tcp_buffer::{TcpBuffer, TcpBufferError};

#[test]
fn test_reassembly() {
    let mut buffer = TcpBuffer::new();
    buffer.add_data(1, &[0, 1, 2]);
    buffer.add_data(4, &[3, 4, 5]);
    buffer.add_data(7, &[6, 7, 8]);
    assert_eq!(&[0, 1, 2, 3, 4, 5, 6, 7, 8], buffer.view_data());
    assert_eq!(false, buffer.is_empty(), "Buffer must contain data");
    assert!(buffer.consume(9).is_ok());
    assert_eq!(true, buffer.is_empty(), "Buffer is not empty");
}

#[test]
fn test_duplicate_packet() {
    let mut buffer = TcpBuffer::new();
    buffer.add_data(1, &[0, 1, 2]);
    buffer.add_data(1, &[0, 1, 2]);
    buffer.add_data(1, &[0, 1, 2]);
    buffer.add_data(4, &[3, 4, 5]);
    buffer.add_data(4, &[3, 4, 5]);
    buffer.add_data(1, &[0, 1, 2]);
    buffer.add_data(1, &[0, 1, 2]);
    buffer.add_data(7, &[6, 7, 8]);
    buffer.add_data(1, &[0, 1, 2]);
    buffer.add_data(1, &[0, 1, 2]);
    buffer.add_data(4, &[3, 4, 5]);
    buffer.add_data(4, &[3, 4, 5]);
    assert_eq!(&[0, 1, 2, 3, 4, 5, 6, 7, 8], buffer.view_data());
    assert_eq!(false, buffer.is_empty(), "Buffer must contain data");
    assert!(buffer.consume(9).is_ok());
    assert_eq!(true, buffer.is_empty(), "Buffer is not empty");
}

#[test]
fn test_out_of_order() {
    let mut buffer = TcpBuffer::new();
    // The first packet must still be in order, such that the correct sequence number gets set
    buffer.add_data(1, &[0, 1, 2]);

    buffer.add_data(10, &[9, 10, 11]);
    buffer.add_data(7, &[6, 7, 8]);
    buffer.add_data(4, &[3, 4, 5]);
    assert_eq!(&[0, 1, 2, 3, 4, 5, 6, 7, 8, 9, 10, 11], buffer.view_data());
    assert_eq!(false, buffer.is_empty(), "Buffer must contain data");
    assert!(buffer.consume(12).is_ok());
    assert_eq!(true, buffer.is_empty(), "Buffer is not empty");
}

#[test]
fn test_reassembly_overflowing_sequence_number() {
    let mut buffer = TcpBuffer::new();
    buffer.add_data(u32::max_value() - 1, &[0]);
    buffer.add_data(u32::max_value(), &[1]);
    buffer.add_data(0, &[2]);
    buffer.add_data(1, &[3]);
    buffer.add_data(2, &[4]);
    assert_eq!(&[0, 1, 2, 3, 4], buffer.view_data());
}

#[test]
fn consuming_more_than_buffered_fails() {
    let mut buffer = TcpBuffer::new();
    buffer.add_data(5, &[1, 2, 3]);
    match buffer.consume(4) {
        Err(TcpBufferError::ConsumeTooMuch { requested, available }) => {
            assert_eq!(4, requested);
            assert_eq!(3, available);
        }
        other => panic!("unexpected {:?}", other),
    }
    assert_eq!(&[1, 2, 3], buffer.view_data());
    assert!(buffer.consume(2).is_ok());
    assert_eq!(&[3], buffer.view_data());
}

#[test]
fn clearing_drops_the_data() {
    let mut buffer = TcpBuffer::new();
    buffer.add_data(100, &[1, 2]);
    buffer.clear_data();
    assert!(buffer.is_empty());
    // The next segment continues where the cleared data ended.
    buffer.add_data(102, &[3]);
    assert_eq!(&[3], buffer.view_data());
}
