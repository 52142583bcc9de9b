use sequences::dns_tcp::{frame_dns_message, DnsBytesStream};

#[test]
fn dns_tcp_frame_has_big_endian_length() {
    assert_eq!(frame_dns_message(&[7, 8, 9]), vec![0, 3, 7, 8, 9]);
    assert_eq!(frame_dns_message(&[]), vec![0, 0]);
    let big = vec![1u8; 300];
    let framed = frame_dns_message(&big);
    assert_eq!(&framed[..2], &[1, 44]);
    assert_eq!(framed.len(), 302);
}

#[test]
fn dns_tcp_round_trip() {
    let mut stream = DnsBytesStream::new();
    let mut bytes = frame_dns_message(b"first");
    bytes.extend(frame_dns_message(b""));
    bytes.extend(frame_dns_message(b"third message"));
    stream.push_bytes(&bytes);
    assert_eq!(stream.next_message(), Some(b"first".to_vec()));
    assert_eq!(stream.next_message(), Some(Vec::new()));
    assert_eq!(stream.next_message(), Some(b"third message".to_vec()));
    assert_eq!(stream.next_message(), None);
    assert!(stream.needs_bytes());
}

#[test]
fn dns_tcp_message_split_across_reads() {
    let mut stream = DnsBytesStream::new();
    let bytes = frame_dns_message(b"abcdef");
    stream.push_bytes(&bytes[..1]);
    assert!(stream.needs_bytes());
    assert_eq!(stream.next_message(), None);
    stream.push_bytes(&bytes[1..4]);
    assert_eq!(stream.next_message(), None);
    assert!(stream.needs_bytes());
    stream.push_bytes(&bytes[4..]);
    assert!(!stream.needs_bytes());
    assert_eq!(stream.next_message(), Some(b"abcdef".to_vec()));
}
