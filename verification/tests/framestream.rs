use sequences::framestream::{DecodeError, DecoderReader, Frame};

fn be(v: u32) -> [u8; 4] {
    v.to_be_bytes()
}

/// A start frame announcing `content_type`.
fn start_frame(content_type: &str) -> Vec<u8> {
    let mut out = Vec::new();
    out.extend_from_slice(&be(0));
    out.extend_from_slice(&be(4 + 8 + content_type.len() as u32));
    out.extend_from_slice(&be(2));
    out.extend_from_slice(&be(1));
    out.extend_from_slice(&be(content_type.len() as u32));
    out.extend_from_slice(content_type.as_bytes());
    out
}

fn content_frame(payload: &[u8]) -> Vec<u8> {
    let mut out = Vec::new();
    out.extend_from_slice(&be(payload.len() as u32));
    out.extend_from_slice(payload);
    out
}

fn stop_frame() -> Vec<u8> {
    let mut out = Vec::new();
    out.extend_from_slice(&be(0));
    out.extend_from_slice(&be(4));
    out.extend_from_slice(&be(3));
    out
}

/// A stream as written by the Frame Streams capture tool: ten greetings.
fn test_stream() -> Vec<u8> {
    let mut data = start_frame("protobuf:dnstap.Dnstap");
    for i in 0..10 {
        data.extend(content_frame(format!("Hello, world #{}\n", i).as_bytes()));
    }
    data.extend(stop_frame());
    data
}

/// All contents of the stream, as the decoder iterates them.
fn contents(rdr: &mut DecoderReader) -> Vec<Result<Vec<u8>, DecodeError>> {
    let mut out = Vec::new();
    while let Some(item) = rdr.next() {
        let stop = item.is_err();
        out.push(item);
        if stop {
            break;
        }
    }
    out
}

#[test]
fn test_fstrm() {
    let data = test_stream();
    let mut rdr = DecoderReader::new(data);

    let expected = vec![
        b"Hello, world #0\n",
        b"Hello, world #1\n",
        b"Hello, world #2\n",
        b"Hello, world #3\n",
        b"Hello, world #4\n",
        b"Hello, world #5\n",
        b"Hello, world #6\n",
        b"Hello, world #7\n",
        b"Hello, world #8\n",
        b"Hello, world #9\n",
    ];

    let read = contents(&mut rdr);
    assert_eq!(expected.len(), read.len());
    for (expected, read) in expected.into_iter().zip(read) {
        assert_eq!(&*expected, &*read.unwrap());
    }
}

#[test]
fn matching_content_type_is_accepted() {
    let mut rdr = DecoderReader::with_content_type(test_stream(), "protobuf:dnstap.Dnstap".to_string());
    assert_eq!(10, contents(&mut rdr).iter().filter(|c| c.is_ok()).count());
}

#[test]
fn other_content_type_is_refused() {
    let mut rdr = DecoderReader::with_content_type(test_stream(), "text".to_string());
    match rdr.next() {
        Some(Err(DecodeError::UnwantedContentType { got, expected })) => {
            assert_eq!("protobuf:dnstap.Dnstap", got);
            assert_eq!("text", expected);
        }
        other => panic!("unexpected {:?}", other),
    }
}

#[test]
fn second_start_frame_is_refused() {
    let mut data = start_frame("a");
    data.extend(start_frame("a"));
    let mut rdr = DecoderReader::new(data);
    assert!(matches!(rdr.next(), Some(Err(DecodeError::DuplicateStartFrame))));
}

#[test]
fn truncated_frame_is_an_io_error() {
    let mut data = start_frame("a");
    data.extend_from_slice(&be(10));
    data.extend_from_slice(b"abc");
    let mut rdr = DecoderReader::new(data);
    assert!(matches!(rdr.next(), Some(Err(DecodeError::Io))));
}

#[test]
fn unknown_control_type_and_lengths() {
    let mut data = Vec::new();
    data.extend_from_slice(&be(0));
    data.extend_from_slice(&be(4));
    data.extend_from_slice(&be(7));
    let mut rdr = DecoderReader::new(data);
    assert!(matches!(rdr.read_frame(), Err(DecodeError::InvalidMagicBytes { magic_bytes: 7 })));

    let mut data = Vec::new();
    data.extend_from_slice(&be(0));
    data.extend_from_slice(&be(3));
    let mut rdr = DecoderReader::new(data);
    assert!(matches!(rdr.read_frame(), Err(DecodeError::InvalidLength)));

    let mut data = Vec::new();
    data.extend_from_slice(&be(0));
    data.extend_from_slice(&be(8));
    data.extend_from_slice(&be(3));
    let mut rdr = DecoderReader::new(data);
    assert!(matches!(rdr.read_frame(), Err(DecodeError::InvalidLength)));
}

#[test]
fn unknown_start_field_is_refused() {
    let mut data = Vec::new();
    data.extend_from_slice(&be(0));
    data.extend_from_slice(&be(12));
    data.extend_from_slice(&be(2));
    data.extend_from_slice(&be(9));
    data.extend_from_slice(&be(0));
    let mut rdr = DecoderReader::new(data);
    assert!(matches!(
        rdr.read_frame(),
        Err(DecodeError::UnknownFieldsInHeader { magic_bytes: 9 })
    ));
}

#[test]
fn frames_are_read_one_by_one() {
    let mut rdr = DecoderReader::new(test_stream());
    assert!(matches!(rdr.read_frame(), Ok(Frame::Start)));
    match rdr.read_frame() {
        Ok(Frame::Content(c)) => assert_eq!(b"Hello, world #0\n".to_vec(), c),
        _ => panic!("expected content"),
    }
}
