use sequences::pcap::MessageType::{Alert, ApplicationData, ChangeCipherSpec, Handshake};
use sequences::pcap::{
    build_precision_sequence, build_sequence, capture_requirements_hold, extract_and_filter_tls_records,
    filter_tls_records, guess_dns_flow_identifier, FlowIdentifier, MessageType, PcapError, TlsRecord,
    TlsVersion, TwoWayFlowIdentifier,
};
use sequences::load_sequence::{responses_convertible, AbstractQueryResponse, LoadSequenceConfig};
use sequences::tls_extract::{ExtractError, PcapReadError};
use sequences::sequence_element::SequenceElement::{Gap, Size};

const SERVER: u32 = 0x0101_0101;
const CLIENT: u32 = 0x0a00_0001;
const MS: i128 = 1_000_000;

fn rec(id: u32, from_server: bool, typ: MessageType, len: u32, time: i128) -> TlsRecord {
    let (sender, sender_port, receiver, receiver_port) = if from_server {
        (SERVER, 853, CLIENT, 40000)
    } else {
        (CLIENT, 40000, SERVER, 853)
    };
    TlsRecord {
        packet_in_pcap: id,
        sender,
        sender_port,
        receiver,
        receiver_port,
        time,
        message_type: typ,
        message_length: len,
        tls_version: None,
    }
}

/// One measurement: handshake, large marker, start query, two responses, end marker.
fn flow() -> Vec<TlsRecord> {
    let mut hello = rec(1, true, Handshake, 90, 0);
    hello.tls_version = Some(TlsVersion::Tls1_3);
    vec![
        hello,
        rec(2, true, ChangeCipherSpec, 1, 1 * MS),
        rec(3, false, ChangeCipherSpec, 1, 2 * MS),
        rec(4, false, ApplicationData, 400, 3 * MS),
        rec(5, true, ApplicationData, 468, 4 * MS),
        rec(6, false, ApplicationData, 150, 5 * MS),
        rec(7, true, ApplicationData, 150, 6 * MS),
        rec(8, true, ApplicationData, 500, 10 * MS),
        rec(9, true, ApplicationData, 100, 11 * MS),
        rec(10, true, ApplicationData, 200, 30 * MS),
        // the response to `end.example.`
        rec(11, true, ApplicationData, 150, 35 * MS),
        rec(12, false, ApplicationData, 400, 40 * MS),
        rec(13, true, ApplicationData, 468, 41 * MS),
    ]
}

fn ids(records: &[TlsRecord]) -> Vec<u32> {
    records.iter().map(|r| r.packet_in_pcap).collect()
}

#[test]
fn selects_the_responses_of_the_measurement() {
    let selected = filter_tls_records(flow(), SERVER, 853);
    // 7 answers the start query, 9 is smaller than a block under TLS 1.3,
    // 11 is cut off as the answer to the end query.
    assert_eq!(vec![8, 10], ids(&selected));
}

#[test]
fn without_tls13_small_records_stay() {
    let mut records = flow();
    records[0].tls_version = Some(TlsVersion::Tls1_2);
    assert_eq!(vec![8, 9, 10], ids(&filter_tls_records(records, SERVER, 853)));
}

#[test]
fn without_end_marker_the_last_record_stays() {
    let mut records = flow();
    records.truncate(11);
    assert_eq!(vec![8, 10, 11], ids(&filter_tls_records(records, SERVER, 853)));
}

#[test]
fn without_handshake_nothing_is_selected() {
    let records: Vec<_> = flow()
        .into_iter()
        .filter(|r| r.message_type != MessageType::ChangeCipherSpec)
        .collect();
    assert!(filter_tls_records(records, SERVER, 853).is_empty());
}

#[test]
fn guesses_the_dot_server() {
    assert_eq!(Ok((SERVER, 853)), guess_dns_flow_identifier(&[flow()]).map_err(|_| ()));
    let mut other = flow();
    for r in other.iter_mut() {
        if r.sender == SERVER {
            r.sender = SERVER + 1;
        }
    }
    match guess_dns_flow_identifier(&[flow(), other]) {
        Err(PcapError::NoUniqueServer { candidates }) => {
            assert_eq!(vec![(SERVER, 853), (SERVER + 1, 853)], candidates)
        }
        other => panic!("unexpected {:?}", other),
    }
    let mut alt = flow();
    for r in alt.iter_mut() {
        if r.sender == SERVER {
            r.sender_port = 8853;
        }
    }
    assert_eq!(Ok((SERVER, 8853)), guess_dns_flow_identifier(&[alt]).map_err(|_| ()));
    match guess_dns_flow_identifier(&[vec![rec(1, false, MessageType::Alert, 1, 0)]]) {
        Err(PcapError::NoUniqueServer { candidates }) => assert_eq!(vec![(CLIENT, 40000)], candidates),
        other => panic!("unexpected {:?}", other),
    }
}

#[test]
fn flows_in_both_directions_are_one() {
    let f = FlowIdentifier::from_pairs((CLIENT, 40000), (SERVER, 853));
    let back = FlowIdentifier::from_pairs((SERVER, 853), (CLIENT, 40000));
    assert_eq!(TwoWayFlowIdentifier::from_flow(f), TwoWayFlowIdentifier::from_flow(back));
    assert_eq!(SERVER, TwoWayFlowIdentifier::from_flow(f).0.source_ip);
    let r = rec(1, true, MessageType::Alert, 1, 0);
    assert_eq!(back, FlowIdentifier::from_record(&r));
}

#[test]
fn sequence_of_a_capture() {
    let seq = build_sequence(vec![flow()], None, "cap".to_string(), LoadSequenceConfig::default())
        .unwrap();
    // 460 and 160 bytes without the overhead; 20 ms apart is 19 base gaps, log2 is 4.
    assert_eq!(&[Size(1), Gap(4), Size(1)], seq.as_elements());
    let precise = build_precision_sequence(vec![flow()], Some((SERVER, 853)), "cap".to_string()).unwrap();
    assert_eq!(2, precise.as_events().len());
    assert_eq!(460, precise.as_events()[0].size);
    assert!(matches!(
        build_sequence(vec![flow()], Some((CLIENT, 1)), "cap".to_string(), LoadSequenceConfig::default()),
        Err(PcapError::EmptySequence)
    ));
}

#[test]
fn capture_requirements_of_a_measurement() {
    assert!(capture_requirements_hold(&[flow()], None));
    assert!(capture_requirements_hold(&[flow()], Some((SERVER, 853))));
    // a selected record smaller than the encryption overhead
    let mut small = flow();
    small[0].tls_version = Some(TlsVersion::Tls1_2);
    small[7].message_length = 30;
    assert!(!capture_requirements_hold(&[small.clone()], None));
    // responses so far apart that their gap does not fit
    let mut far = flow();
    far[9].time = i128::MAX / 2;
    assert!(!capture_requirements_hold(&[far], None));
    // no server can be chosen: nothing to check
    let mut other = flow();
    for r in other.iter_mut() {
        if r.sender == SERVER {
            r.sender_port = 1000;
        } else {
            r.receiver_port = 1000;
        }
    }
    let mut second = other.clone();
    for r in second.iter_mut() {
        if r.sender == SERVER {
            r.sender = SERVER + 1;
        }
    }
    assert!(capture_requirements_hold(&[other, second], None));
}

#[test]
fn responses_convertible_limits() {
    let r = |time: i128, size: u32| AbstractQueryResponse { time, size };
    assert!(responses_convertible(&[]));
    assert!(responses_convertible(&[r(0, 100), r(5 * MS, 500)]));
    assert!(responses_convertible(&[r(0, 0xffff_ffff / 468 * 468)]));
    assert!(!responses_convertible(&[r(0, 0xffff_ffff / 468 * 468 + 1)]));
    assert!(!responses_convertible(&[r(i128::MIN, 1), r(i128::MAX, 1)]));
    let limit = (0x7fff_ffffi128 + 1) * MS;
    assert!(responses_convertible(&[r(0, 1), r(limit, 1)]));
    assert!(!responses_convertible(&[r(0, 1), r(limit + 1, 1)]));
}

fn pcap_with(frames: &[Vec<u8>]) -> Vec<u8> {
    let mut v = Vec::new();
    for x in [0xa1b2c3d4u32, 0x0004_0002, 0, 0, 65535, 1] {
        v.extend_from_slice(&x.to_le_bytes());
    }
    for (i, f) in frames.iter().enumerate() {
        for x in [7u32, i as u32, f.len() as u32, f.len() as u32] {
            v.extend_from_slice(&x.to_le_bytes());
        }
        v.extend_from_slice(f);
    }
    v
}

fn tcp_frame(src: (u32, u16), dst: (u32, u16), seq: u32, payload: &[u8]) -> Vec<u8> {
    let mut f = vec![2, 0, 0, 0, 0, 2, 2, 0, 0, 0, 0, 1, 8, 0, 0x45, 0];
    f.extend_from_slice(&((40 + payload.len()) as u16).to_be_bytes());
    f.extend_from_slice(&[0, 1, 0x40, 0, 64, 6, 0, 0]);
    f.extend_from_slice(&src.0.to_be_bytes());
    f.extend_from_slice(&dst.0.to_be_bytes());
    f.extend_from_slice(&src.1.to_be_bytes());
    f.extend_from_slice(&dst.1.to_be_bytes());
    f.extend_from_slice(&seq.to_be_bytes());
    f.extend_from_slice(&[0, 0, 0, 0, 0x50, 0x18, 0xff, 0xff, 0, 0, 0, 0]);
    f.extend_from_slice(payload);
    f
}

fn tls_bytes(typ: u8, len: usize) -> Vec<u8> {
    let mut v = vec![typ, 3, 3];
    v.extend_from_slice(&(len as u16).to_be_bytes());
    v.extend(std::iter::repeat(0x55).take(len));
    v
}

#[test]
fn extract_and_filter_a_capture() {
    let server = (SERVER, 853);
    let client = (CLIENT, 40000);
    let mut frames = Vec::new();
    let mut server_seq = 1000u32;
    let mut client_seq = 5000u32;
    for r in flow().iter().skip(1) {
        let bytes = tls_bytes(if r.message_type == ChangeCipherSpec { 0x14 } else { 0x17 }, r.message_length as usize);
        if r.sender == SERVER {
            frames.push(tcp_frame(server, client, server_seq, &bytes));
            server_seq += bytes.len() as u32;
        } else {
            frames.push(tcp_frame(client, server, client_seq, &bytes));
            client_seq += bytes.len() as u32;
        }
    }
    let file = pcap_with(&frames);
    let flows = extract_and_filter_tls_records(&file, None).unwrap();
    assert_eq!(flows.len(), 1);
    // records 2..13 of the measurement are packets 1..12; without a ServerHello the small
    // response 9 stays
    assert_eq!(vec![7, 8, 9], ids(&flows[0].1));
    let filtered = extract_and_filter_tls_records(&file, Some((SERVER + 7, 853))).unwrap();
    assert!(filtered[0].1.is_empty());
    assert!(matches!(
        extract_and_filter_tls_records(&[0u8; 30], None),
        Err(PcapError::Extract(ExtractError::Capture(PcapReadError::HeaderNotRecognized)))
    ));
}
