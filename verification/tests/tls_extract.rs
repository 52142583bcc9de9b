use sequences::pcap::{FlowIdentifier, MessageType, TlsRecord, TlsVersion, TwoWayFlowIdentifier};
use sequences::tcp_buffer::TcpBuffer;
use sequences::tls_extract::{
    drain_records, extract_from_blocks, extract_tls_records, message_type, negotiated_version,
    tls_version, ExtractError, PcapBlock, PcapReadError, TlsExtractor,
};

const CLIENT: [u8; 4] = [10, 0, 0, 1];
const SERVER: [u8; 4] = [1, 1, 1, 1];
const CLIENT_PORT: u16 = 40000;
const SERVER_PORT: u16 = 853;

fn ip(a: [u8; 4]) -> u32 {
    u32::from_be_bytes(a)
}

fn tls(typ: u8, version: u16, payload: &[u8]) -> Vec<u8> {
    let mut v = vec![typ];
    v.extend_from_slice(&version.to_be_bytes());
    v.extend_from_slice(&(payload.len() as u16).to_be_bytes());
    v.extend_from_slice(payload);
    v
}

fn server_hello(supported_version: Option<u16>) -> Vec<u8> {
    let mut body = vec![0x03, 0x03];
    body.extend_from_slice(&[7u8; 32]);
    body.push(0);
    body.extend_from_slice(&[0x13, 0x01]);
    body.push(0);
    if let Some(v) = supported_version {
        body.extend_from_slice(&[0x00, 0x06, 0x00, 0x2b, 0x00, 0x02]);
        body.extend_from_slice(&v.to_be_bytes());
    }
    let mut msg = vec![0x02];
    msg.extend_from_slice(&(body.len() as u32).to_be_bytes()[1..]);
    msg.extend_from_slice(&body);
    msg
}

fn ipv4_packet(src: [u8; 4], dst: [u8; 4], protocol: u8, flags: u8, transport: &[u8]) -> Vec<u8> {
    let total = (20 + transport.len()) as u16;
    let mut v = vec![0x45, 0];
    v.extend_from_slice(&total.to_be_bytes());
    v.extend_from_slice(&[0, 1, flags, 0, 64, protocol, 0, 0]);
    v.extend_from_slice(&src);
    v.extend_from_slice(&dst);
    v.extend_from_slice(transport);
    v
}

fn tcp_segment(sport: u16, dport: u16, seq: u32, payload: &[u8]) -> Vec<u8> {
    let mut v = Vec::new();
    v.extend_from_slice(&sport.to_be_bytes());
    v.extend_from_slice(&dport.to_be_bytes());
    v.extend_from_slice(&seq.to_be_bytes());
    v.extend_from_slice(&[0, 0, 0, 0, 0x50, 0x18, 0xff, 0xff, 0, 0, 0, 0]);
    v.extend_from_slice(payload);
    v
}

fn ethernet(ethertype: u16, payload: &[u8]) -> Vec<u8> {
    let mut v = vec![2, 0, 0, 0, 0, 2, 2, 0, 0, 0, 0, 1];
    v.extend_from_slice(&ethertype.to_be_bytes());
    v.extend_from_slice(payload);
    v
}

fn frame(src: [u8; 4], sport: u16, dst: [u8; 4], dport: u16, seq: u32, payload: &[u8]) -> Vec<u8> {
    ethernet(0x0800, &ipv4_packet(src, dst, 6, 0x40, &tcp_segment(sport, dport, seq, payload)))
}

fn to_server(seq: u32, payload: &[u8]) -> Vec<u8> {
    frame(CLIENT, CLIENT_PORT, SERVER, SERVER_PORT, seq, payload)
}

fn to_client(seq: u32, payload: &[u8]) -> Vec<u8> {
    frame(SERVER, SERVER_PORT, CLIENT, CLIENT_PORT, seq, payload)
}

fn pcap_file(linktype: u32, packets: &[(u32, u32, Vec<u8>)]) -> Vec<u8> {
    let mut v = Vec::new();
    v.extend_from_slice(&0xa1b2c3d4u32.to_le_bytes());
    v.extend_from_slice(&2u16.to_le_bytes());
    v.extend_from_slice(&4u16.to_le_bytes());
    v.extend_from_slice(&0i32.to_le_bytes());
    v.extend_from_slice(&0u32.to_le_bytes());
    v.extend_from_slice(&65535u32.to_le_bytes());
    v.extend_from_slice(&linktype.to_le_bytes());
    for (sec, usec, data) in packets {
        v.extend_from_slice(&sec.to_le_bytes());
        v.extend_from_slice(&usec.to_le_bytes());
        v.extend_from_slice(&(data.len() as u32).to_le_bytes());
        v.extend_from_slice(&(data.len() as u32).to_le_bytes());
        v.extend_from_slice(data);
    }
    v
}

fn time(sec: u32, usec: u32) -> i128 {
    sec as i128 * 1_000_000_000 + usec as i128 * 1000
}

fn client_flow() -> FlowIdentifier {
    FlowIdentifier::from_pairs((ip(CLIENT), CLIENT_PORT), (ip(SERVER), SERVER_PORT))
}

fn server_flow() -> FlowIdentifier {
    FlowIdentifier::from_pairs((ip(SERVER), SERVER_PORT), (ip(CLIENT), CLIENT_PORT))
}

fn record(
    packet: u32,
    flow: FlowIdentifier,
    t: i128,
    message_type: MessageType,
    len: u32,
    tls_version: Option<TlsVersion>,
) -> TlsRecord {
    TlsRecord {
        packet_in_pcap: packet,
        sender: flow.source_ip,
        sender_port: flow.source_port,
        receiver: flow.destination_ip,
        receiver_port: flow.destination_port,
        time: t,
        message_type,
        message_length: len,
        tls_version,
    }
}

#[test]
fn tls_extract_handshake_and_server_hello_version() {
    let client_hello = tls(0x16, 0x0301, &[1u8; 50]);
    let hello = server_hello(Some(0x0304));
    let mut server_data = tls(0x16, 0x0303, &hello);
    server_data.extend_from_slice(&tls(0x14, 0x0303, &[1]));
    let file = pcap_file(
        1,
        &[(100, 5, to_server(1000, &client_hello)), (100, 250, to_client(7000, &server_data))],
    );
    let flows = extract_tls_records(&file).unwrap();
    assert_eq!(flows.len(), 1);
    assert_eq!(flows[0].0, TwoWayFlowIdentifier::from_flow(client_flow()));
    assert_eq!(
        flows[0].1,
        vec![
            record(1, client_flow(), time(100, 5), MessageType::Handshake, 50, None),
            record(2, server_flow(), time(100, 250), MessageType::Handshake, hello.len() as u32, Some(TlsVersion::Tls1_3)),
            record(2, server_flow(), time(100, 250), MessageType::ChangeCipherSpec, 1, None),
        ]
    );
}

#[test]
fn tls_extract_server_hello_without_extension_is_tls12() {
    let hello = server_hello(None);
    let file = pcap_file(1, &[(1, 0, to_client(1, &tls(0x16, 0x0303, &hello)))]);
    let flows = extract_tls_records(&file).unwrap();
    assert_eq!(flows[0].1[0].tls_version, Some(TlsVersion::Tls1_2));
}

#[test]
fn tls_extract_split_record_takes_time_of_completing_packet() {
    let data = tls(0x17, 0x0303, &[9u8; 300]);
    let (a, b) = data.split_at(100);
    let file = pcap_file(1, &[(10, 1, to_client(500, a)), (10, 2, to_client(600, b))]);
    let flows = extract_tls_records(&file).unwrap();
    assert_eq!(
        flows[0].1,
        vec![record(2, server_flow(), time(10, 2), MessageType::ApplicationData, 300, None)]
    );
}

#[test]
fn tls_extract_drops_retransmission_and_reorders() {
    let first = tls(0x17, 0x0303, &[1u8; 20]);
    let second = tls(0x17, 0x0303, &[2u8; 30]);
    let seq2 = 100 + first.len() as u32;
    let file = pcap_file(
        1,
        &[
            (1, 0, to_client(100, &first)),
            (1, 1, to_client(100, &first)),
            (1, 2, to_client(seq2 + 10, &second[10..])),
            (1, 3, to_client(seq2, &second[..10])),
        ],
    );
    let flows = extract_tls_records(&file).unwrap();
    assert_eq!(
        flows[0].1,
        vec![
            record(1, server_flow(), time(1, 0), MessageType::ApplicationData, 20, None),
            record(4, server_flow(), time(1, 3), MessageType::ApplicationData, 30, None),
        ]
    );
}

#[test]
fn tls_extract_skips_udp_and_refuses_tcp_fragments() {
    let udp = ethernet(0x0800, &ipv4_packet(CLIENT, SERVER, 17, 0x40, &[0, 53, 0, 53, 0, 12, 0, 0, 1, 2, 3, 4]));
    let udp_fragment = ethernet(0x0800, &ipv4_packet(CLIENT, SERVER, 17, 0x20, &[0, 53, 0, 53, 0, 12, 0, 0, 1, 2, 3, 4]));
    let fragment = ethernet(
        0x0800,
        &ipv4_packet(CLIENT, SERVER, 6, 0x20, &tcp_segment(CLIENT_PORT, SERVER_PORT, 1, &tls(0x17, 0x0303, &[1; 5]))),
    );
    let empty_ack = to_server(1, &[]);
    let file = pcap_file(1, &[(1, 0, udp.clone()), (1, 0, udp_fragment), (1, 0, empty_ack)]);
    assert_eq!(extract_tls_records(&file).unwrap(), vec![]);
    let file = pcap_file(1, &[(1, 0, udp), (1, 0, fragment)]);
    assert_eq!(extract_tls_records(&file), Err(ExtractError::Fragmented { packet: 2 }));
}

#[test]
fn tls_extract_errors() {
    assert_eq!(
        extract_tls_records(&[1, 2, 3, 4, 5, 6, 7, 8, 9, 10, 11, 12, 13, 14, 15, 16, 17, 18, 19, 20, 21, 22, 23, 24]),
        Err(ExtractError::Capture(PcapReadError::HeaderNotRecognized))
    );
    let mut ipv6_packet = vec![0x60, 0, 0, 0, 0, 20, 6, 64];
    ipv6_packet.extend_from_slice(&[0u8; 32]);
    ipv6_packet.extend_from_slice(&tcp_segment(CLIENT_PORT, SERVER_PORT, 1, &[]));
    let ipv6 = ethernet(0x86dd, &ipv6_packet);
    assert_eq!(
        extract_tls_records(&pcap_file(1, &[(1, 0, ipv6)])),
        Err(ExtractError::NotIpv4 { packet: 1 })
    );
    let good = to_server(1, &tls(0x17, 0x0303, &[1; 5]));
    assert_eq!(
        extract_tls_records(&pcap_file(1, &[(1, 0, good.clone()), (1, 2_000_000, to_server(2000, &[1]))])),
        Err(ExtractError::InvalidTimestamp { packet: 2 })
    );
    assert!(matches!(
        extract_tls_records(&pcap_file(1, &[(1, 0, vec![1, 2, 3])])),
        Err(ExtractError::Slice { packet: 1, .. })
    ));
    assert_eq!(
        extract_tls_records(&pcap_file(105, &[(1, 0, good.clone())])),
        Err(ExtractError::UnsupportedLinktype { linktype: 105 })
    );
    assert_eq!(
        extract_tls_records(&pcap_file(252, &[(1, 0, good.clone())])),
        Err(ExtractError::UnsupportedLinktype { linktype: 252 })
    );
    let truncated = PcapBlock { ts_sec: 1, ts_usec: 0, caplen: good.len() as u32, origlen: 1500, data: good };
    assert_eq!(extract_from_blocks(1, &[truncated]), Err(ExtractError::Truncated { packet: 1 }));
}

#[test]
fn tls_extract_raw_ip_capture() {
    let packet = ipv4_packet(SERVER, CLIENT, 6, 0x40, &tcp_segment(SERVER_PORT, CLIENT_PORT, 1, &tls(0x15, 0x0303, &[2, 40])));
    let flows = extract_tls_records(&pcap_file(101, &[(3, 0, packet)])).unwrap();
    assert_eq!(flows[0].1, vec![record(1, server_flow(), time(3, 0), MessageType::Alert, 2, None)]);
}

#[test]
fn tls_extract_extractor_segments() {
    let mut ex = TlsExtractor::new();
    let data = tls(0x17, 0x0303, &[3u8; 10]);
    ex.add_segment(7, client_flow(), 50, &data, 42);
    ex.add_segment(8, client_flow(), 50, &data, 43);
    let flows = ex.into_records();
    assert_eq!(flows.len(), 1);
    assert_eq!(flows[0].1, vec![record(7, client_flow(), 42, MessageType::ApplicationData, 10, None)]);
}

#[test]
fn tls_extract_drain_keeps_incomplete_record() {
    let mut buffer = TcpBuffer::new();
    let mut data = tls(0x17, 0x0303, &[1u8; 4]);
    data.extend_from_slice(&tls(0x15, 0x0303, &[2, 0]));
    data.extend_from_slice(&tls(0x17, 0x0303, &[5u8; 8])[..6]);
    buffer.add_data(0, &data);
    let records = drain_records(&mut buffer, 3, server_flow(), 9);
    assert_eq!(records.len(), 2);
    assert_eq!(records[0].message_length, 4);
    assert_eq!(records[1].message_type, MessageType::Alert);
    assert_eq!(buffer.view_data().len(), 6);
    // an unknown content type stops reading
    let mut other = TcpBuffer::new();
    other.add_data(0, &tls(0x30, 0x0303, &[1u8; 4]));
    assert!(drain_records(&mut other, 1, server_flow(), 0).is_empty());
    assert_eq!(other.view_data().len(), 9);
    // an empty handshake record is refused, an empty application data record is read
    let mut empty = TcpBuffer::new();
    empty.add_data(0, &tls(0x16, 0x0303, &[]));
    assert!(drain_records(&mut empty, 1, server_flow(), 0).is_empty());
    let mut empty_data = TcpBuffer::new();
    empty_data.add_data(0, &tls(0x17, 0x0303, &[]));
    assert_eq!(drain_records(&mut empty_data, 1, server_flow(), 0).len(), 1);
}

#[test]
fn tls_extract_versions() {
    assert_eq!(tls_version(0x0303), TlsVersion::Tls1_2);
    assert_eq!(tls_version(0x0304), TlsVersion::Tls1_3);
    assert_eq!(tls_version(0x0302), TlsVersion::Unknown);
    assert_eq!(negotiated_version(0x0303, &[None, Some(0x0304)]), TlsVersion::Tls1_3);
    assert_eq!(negotiated_version(0x0303, &[]), TlsVersion::Tls1_2);
    assert_eq!(negotiated_version(0x0304, &[Some(0x0303)]), TlsVersion::Tls1_3);
    assert_eq!(negotiated_version(0x0303, &[Some(0x7f1c), Some(0x0304)]), TlsVersion::Unknown);
    assert_eq!(message_type(0x14), MessageType::ChangeCipherSpec);
    assert_eq!(message_type(0x18), MessageType::Heartbeat);
    assert_eq!(message_type(0x20), MessageType::Unknown(0x20));
}
