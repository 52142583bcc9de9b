//! Extracting the TLS records of a packet capture: TCP segments are reassembled per direction,
//! and the TLS records in each reassembled stream are read as soon as they are complete.
//!
//! Reading a capture file, slicing packets into their layers and parsing TLS messages is left to
//! `pcap-parser`, `etherparse` and `rustls`.

use crate::bounded_buffer::{spec_add, BoundedBuffer};
use crate::keyed::{key_index, lemma_key_index_absent, lemma_key_index_bounds, lemma_key_index_first};
use crate::pcap::{spec_two_way, FlowIdentifier, MessageType, TlsRecord, TlsVersion, TwoWayFlowIdentifier};
use crate::tcp_buffer::{spec_add_data, TcpBuffer, TcpState};
use rustls::internal::msgs::base::Payload;
use rustls::internal::msgs::codec::Reader;
use rustls::internal::msgs::handshake::{HandshakePayload, ServerExtension};
use rustls::internal::msgs::message::{MessagePayload, OpaqueMessage};
use rustls::{ContentType, ProtocolVersion};
use etherparse::{NetSlice, SlicedPacket, TransportSlice};
use pcap_parser::data::{get_packetdata, PacketData as PcapPacketData};
use pcap_parser::{Linktype, PcapCapture, PcapError};
use vstd::prelude::*;

verus! {

broadcast use vstd::laws_eq::group_laws_eq;

// ---------------------------------------------------------------------------------------------
// TLS records

/// Whether `b` is the number of a content type that rustls knows.
pub open spec fn known_content_type(b: u8) -> bool {
    0x14 <= b <= 0x18
}

/// Whether `v` is the number of a protocol version that rustls knows.
pub open spec fn known_protocol_version(v: u16) -> bool {
    v == 0x0200 || v == 0x0300 || v == 0x0301 || v == 0x0302 || v == 0x0303 || v == 0x0304
        || v == 0xfeff || v == 0xfefd || v == 0xfefc
}

/// The big-endian number of the bytes `hi` and `lo`.
pub open spec fn be_u16(hi: u8, lo: u8) -> u16 {
    (hi as int * 256 + lo as int) as u16
}

/// The largest payload a TLS record may have, plus one.
pub const MAX_RECORD_PAYLOAD: usize = 18432;

/// The size of the header of a TLS record: content type, version and payload length.
pub const RECORD_HEADER: usize = 5;

/// The TLS record at the start of `b`, as rustls reads it: its content type, protocol version
/// and payload length. There is none where the bytes are too few, the content type is unknown,
/// the version is unknown and not of the form 0x03XX, a payload other than application data is
/// empty, or the payload is too large.
pub open spec fn spec_read_record(b: Seq<u8>) -> Option<(u8, u16, usize)> {
    if b.len() < 3 || !known_content_type(b[0]) {
        None
    } else {
        let v = be_u16(b[1], b[2]);
        if !known_protocol_version(v) && v / 256 != 3 {
            None
        } else if b.len() < 5 {
            None
        } else {
            let len = be_u16(b[3], b[4]);
            if b[0] != 0x17 && len == 0 {
                None
            } else if len >= MAX_RECORD_PAYLOAD {
                None
            } else if b.len() < 5 + len {
                None
            } else {
                Some((b[0], v, len as usize))
            }
        }
    }
}

/// Reads the header of the TLS record at the start of `data` with rustls'
/// `OpaqueMessage::read`: content type, version and payload length, or `None` where rustls
/// reports an error. The contract states rustls' checks in the order its source makes them.
#[verifier::external_body]
fn read_record(data: &[u8]) -> (r: Option<(u8, u16, usize)>)
    ensures
        r == spec_read_record(data@),
{
    match OpaqueMessage::read(&mut Reader::init(data)) {
        Ok(message) => Some((message.typ.get_u8(), message.version.get_u16(), message.payload.0.len())),
        Err(_) => None,
    }
}

/// What rustls reads from a handshake record of content type `content_type`, version `version`
/// and payload `payload` if it is a ServerHello: the legacy version and, per extension, the
/// version it selects if it is a supported-versions extension.
pub uninterp spec fn server_hello_of(content_type: u8, version: u16, payload: Seq<u8>) -> Option<(u16, Seq<Option<u16>>)>;

/// Parses a record with rustls' `MessagePayload::new` and, if it is a ServerHello handshake
/// message, returns its legacy version and, per extension, the version a supported-versions
/// extension selects. The result is named, not stated: it is rustls' handshake parser.
#[verifier::external_body]
fn read_server_hello(content_type: u8, version: u16, payload: &[u8]) -> (r: Option<(u16, Vec<Option<u16>>)>)
    ensures
        match r {
            Some(h) => server_hello_of(content_type, version, payload@) == Some((h.0, h.1@)),
            None => server_hello_of(content_type, version, payload@) is None,
        },
{
    let typ = ContentType::from(content_type);
    match MessagePayload::new(typ, ProtocolVersion::from(version), Payload::new(payload.to_vec())) {
        Ok(MessagePayload::Handshake { parsed, .. }) => match parsed.payload {
            HandshakePayload::ServerHello(hello) => Some((
                hello.legacy_version.get_u16(),
                hello.extensions.iter().map(|e| match e {
                    ServerExtension::SupportedVersions(v) => Some(v.get_u16()),
                    _ => None,
                }).collect(),
            )),
            _ => None,
        },
        _ => None,
    }
}

/// The record type of the content type numbered `b`.
pub open spec fn spec_message_type(b: u8) -> MessageType {
    if b == 0x14 {
        MessageType::ChangeCipherSpec
    } else if b == 0x15 {
        MessageType::Alert
    } else if b == 0x16 {
        MessageType::Handshake
    } else if b == 0x17 {
        MessageType::ApplicationData
    } else if b == 0x18 {
        MessageType::Heartbeat
    } else {
        MessageType::Unknown(b)
    }
}

/// The record type of the content type numbered `b`.
pub fn message_type(b: u8) -> (r: MessageType)
    ensures
        r == spec_message_type(b),
{
    if b == 0x14 {
        MessageType::ChangeCipherSpec
    } else if b == 0x15 {
        MessageType::Alert
    } else if b == 0x16 {
        MessageType::Handshake
    } else if b == 0x17 {
        MessageType::ApplicationData
    } else if b == 0x18 {
        MessageType::Heartbeat
    } else {
        MessageType::Unknown(b)
    }
}

/// The TLS version numbered `v`, as far as they are told apart.
pub open spec fn spec_tls_version(v: u16) -> TlsVersion {
    if v == 0x0303 {
        TlsVersion::Tls1_2
    } else if v == 0x0304 {
        TlsVersion::Tls1_3
    } else {
        TlsVersion::Unknown
    }
}

/// The TLS version numbered `v`, as far as they are told apart.
pub fn tls_version(v: u16) -> (r: TlsVersion)
    ensures
        r == spec_tls_version(v),
{
    if v == 0x0303 {
        TlsVersion::Tls1_2
    } else if v == 0x0304 {
        TlsVersion::Tls1_3
    } else {
        TlsVersion::Unknown
    }
}

/// The order of the versions: 1.2, then 1.3, then any other.
pub open spec fn version_rank(v: TlsVersion) -> int {
    match v {
        TlsVersion::Tls1_2 => 0,
        TlsVersion::Tls1_3 => 1,
        TlsVersion::Unknown => 2,
    }
}

/// The version a ServerHello selects: the highest of its legacy version and the versions of its
/// supported-versions extensions; of equal ones, the first.
pub open spec fn spec_negotiated_version(legacy: u16, extensions: Seq<Option<u16>>) -> TlsVersion
    decreases extensions.len(),
{
    if extensions.len() == 0 {
        spec_tls_version(legacy)
    } else {
        let v = spec_negotiated_version(legacy, extensions.drop_last());
        match extensions.last() {
            Some(e) => if version_rank(spec_tls_version(e)) > version_rank(v) {
                spec_tls_version(e)
            } else {
                v
            },
            None => v,
        }
    }
}

proof fn lemma_negotiated_is_highest(legacy: u16, extensions: Seq<Option<u16>>)
    ensures
        version_rank(spec_negotiated_version(legacy, extensions)) >= version_rank(spec_tls_version(legacy)),
        forall|i: int|
            0 <= i < extensions.len() && (#[trigger] extensions[i]) is Some ==> version_rank(
                spec_negotiated_version(legacy, extensions),
            ) >= version_rank(spec_tls_version(extensions[i].unwrap())),
    decreases extensions.len(),
{
    if extensions.len() > 0 {
        let rest = extensions.drop_last();
        lemma_negotiated_is_highest(legacy, rest);
        assert forall|i: int| 0 <= i < rest.len() implies rest[i] == #[trigger] extensions[i] by {}
    }
}

/// The version a ServerHello selects, given its legacy version and, per extension, the version
/// a supported-versions extension names. It is the highest of them.
pub fn negotiated_version(legacy: u16, extensions: &[Option<u16>]) -> (r: TlsVersion)
    ensures
        r == spec_negotiated_version(legacy, extensions@),
        version_rank(r) >= version_rank(spec_tls_version(legacy)),
        forall|i: int|
            0 <= i < extensions@.len() && (#[trigger] extensions@[i]) is Some ==> version_rank(r)
                >= version_rank(spec_tls_version(extensions@[i].unwrap())),
{
    proof {
        lemma_negotiated_is_highest(legacy, extensions@);
    }
    let mut best = tls_version(legacy);
    let mut i: usize = 0;
    while i < extensions.len()
        invariant
            i <= extensions@.len(),
            best == spec_negotiated_version(legacy, extensions@.take(i as int)),
        decreases extensions@.len() - i,
    {
        assert(extensions@.take(i + 1).drop_last() =~= extensions@.take(i as int));
        if let Some(e) = extensions[i] {
            let v = tls_version(e);
            if rank(v) > rank(best) {
                best = v;
            }
        }
        i = i + 1;
    }
    assert(extensions@.take(extensions@.len() as int) =~= extensions@);
    best
}

fn rank(v: TlsVersion) -> (r: u8)
    ensures
        r == version_rank(v),
{
    match v {
        TlsVersion::Tls1_2 => 0,
        TlsVersion::Tls1_3 => 1,
        TlsVersion::Unknown => 2,
    }
}

/// The version a record gives, if it is a ServerHello.
pub open spec fn spec_record_version(content_type: u8, version: u16, payload: Seq<u8>) -> Option<TlsVersion> {
    match server_hello_of(content_type, version, payload) {
        Some(h) => Some(spec_negotiated_version(h.0, h.1)),
        None => None,
    }
}

/// The record read from the bytes `b` which start with a record of header `h`, sent on `flow`
/// and completed by packet `packet_id` at `time`.
pub open spec fn spec_record(
    b: Seq<u8>,
    h: (u8, u16, usize),
    packet_id: u32,
    flow: FlowIdentifier,
    time: i128,
) -> TlsRecord {
    TlsRecord {
        packet_in_pcap: packet_id,
        sender: flow.source_ip,
        sender_port: flow.source_port,
        receiver: flow.destination_ip,
        receiver_port: flow.destination_port,
        time,
        message_type: spec_message_type(h.0),
        message_length: h.2 as u32,
        tls_version: spec_record_version(h.0, h.1, b.subrange(5, 5 + h.2)),
    }
}

/// The complete records at the start of the stream `b`, one after the other, and how many
/// bytes they take.
pub open spec fn spec_drain(b: Seq<u8>, packet_id: u32, flow: FlowIdentifier, time: i128) -> (Seq<TlsRecord>, nat)
    decreases b.len(),
{
    match spec_read_record(b) {
        Some(h) => if 5 + h.2 <= b.len() {
            let rest = spec_drain(b.skip(5 + h.2), packet_id, flow, time);
            (seq![spec_record(b, h, packet_id, flow, time)] + rest.0, (5 + h.2 + rest.1) as nat)
        } else {
            (Seq::empty(), 0)
        },
        None => (Seq::empty(), 0),
    }
}

proof fn lemma_drain_bounds(b: Seq<u8>, packet_id: u32, flow: FlowIdentifier, time: i128)
    ensures
        spec_drain(b, packet_id, flow, time).1 <= b.len(),
    decreases b.len(),
{
    if let Some(h) = spec_read_record(b) {
        if 5 + h.2 <= b.len() {
            lemma_drain_bounds(b.skip(5 + h.2), packet_id, flow, time);
        }
    }
}

/// The record read from the start of the reassembled data of `buffer`, which holds a complete
/// record with header `h`.
fn record_at_start(
    buffer: &TcpBuffer,
    h: (u8, u16, usize),
    packet_id: u32,
    flow: FlowIdentifier,
    time: i128,
) -> (r: TlsRecord)
    requires
        spec_read_record(buffer.state().data) == Some(h),
    ensures
        r == spec_record(buffer.state().data, h, packet_id, flow, time),
{
    let data = buffer.view_data();
    let payload = vstd::slice::slice_subrange(data, RECORD_HEADER, RECORD_HEADER + h.2);
    let version = match read_server_hello(h.0, h.1, payload) {
        Some((legacy, extensions)) => Some(negotiated_version(legacy, extensions.as_slice())),
        None => None,
    };
    TlsRecord {
        packet_in_pcap: packet_id,
        sender: flow.source_ip,
        sender_port: flow.source_port,
        receiver: flow.destination_ip,
        receiver_port: flow.destination_port,
        time,
        message_type: message_type(h.0),
        message_length: h.2 as u32,
        tls_version: version,
    }
}

/// Reads the complete records at the start of the reassembled data of `buffer` and consumes
/// their bytes; they were completed by packet `packet_id` of `flow` at `time`.
pub fn drain_records(buffer: &mut TcpBuffer, packet_id: u32, flow: FlowIdentifier, time: i128) -> (r: Vec<TlsRecord>)
    requires
        old(buffer).wf(),
    ensures
        final(buffer).wf(),
        r@ == spec_drain(old(buffer).state().data, packet_id, flow, time).0,
        final(buffer).state() == (TcpState {
            data: old(buffer).state().data.skip(spec_drain(old(buffer).state().data, packet_id, flow, time).1 as int),
            ..old(buffer).state()
        }),
{
    let ghost start = buffer.state();
    let mut out: Vec<TlsRecord> = Vec::new();
    let ghost mut used: nat = 0;
    proof {
        lemma_drain_bounds(start.data, packet_id, flow, time);
        assert(start.data.skip(0) =~= start.data);
        let all = spec_drain(start.data, packet_id, flow, time);
        assert(out@ + all.0 =~= all.0);
    }
    while !buffer.is_empty()
        invariant_except_break
            buffer.wf(),
            used <= start.data.len(),
            buffer.state() == (TcpState { data: start.data.skip(used as int), ..start }),
            spec_drain(start.data, packet_id, flow, time) == ({
                let rest = spec_drain(start.data.skip(used as int), packet_id, flow, time);
                (out@ + rest.0, used + rest.1)
            }),
        ensures
            buffer.wf(),
            buffer.state() == (TcpState {
                data: start.data.skip(spec_drain(start.data, packet_id, flow, time).1 as int),
                ..start
            }),
            out@ == spec_drain(start.data, packet_id, flow, time).0,
        decreases buffer.state().data.len(),
    {
        let h = match read_record(buffer.view_data()) {
            Some(h) => h,
            None => {
                assert(spec_drain(buffer.state().data, packet_id, flow, time) == (Seq::<TlsRecord>::empty(), 0nat));
                assert(out@ + Seq::<TlsRecord>::empty() =~= out@);
                break;
            },
        };
        let ghost data = buffer.state().data;
        let record = record_at_start(buffer, h, packet_id, flow, time);
        let consumed = buffer.consume(RECORD_HEADER + h.2);
        proof {
            assert(consumed is Ok);
            assert(data.skip(5 + h.2) =~= start.data.skip(used + 5 + h.2));
            let rest = spec_drain(data.skip(5 + h.2), packet_id, flow, time);
            assert(seq![record] + rest.0 == seq![spec_record(data, h, packet_id, flow, time)] + rest.0);
            assert(out@.push(record) + rest.0 =~= out@ + (seq![record] + rest.0));
            used = (used + 5 + h.2) as nat;
        }
        out.push(record);
    }
    out
}


// ---------------------------------------------------------------------------------------------
// Segments

/// How many recent segments (flow and sequence number) are remembered to drop retransmissions.
pub const SEEN_SEGMENTS: usize = 30;

/// A segment by its flow and sequence number: source address and port, destination address and
/// port, sequence number.
pub type SegmentKey = (u32, u16, u32, u16, u32);

/// The key of the segment with sequence number `seq` on `flow`.
pub open spec fn segment_key(flow: FlowIdentifier, seq: u32) -> SegmentKey {
    (flow.source_ip, flow.source_port, flow.destination_ip, flow.destination_port, seq)
}

/// Abstract state of a [`TlsExtractor`].
#[verifier::ext_equal]
pub struct ExtractorState {
    /// Recently processed segments, oldest first, by [`segment_key`].
    pub seen: Seq<SegmentKey>,
    /// The reassembly state of each direction, in the order the directions first sent data.
    pub buffers: Seq<(FlowIdentifier, TcpState)>,
    /// The records of each connection, in the order the connections first completed a record.
    pub records: Seq<(TwoWayFlowIdentifier, Seq<TlsRecord>)>,
}

/// The state of a direction that has not sent data yet.
pub open spec fn empty_tcp_state() -> TcpState {
    TcpState {
        seen: Seq::empty(),
        next: None,
        data: Seq::empty(),
        pending: Map::empty(),
    }
}

/// `records` with `new` appended to the records of `key`; a connection gets an entry with its
/// first record.
pub open spec fn append_records(
    records: Seq<(TwoWayFlowIdentifier, Seq<TlsRecord>)>,
    key: TwoWayFlowIdentifier,
    new: Seq<TlsRecord>,
) -> Seq<(TwoWayFlowIdentifier, Seq<TlsRecord>)> {
    if new.len() == 0 {
        records
    } else {
        match key_index(records, key) {
            Some(i) => records.update(i, (key, records[i].1 + new)),
            None => records.push((key, new)),
        }
    }
}

/// The state after packet `packet_id`, captured at `time`, brought the segment `payload` with
/// sequence number `seq` on `flow`.
///
/// A segment seen recently is a retransmission and dropped. Otherwise the payload is added to
/// the reassembly of its direction, and the records it completes are read, each with the packet
/// and the time of this segment.
pub open spec fn spec_add_segment(
    st: ExtractorState,
    packet_id: u32,
    flow: FlowIdentifier,
    seq: u32,
    payload: Seq<u8>,
    time: i128,
) -> ExtractorState {
    if st.seen.contains(segment_key(flow, seq)) {
        st
    } else {
        let found = key_index(st.buffers, flow);
        let tcp0 = match found {
            Some(i) => st.buffers[i].1,
            None => empty_tcp_state(),
        };
        let tcp1 = spec_add_data(tcp0, seq, payload);
        let drained = spec_drain(tcp1.data, packet_id, flow, time);
        let tcp2 = TcpState { data: tcp1.data.skip(drained.1 as int), ..tcp1 };
        ExtractorState {
            seen: spec_add(st.seen, SEEN_SEGMENTS as nat, segment_key(flow, seq)),
            buffers: match found {
                Some(i) => st.buffers.update(i, (flow, tcp2)),
                None => st.buffers.push((flow, tcp2)),
            },
            records: append_records(st.records, spec_two_way(flow), drained.0),
        }
    }
}

/// The TLS records of a capture, read segment by segment.
pub struct TlsExtractor {
    seen: BoundedBuffer<SegmentKey>,
    buffers: Vec<(FlowIdentifier, TcpBuffer)>,
    records: Vec<(TwoWayFlowIdentifier, Vec<TlsRecord>)>,
}

/// The reassembly states as values.
pub open spec fn buffers_view(b: Seq<(FlowIdentifier, TcpBuffer)>) -> Seq<(FlowIdentifier, TcpState)> {
    b.map_values(|e: (FlowIdentifier, TcpBuffer)| (e.0, e.1.state()))
}

/// The records per connection as values.
pub open spec fn records_view(r: Seq<(TwoWayFlowIdentifier, Vec<TlsRecord>)>) -> Seq<(TwoWayFlowIdentifier, Seq<TlsRecord>)> {
    r.map_values(|e: (TwoWayFlowIdentifier, Vec<TlsRecord>)| (e.0, e.1@))
}

impl TlsExtractor {
    pub closed spec fn state(&self) -> ExtractorState {
        ExtractorState {
            seen: self.seen.view(),
            buffers: buffers_view(self.buffers@),
            records: records_view(self.records@),
        }
    }

    pub closed spec fn wf(&self) -> bool {
        &&& self.seen.wf()
        &&& self.seen.capacity() == SEEN_SEGMENTS
        &&& forall|i: int| 0 <= i < self.buffers@.len() ==> (#[trigger] self.buffers@[i]).1.wf()
    }

    /// An extractor that has seen no segment.
    pub fn new() -> (r: Self)
        ensures
            r.wf(),
            r.state() == (ExtractorState { seen: Seq::empty(), buffers: Seq::empty(), records: Seq::empty() }),
    {
        let r = TlsExtractor { seen: BoundedBuffer::new(SEEN_SEGMENTS), buffers: Vec::new(), records: Vec::new() };
        assert(r.state() =~= ExtractorState { seen: Seq::empty(), buffers: Seq::empty(), records: Seq::empty() });
        r
    }

    /// Processes the segment `payload` with sequence number `sequence_number` that packet
    /// `packet_id`, captured at `time`, brought on `flow` (see [`spec_add_segment`]).
    pub fn add_segment(
        &mut self,
        packet_id: u32,
        flow: FlowIdentifier,
        sequence_number: u32,
        payload: &[u8],
        time: i128,
    )
        requires
            old(self).wf(),
        ensures
            final(self).wf(),
            final(self).state() == spec_add_segment(old(self).state(), packet_id, flow, sequence_number, payload@, time),
    {
        let ghost st = self.state();
        let key = (flow.source_ip, flow.source_port, flow.destination_ip, flow.destination_port, sequence_number);
        if !self.seen.add(key) {
            return;
        }
        let ghost bv = self.buffers@;
        let mut j: usize = 0;
        while j < self.buffers.len() && self.buffers[j].0 != flow
            invariant
                j <= self.buffers@.len(),
                bv == self.buffers@,
                forall|x: int| 0 <= x < j ==> bv[x].0 != flow,
            decreases self.buffers@.len() - j,
        {
            j = j + 1;
        }
        let found = j < self.buffers.len();
        let mut buffer = if found {
            proof {
                lemma_key_index_first(buffers_view(bv), flow, j as int);
            }
            let entry = self.buffers.remove(j);
            entry.1
        } else {
            proof {
                lemma_key_index_absent(buffers_view(bv), flow);
            }
            TcpBuffer::new()
        };
        assert(buffer.state() == match key_index(st.buffers, flow) {
            Some(i) => st.buffers[i].1,
            None => empty_tcp_state(),
        });
        buffer.add_data(sequence_number, payload);
        let new_records = drain_records(&mut buffer, packet_id, flow, time);
        let ghost tcp2 = buffer.state();
        if found {
            self.buffers.insert(j, (flow, buffer));
            assert(self.buffers@ =~= bv.update(j as int, (flow, buffer)));
            assert(buffers_view(self.buffers@) =~= st.buffers.update(j as int, (flow, tcp2)));
        } else {
            self.buffers.push((flow, buffer));
            assert(buffers_view(self.buffers@) =~= st.buffers.push((flow, tcp2)));
        }
        assert forall|i: int| 0 <= i < self.buffers@.len() implies (#[trigger] self.buffers@[i]).1.wf() by {
            if i != j {
                assert(self.buffers@[i] == bv[i]);
            }
        }
        self.append(TwoWayFlowIdentifier::from_flow(flow), new_records);
    }

    /// Appends `new` to the records of `key`.
    fn append(&mut self, key: TwoWayFlowIdentifier, new: Vec<TlsRecord>)
        requires
            old(self).wf(),
        ensures
            final(self).wf(),
            final(self).state() == (ExtractorState {
                records: append_records(old(self).state().records, key, new@),
                ..old(self).state()
            }),
    {
        let ghost st = self.state();
        let ghost added = new@;
        if new.len() == 0 {
            assert(self.state() =~= ExtractorState { records: append_records(st.records, key, new@), ..st });
            return;
        }
        let ghost rv = self.records@;
        let mut k: usize = 0;
        while k < self.records.len() && self.records[k].0 != key
            invariant
                k <= self.records@.len(),
                rv == self.records@,
                forall|x: int| 0 <= x < k ==> rv[x].0 != key,
            decreases self.records@.len() - k,
        {
            k = k + 1;
        }
        let mut new = new;
        if k < self.records.len() {
            proof {
                lemma_key_index_first(records_view(rv), key, k as int);
            }
            let (_, mut entries) = self.records.remove(k);
            assert(entries@ == st.records[k as int].1);
            entries.append(&mut new);
            self.records.insert(k, (key, entries));
            assert(records_view(self.records@) =~= st.records.update(
                k as int,
                (key, st.records[k as int].1 + added),
            ));
        } else {
            proof {
                lemma_key_index_absent(records_view(rv), key);
            }
            self.records.push((key, new));
            assert(records_view(self.records@) =~= st.records.push((key, added)));
        }
        assert(self.state() =~= ExtractorState { records: append_records(st.records, key, added), ..st });
    }

    /// The records read so far, per connection in the order the connections first completed a
    /// record.
    pub fn into_records(self) -> (r: Vec<(TwoWayFlowIdentifier, Vec<TlsRecord>)>)
        ensures
            records_view(r@) == self.state().records,
    {
        self.records
    }
}


// ---------------------------------------------------------------------------------------------
// Packets

/// A packet of a capture file: capture time, captured and original length, and the bytes.
pub struct PcapBlock {
    pub ts_sec: u32,
    pub ts_usec: u32,
    pub caplen: u32,
    pub origlen: u32,
    pub data: Vec<u8>,
}

/// A packet as values.
pub type PcapBlockView = (u32, u32, u32, u32, Seq<u8>);

pub open spec fn block_view(b: PcapBlock) -> PcapBlockView {
    (b.ts_sec, b.ts_usec, b.caplen, b.origlen, b.data@)
}

pub open spec fn blocks_view(bs: Seq<PcapBlock>) -> Seq<PcapBlockView> {
    bs.map_values(|b: PcapBlock| block_view(b))
}

/// Why pcap-parser could not read a capture file.
#[derive(Clone, Debug, PartialEq, Eq)]
pub enum PcapReadError {
    /// The file ends before the header.
    Eof,
    /// The last packet is incomplete; how many more bytes it needs.
    Incomplete(usize),
    /// The file is not a capture file.
    HeaderNotRecognized,
    /// The parser failed; the kind of failure.
    Nom(String),
    /// Another error, as pcap-parser describes it.
    Other(String),
}

/// A [`PcapReadError`] as a value.
pub enum PcapReadErrorView {
    Eof,
    Incomplete(usize),
    HeaderNotRecognized,
    Nom(Seq<char>),
    Other(Seq<char>),
}

pub open spec fn read_error_view(e: PcapReadError) -> PcapReadErrorView {
    match e {
        PcapReadError::Eof => PcapReadErrorView::Eof,
        PcapReadError::Incomplete(n) => PcapReadErrorView::Incomplete(n),
        PcapReadError::HeaderNotRecognized => PcapReadErrorView::HeaderNotRecognized,
        PcapReadError::Nom(k) => PcapReadErrorView::Nom(k@),
        PcapReadError::Other(m) => PcapReadErrorView::Other(m@),
    }
}

/// What pcap-parser reads from a capture file: the link type and the packets.
pub uninterp spec fn pcap_capture_of(file: Seq<u8>) -> Result<(i32, Seq<PcapBlockView>), PcapReadErrorView>;

/// Reads a capture file with pcap-parser's `PcapCapture::from_file`: its link type and its
/// packets, or its error.
#[verifier::external_body]
fn read_capture(file: &[u8]) -> (r: Result<(i32, Vec<PcapBlock>), PcapReadError>)
    ensures
        match r {
            Ok(c) => pcap_capture_of(file@) == Ok::<_, PcapReadErrorView>((c.0, blocks_view(c.1@))),
            Err(e) => pcap_capture_of(file@) == Err::<(i32, Seq<PcapBlockView>), _>(read_error_view(e)),
        },
{
    match PcapCapture::from_file(file) {
        Ok(c) => Ok((c.header.network.0, c.blocks.iter().map(|b| PcapBlock {
            ts_sec: b.ts_sec, ts_usec: b.ts_usec, caplen: b.caplen, origlen: b.origlen, data: b.data.to_vec(),
        }).collect())),
        Err(PcapError::Eof) => Err(PcapReadError::Eof),
        Err(PcapError::Incomplete(n)) => Err(PcapReadError::Incomplete(n)),
        Err(PcapError::HeaderNotRecognized) => Err(PcapReadError::HeaderNotRecognized),
        Err(PcapError::NomError(_, k)) | Err(PcapError::OwnedNomError(_, k)) => Err(PcapReadError::Nom(format!("{:?}", k))),
        Err(e) => Err(PcapReadError::Other(format!("{:?}", e))),
    }
}

/// The layer a packet's data starts with, by the link type of the capture.
pub enum PacketData {
    /// Link layer (Ethernet).
    L2(Vec<u8>),
    /// Network layer, with the ether type.
    L3(u16, Vec<u8>),
    /// Transport layer, with the IP protocol.
    L4(u8, Vec<u8>),
    Unsupported,
}

/// A [`PacketData`] as a value.
pub enum PacketDataView {
    L2(Seq<u8>),
    L3(u16, Seq<u8>),
    L4(u8, Seq<u8>),
    Unsupported,
}

pub open spec fn packet_data_view(d: PacketData) -> PacketDataView {
    match d {
        PacketData::L2(v) => PacketDataView::L2(v@),
        PacketData::L3(t, v) => PacketDataView::L3(t, v@),
        PacketData::L4(t, v) => PacketDataView::L4(t, v@),
        PacketData::Unsupported => PacketDataView::Unsupported,
    }
}

/// What pcap-parser finds in the data of a packet of `caplen` bytes, captured with `linktype`.
pub uninterp spec fn packet_data_of(data: Seq<u8>, linktype: i32, caplen: usize) -> Option<PacketDataView>;

/// Link type 252 (Wireshark upper PDU), whose decoding in pcap-parser panics on malformed
/// data.
pub const LINKTYPE_WIRESHARK_UPPER_PDU: i32 = 252;

/// pcap-parser's `get_packetdata`: the layer the data of a packet starts with. It is not called
/// for link type 252, whose decoder panics on malformed data.
#[verifier::external_body]
fn packet_data(data: &[u8], linktype: i32, caplen: usize) -> (r: Option<PacketData>)
    requires
        linktype != LINKTYPE_WIRESHARK_UPPER_PDU,
    ensures
        match r {
            Some(d) => packet_data_of(data@, linktype, caplen) == Some(packet_data_view(d)),
            None => packet_data_of(data@, linktype, caplen) is None,
        },
{
    match get_packetdata(data, Linktype(linktype), caplen) {
        Some(PcapPacketData::L2(d)) => Some(PacketData::L2(d.to_vec())),
        Some(PcapPacketData::L3(t, d)) => Some(PacketData::L3(t, d.to_vec())),
        Some(PcapPacketData::L4(t, d)) => Some(PacketData::L4(t, d.to_vec())),
        Some(PcapPacketData::Unsupported(_)) => Some(PacketData::Unsupported),
        None => None,
    }
}

/// The IPv4 header of a packet: source, destination, whether more fragments follow, and the
/// number of the protocol it carries.
pub type Ipv4Fields = (u32, u32, bool, u8);

/// The IP protocol number of TCP.
pub const IP_PROTOCOL_TCP: u8 = 6;

/// The TCP segment of a packet: source port, destination port, sequence number and payload.
pub type TcpFields = (u16, u16, u32, Vec<u8>);

/// The layers of a packet that matter here: its IPv4 header and its TCP segment, where present.
pub type PacketLayers = (Option<Ipv4Fields>, Option<TcpFields>);

/// [`PacketLayers`] as a value.
pub type PacketLayersView = (Option<Ipv4Fields>, Option<(u16, u16, u32, Seq<u8>)>);

pub open spec fn layers_view(l: PacketLayers) -> PacketLayersView {
    (l.0, match l.1 {
        Some(t) => Some((t.0, t.1, t.2, t.3@)),
        None => None,
    })
}

/// What etherparse slices from an Ethernet frame, or its error message.
pub uninterp spec fn ethernet_layers_of(data: Seq<u8>) -> Result<PacketLayersView, Seq<char>>;

/// What etherparse slices from an IP packet, or its error message.
pub uninterp spec fn ip_layers_of(data: Seq<u8>) -> Result<PacketLayersView, Seq<char>>;

/// etherparse's `SlicedPacket::from_ethernet`: the IPv4 header and TCP segment of a frame.
#[verifier::external_body]
fn ethernet_layers(data: &[u8]) -> (r: Result<PacketLayers, String>)
    ensures
        match r {
            Ok(l) => ethernet_layers_of(data@) == Ok::<_, Seq<char>>(layers_view(l)),
            Err(m) => ethernet_layers_of(data@) == Err::<PacketLayersView, _>(m@),
        },
{
    let p = match SlicedPacket::from_ethernet(data) { Ok(p) => p, Err(e) => return Err(format!("{:?}", e)) };
    let ip = match &p.net {
        Some(NetSlice::Ipv4(s)) => {
            let h = s.header();
            Some((u32::from_be_bytes(h.source()), u32::from_be_bytes(h.destination()), h.more_fragments(), h.protocol().0))
        },
        _ => None,
    };
    let tcp = match &p.transport {
        Some(TransportSlice::Tcp(t)) => Some((t.source_port(), t.destination_port(), t.sequence_number(), t.payload().to_vec())),
        _ => None,
    };
    Ok((ip, tcp))
}

/// etherparse's `SlicedPacket::from_ip`: the IPv4 header and TCP segment of an IP packet.
#[verifier::external_body]
fn ip_layers(data: &[u8]) -> (r: Result<PacketLayers, String>)
    ensures
        match r {
            Ok(l) => ip_layers_of(data@) == Ok::<_, Seq<char>>(layers_view(l)),
            Err(m) => ip_layers_of(data@) == Err::<PacketLayersView, _>(m@),
        },
{
    let p = match SlicedPacket::from_ip(data) { Ok(p) => p, Err(e) => return Err(format!("{:?}", e)) };
    let ip = match &p.net {
        Some(NetSlice::Ipv4(s)) => {
            let h = s.header();
            Some((u32::from_be_bytes(h.source()), u32::from_be_bytes(h.destination()), h.more_fragments(), h.protocol().0))
        },
        _ => None,
    };
    let tcp = match &p.transport {
        Some(TransportSlice::Tcp(t)) => Some((t.source_port(), t.destination_port(), t.sequence_number(), t.payload().to_vec())),
        _ => None,
    };
    Ok((ip, tcp))
}

/// Why the TLS records of a capture could not be extracted.
#[derive(Clone, Debug, PartialEq, Eq)]
pub enum ExtractError {
    /// The capture file could not be read.
    Capture(PcapReadError),
    /// A packet was not captured whole.
    Truncated { packet: u32 },
    /// The data of a packet could not be read.
    UnreadablePacket { packet: u32 },
    /// The capture's link type is not supported.
    UnsupportedLinktype { linktype: i32 },
    /// A packet could not be sliced into its layers.
    Slice { packet: u32, message: String },
    /// A packet is not an IPv4 packet.
    NotIpv4 { packet: u32 },
    /// A packet is an IP fragment.
    Fragmented { packet: u32 },
    /// The capture time of a packet is not a valid time.
    InvalidTimestamp { packet: u32 },
}

/// An [`ExtractError`] as a value.
pub enum ExtractErrorView {
    Capture(PcapReadErrorView),
    Truncated { packet: u32 },
    UnreadablePacket { packet: u32 },
    UnsupportedLinktype { linktype: i32 },
    Slice { packet: u32, message: Seq<char> },
    NotIpv4 { packet: u32 },
    Fragmented { packet: u32 },
    InvalidTimestamp { packet: u32 },
}

pub open spec fn extract_error_view(e: ExtractError) -> ExtractErrorView {
    match e {
        ExtractError::Capture(c) => ExtractErrorView::Capture(read_error_view(c)),
        ExtractError::Truncated { packet } => ExtractErrorView::Truncated { packet },
        ExtractError::UnreadablePacket { packet } => ExtractErrorView::UnreadablePacket { packet },
        ExtractError::UnsupportedLinktype { linktype } => ExtractErrorView::UnsupportedLinktype { linktype },
        ExtractError::Slice { packet, message } => ExtractErrorView::Slice { packet, message: message@ },
        ExtractError::NotIpv4 { packet } => ExtractErrorView::NotIpv4 { packet },
        ExtractError::Fragmented { packet } => ExtractErrorView::Fragmented { packet },
        ExtractError::InvalidTimestamp { packet } => ExtractErrorView::InvalidTimestamp { packet },
    }
}

/// Whether a capture time of `usec` microseconds past the second is a valid time: a leap second
/// reaches up to two million.
pub open spec fn valid_usec(usec: u32) -> bool {
    usec < 2_000_000
}

/// A capture time in nanoseconds; a leap second counts into the next second.
pub open spec fn spec_capture_time(sec: u32, usec: u32) -> i128 {
    (sec as int * 1_000_000_000 + usec as int * 1000) as i128
}

/// The state after a packet sliced into `layers`, captured at `sec` and `usec`.
///
/// A packet that is not IPv4 is an error; a TCP packet that more fragments follow is an error,
/// whether or not its segment could be sliced; a packet without a TCP segment or without
/// payload is skipped otherwise; the segment of any other is added (see
/// [`spec_add_segment`]), unless it is a recent retransmission.
pub open spec fn spec_layers_step(
    st: ExtractorState,
    packet_id: u32,
    sec: u32,
    usec: u32,
    layers: PacketLayersView,
) -> Result<ExtractorState, ExtractErrorView> {
    match layers.0 {
        None => Err(ExtractErrorView::NotIpv4 { packet: packet_id }),
        Some(ip) => match layers.1 {
            None => if ip.2 && ip.3 == IP_PROTOCOL_TCP {
                Err(ExtractErrorView::Fragmented { packet: packet_id })
            } else {
                Ok(st)
            },
            Some(tcp) => if tcp.3.len() == 0 {
                Ok(st)
            } else if ip.2 {
                Err(ExtractErrorView::Fragmented { packet: packet_id })
            } else {
                let flow = FlowIdentifier {
                    source_ip: ip.0,
                    source_port: tcp.0,
                    destination_ip: ip.1,
                    destination_port: tcp.1,
                };
                if st.seen.contains(segment_key(flow, tcp.2)) {
                    Ok(st)
                } else if !valid_usec(usec) {
                    Err(ExtractErrorView::InvalidTimestamp { packet: packet_id })
                } else {
                    Ok(spec_add_segment(st, packet_id, flow, tcp.2, tcp.3, spec_capture_time(sec, usec)))
                }
            },
        },
    }
}

/// The state after packet `packet_id` of a capture with link type `linktype`.
///
/// A packet not captured whole, of link type 252, whose data pcap-parser cannot read, of another
/// link type than Ethernet or IP, or which etherparse cannot slice, is an error; otherwise see
/// [`spec_layers_step`].
pub open spec fn spec_packet_step(
    st: ExtractorState,
    linktype: i32,
    packet_id: u32,
    b: PcapBlockView,
) -> Result<ExtractorState, ExtractErrorView> {
    if b.2 != b.3 {
        Err(ExtractErrorView::Truncated { packet: packet_id })
    } else if linktype == LINKTYPE_WIRESHARK_UPPER_PDU {
        Err(ExtractErrorView::UnsupportedLinktype { linktype })
    } else {
        let sliced = match packet_data_of(b.4, linktype, b.2 as usize) {
            None => Err(ExtractErrorView::UnreadablePacket { packet: packet_id }),
            Some(PacketDataView::L2(d)) => Ok(ethernet_layers_of(d)),
            Some(PacketDataView::L3(_, d)) => Ok(ip_layers_of(d)),
            Some(_) => Err(ExtractErrorView::UnsupportedLinktype { linktype }),
        };
        match sliced {
            Err(e) => Err(e),
            Ok(Err(m)) => Err(ExtractErrorView::Slice { packet: packet_id, message: m }),
            Ok(Ok(layers)) => spec_layers_step(st, packet_id, b.0, b.1, layers),
        }
    }
}

/// The number of the packet at position `i` of a capture: counting starts at 1, modulo 2^32.
pub open spec fn packet_number(i: int) -> u32 {
    ((i + 1) % 0x1_0000_0000) as u32
}

/// The state after the packets of `blocks` from position `i` on.
pub open spec fn spec_extract_blocks(
    st: ExtractorState,
    linktype: i32,
    blocks: Seq<PcapBlockView>,
    i: int,
) -> Result<ExtractorState, ExtractErrorView>
    decreases blocks.len() - i,
{
    if i < 0 || i >= blocks.len() {
        Ok(st)
    } else {
        match spec_packet_step(st, linktype, packet_number(i), blocks[i]) {
            Ok(next) => spec_extract_blocks(next, linktype, blocks, i + 1),
            Err(e) => Err(e),
        }
    }
}

/// The state of an extractor that has seen no packet.
pub open spec fn initial_state() -> ExtractorState {
    ExtractorState { seen: Seq::empty(), buffers: Seq::empty(), records: Seq::empty() }
}

impl TlsExtractor {
    /// Processes a packet sliced into `layers`, captured at `sec` and `usec` (see
    /// [`spec_layers_step`]); on an error the extractor is unchanged.
    pub fn add_layers(&mut self, packet_id: u32, sec: u32, usec: u32, layers: PacketLayers) -> (r: Result<(), ExtractError>)
        requires
            old(self).wf(),
        ensures
            final(self).wf(),
            match spec_layers_step(old(self).state(), packet_id, sec, usec, layers_view(layers)) {
                Ok(st) => r is Ok && final(self).state() == st,
                Err(e) => r matches Err(x) && extract_error_view(x) == e && final(self).state() == old(self).state(),
            },
    {
        let (ip, tcp) = layers;
        let ip = match ip {
            Some(ip) => ip,
            None => return Err(ExtractError::NotIpv4 { packet: packet_id }),
        };
        let tcp = match tcp {
            Some(tcp) => tcp,
            None => {
                if ip.2 && ip.3 == IP_PROTOCOL_TCP {
                    return Err(ExtractError::Fragmented { packet: packet_id });
                }
                return Ok(());
            },
        };
        if tcp.3.len() == 0 {
            return Ok(());
        }
        if ip.2 {
            return Err(ExtractError::Fragmented { packet: packet_id });
        }
        let flow = FlowIdentifier { source_ip: ip.0, source_port: tcp.0, destination_ip: ip.1, destination_port: tcp.1 };
        let key = (flow.source_ip, flow.source_port, flow.destination_ip, flow.destination_port, tcp.2);
        if self.seen.contains(&key) {
            return Ok(());
        }
        if usec >= 2_000_000 {
            return Err(ExtractError::InvalidTimestamp { packet: packet_id });
        }
        let time = sec as i128 * 1_000_000_000 + usec as i128 * 1000;
        self.add_segment(packet_id, flow, tcp.2, tcp.3.as_slice(), time);
        Ok(())
    }

    /// Processes packet `packet_id` of a capture with link type `linktype` (see
    /// [`spec_packet_step`]); on an error the extractor is unchanged.
    pub fn add_packet(&mut self, linktype: i32, packet_id: u32, block: &PcapBlock) -> (r: Result<(), ExtractError>)
        requires
            old(self).wf(),
        ensures
            final(self).wf(),
            match spec_packet_step(old(self).state(), linktype, packet_id, block_view(*block)) {
                Ok(st) => r is Ok && final(self).state() == st,
                Err(e) => r matches Err(x) && extract_error_view(x) == e && final(self).state() == old(self).state(),
            },
    {
        if block.caplen != block.origlen {
            return Err(ExtractError::Truncated { packet: packet_id });
        }
        if linktype == LINKTYPE_WIRESHARK_UPPER_PDU {
            return Err(ExtractError::UnsupportedLinktype { linktype });
        }
        let sliced = match packet_data(block.data.as_slice(), linktype, block.caplen as usize) {
            None => return Err(ExtractError::UnreadablePacket { packet: packet_id }),
            Some(PacketData::L2(d)) => ethernet_layers(d.as_slice()),
            Some(PacketData::L3(_, d)) => ip_layers(d.as_slice()),
            Some(_) => return Err(ExtractError::UnsupportedLinktype { linktype }),
        };
        match sliced {
            Err(m) => Err(ExtractError::Slice { packet: packet_id, message: m }),
            Ok(layers) => self.add_layers(packet_id, block.ts_sec, block.ts_usec, layers),
        }
    }
}

/// The TLS records of the packets `blocks` of a capture with link type `linktype`, per
/// connection (see [`spec_extract_blocks`]).
pub fn extract_from_blocks(linktype: i32, blocks: &[PcapBlock]) -> (r: Result<Vec<(TwoWayFlowIdentifier, Vec<TlsRecord>)>, ExtractError>)
    ensures
        match spec_extract_blocks(initial_state(), linktype, blocks_view(blocks@), 0) {
            Ok(st) => r matches Ok(v) && records_view(v@) == st.records,
            Err(e) => r matches Err(x) && extract_error_view(x) == e,
        },
{
    let ghost bv = blocks_view(blocks@);
    let mut extractor = TlsExtractor::new();
    let mut i: usize = 0;
    let mut packet_id: u32 = 1;
    while i < blocks.len()
        invariant
            i <= blocks@.len(),
            bv == blocks_view(blocks@),
            extractor.wf(),
            packet_id == packet_number(i as int),
            spec_extract_blocks(initial_state(), linktype, bv, 0) == spec_extract_blocks(
                extractor.state(),
                linktype,
                bv,
                i as int,
            ),
        decreases blocks@.len() - i,
    {
        assert(bv[i as int] == block_view(blocks@[i as int]));
        let step = extractor.add_packet(linktype, packet_id, &blocks[i]);
        if let Err(e) = step {
            return Err(e);
        }
        i = i + 1;
        packet_id = packet_id.wrapping_add(1);
        assert(packet_id == packet_number(i as int)) by (nonlinear_arith)
            requires
                i >= 1,
                packet_id == (if packet_number(i - 1) == u32::MAX { 0 } else { packet_number(i - 1) + 1 }),
        {
        }
    }
    Ok(extractor.into_records())
}

/// The TLS records of a capture file, per connection, or why they could not be extracted.
pub open spec fn spec_extracted(file: Seq<u8>) -> Result<Seq<(TwoWayFlowIdentifier, Seq<TlsRecord>)>, ExtractErrorView> {
    match pcap_capture_of(file) {
        Err(e) => Err(ExtractErrorView::Capture(e)),
        Ok(c) => match spec_extract_blocks(initial_state(), c.0, c.1, 0) {
            Ok(st) => Ok(st.records),
            Err(e) => Err(e),
        },
    }
}

/// The TLS records of a capture file, per connection in the order the connections first
/// completed a record; each record carries its packet's number, counted from 1, and capture
/// time.
pub fn extract_tls_records(file: &[u8]) -> (r: Result<Vec<(TwoWayFlowIdentifier, Vec<TlsRecord>)>, ExtractError>)
    ensures
        match spec_extracted(file@) {
            Ok(records) => r matches Ok(v) && records_view(v@) == records,
            Err(e) => r matches Err(x) && extract_error_view(x) == e,
        },
{
    match read_capture(file) {
        Err(e) => Err(ExtractError::Capture(e)),
        Ok((linktype, blocks)) => extract_from_blocks(linktype, blocks.as_slice()),
    }
}

} // verus!
