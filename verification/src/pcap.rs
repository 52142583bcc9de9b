//! TLS records of a packet capture: selecting the records that carry the DNS responses, and
//! building sequences from them.
//!
//! Addresses are IPv4 addresses as 32-bit numbers (the first octet highest), times are in
//! nanoseconds.

use crate::load_sequence::{
    AbstractQueryResponse, LoadSequenceConfig, convert_to_sequence, convertible, responses_convertible,
    spec_convert, times_in_range,
};
use crate::precision_sequence::{PrecisionSequence, PrecisionSequenceEvent, convert_to_precision_sequence};
use crate::sequence::Sequence;
use crate::stable_sort::{lemma_stable_sorted_map, stable_sort_by_key, stable_sorted};
use crate::tls_extract::{extract_error_view, extract_tls_records, records_view, spec_extracted, ExtractError, ExtractErrorView};
use vstd::prelude::*;

verus! {

/// Identifier of a one-way TCP flow.
#[derive(Clone, Copy, Debug, PartialEq, Eq, Structural, Hash)]
pub struct FlowIdentifier {
    pub source_ip: u32,
    pub source_port: u16,
    pub destination_ip: u32,
    pub destination_port: u16,
}

impl FlowIdentifier {
    /// The flow from `source` to `destination`, each an address and a port.
    pub fn from_pairs(source: (u32, u16), destination: (u32, u16)) -> (r: Self)
        ensures
            r.source_ip == source.0,
            r.source_port == source.1,
            r.destination_ip == destination.0,
            r.destination_port == destination.1,
    {
        FlowIdentifier {
            source_ip: source.0,
            source_port: source.1,
            destination_ip: destination.0,
            destination_port: destination.1,
        }
    }

    /// The flow a record was sent on.
    pub fn from_record(record: &TlsRecord) -> (r: Self)
        ensures
            r == (FlowIdentifier {
                source_ip: record.sender,
                source_port: record.sender_port,
                destination_ip: record.receiver,
                destination_port: record.receiver_port,
            }),
    {
        Self::from_pairs((record.sender, record.sender_port), (record.receiver, record.receiver_port))
    }
}

/// Whether the endpoint `a` comes before or is `b`: by address, then by port.
pub open spec fn endpoint_le(a: (u32, u16), b: (u32, u16)) -> bool {
    a.0 < b.0 || (a.0 == b.0 && a.1 <= b.1)
}

/// Identifier of a two-way TCP flow: the flow with the smaller endpoint as its source.
#[derive(Clone, Copy, Debug, PartialEq, Eq, Structural, Hash)]
pub struct TwoWayFlowIdentifier(pub FlowIdentifier);

/// The two-way flow that `flow` belongs to: the flow with the smaller endpoint as its source.
pub open spec fn spec_two_way(flow: FlowIdentifier) -> TwoWayFlowIdentifier {
    let p0 = (flow.source_ip, flow.source_port);
    let p1 = (flow.destination_ip, flow.destination_port);
    let (a, b) = if endpoint_le(p0, p1) {
        (p0, p1)
    } else {
        (p1, p0)
    };
    TwoWayFlowIdentifier(FlowIdentifier { source_ip: a.0, source_port: a.1, destination_ip: b.0, destination_port: b.1 })
}

/// The flow in the opposite direction.
pub open spec fn reversed(flow: FlowIdentifier) -> FlowIdentifier {
    FlowIdentifier {
        source_ip: flow.destination_ip,
        source_port: flow.destination_port,
        destination_ip: flow.source_ip,
        destination_port: flow.source_port,
    }
}

impl TwoWayFlowIdentifier {
    /// The two-way flow that `flow` belongs to; both directions give the same one.
    pub fn from_flow(flow: FlowIdentifier) -> (r: Self)
        ensures
            r == spec_two_way(flow),
    {
        let p0 = (flow.source_ip, flow.source_port);
        let p1 = (flow.destination_ip, flow.destination_port);
        let le = p0.0 < p1.0 || (p0.0 == p1.0 && p0.1 <= p1.1);
        let (a, b) = if le {
            (p0, p1)
        } else {
            (p1, p0)
        };
        TwoWayFlowIdentifier(FlowIdentifier::from_pairs(a, b))
    }
}

/// The two directions of a flow belong to the same two-way flow.
pub proof fn lemma_two_way_symmetric(f: FlowIdentifier)
    ensures
        spec_two_way(f) == spec_two_way(reversed(f)),
{
}

/// The type of a TLS record.
#[derive(Clone, Copy, Debug, PartialEq, Eq, Structural, Hash)]
pub enum MessageType {
    ChangeCipherSpec,
    Alert,
    Handshake,
    ApplicationData,
    Heartbeat,
    Unknown(u8),
}

/// The TLS versions told apart.
#[derive(Clone, Copy, Debug, PartialEq, Eq, Structural, Hash)]
pub enum TlsVersion {
    Tls1_2,
    Tls1_3,
    Unknown,
}

/// A TLS record of a packet capture.
#[derive(Clone, Copy, Debug, PartialEq, Eq, Structural)]
pub struct TlsRecord {
    /// Position of the containing packet in the capture, starting at 1.
    pub packet_in_pcap: u32,
    /// Address of the sender.
    pub sender: u32,
    pub sender_port: u16,
    /// Address of the receiver.
    pub receiver: u32,
    pub receiver_port: u16,
    /// Capture time of the packet, in nanoseconds.
    pub time: i128,
    pub message_type: MessageType,
    /// Size of the payload of the record.
    pub message_length: u32,
    /// The version the server chose, if the record is its ServerHello.
    pub tls_version: Option<TlsVersion>,
}

/// Bytes of a record that belong to the encryption rather than to the DNS message.
pub const TLS_OVERHEAD: u32 = 40;

impl TlsRecord {
    /// The response this record carries: its time, and its size without the encryption
    /// overhead.
    pub fn to_query_response(&self) -> (r: AbstractQueryResponse)
        requires
            self.message_length >= TLS_OVERHEAD,
        ensures
            r.time == self.time,
            r.size == self.message_length - TLS_OVERHEAD,
    {
        AbstractQueryResponse { time: self.time, size: self.message_length - TLS_OVERHEAD }
    }
}

// ---------------------------------------------------------------------------------------------
// Selecting the DNS responses

/// The size of a padded DNS message block.
pub const BASE_MESSAGE_SIZE: u32 = 128;

/// The smallest size of the large marker query and of its response.
pub const MARKER_QUERY_SIZE: u32 = 384;

/// Whether `r` was sent by the server.
pub open spec fn from_server(r: TlsRecord, server: u32, port: u16) -> bool {
    r.sender == server && r.sender_port == port
}

/// Whether `r` was sent to the server.
pub open spec fn to_server(r: TlsRecord, server: u32, port: u16) -> bool {
    r.receiver == server && r.receiver_port == port
}

/// The records that mark the steps of a measurement.
#[derive(Clone, Copy, Debug, PartialEq, Eq, Structural)]
pub enum Marker {
    /// The ChangeCipherSpec of the server.
    ServerChangeCipherSpec,
    /// The ChangeCipherSpec of the client.
    ClientChangeCipherSpec,
    /// The response of the server to the large marker query.
    LargeMarkerResponse,
    /// The small query for `start.example.`.
    StartQuery,
    /// The large marker query sent at the end.
    EndQuery,
}

/// Whether `r` is a marker of kind `m`.
pub open spec fn is_marker(r: TlsRecord, server: u32, port: u16, m: Marker) -> bool {
    match m {
        Marker::ServerChangeCipherSpec => r.message_type == MessageType::ChangeCipherSpec
            && from_server(r, server, port),
        Marker::ClientChangeCipherSpec => r.message_type == MessageType::ChangeCipherSpec
            && !from_server(r, server, port),
        Marker::LargeMarkerResponse => from_server(r, server, port) && r.message_length
            >= MARKER_QUERY_SIZE,
        Marker::StartQuery => to_server(r, server, port) && BASE_MESSAGE_SIZE <= r.message_length
            <= 2 * BASE_MESSAGE_SIZE,
        Marker::EndQuery => !from_server(r, server, port) && r.message_length >= MARKER_QUERY_SIZE,
    }
}

/// The first position from `i` on holding a marker of kind `m`, or the length if there is none.
pub open spec fn first_marker(s: Seq<TlsRecord>, server: u32, port: u16, m: Marker, i: int) -> int
    decreases s.len() - i,
{
    if i >= s.len() {
        s.len() as int
    } else if is_marker(s[i], server, port, m) {
        i
    } else {
        first_marker(s, server, port, m, i + 1)
    }
}

/// Where both sides have sent their ChangeCipherSpec, or the length if that does not happen.
pub open spec fn handshake_end(s: Seq<TlsRecord>, server: u32, port: u16) -> int {
    let a = first_marker(s, server, port, Marker::ServerChangeCipherSpec, 0);
    let b = first_marker(s, server, port, Marker::ClientChangeCipherSpec, 0);
    if a < b {
        b
    } else {
        a
    }
}

/// Position of the start query: the first one after the response to the large marker query,
/// which is the first one after the handshake.
pub open spec fn start_position(s: Seq<TlsRecord>, server: u32, port: u16) -> int {
    let large = first_marker(s, server, port, Marker::LargeMarkerResponse, handshake_end(s, server, port));
    first_marker(s, server, port, Marker::StartQuery, large)
}

/// Position of the end query, the first one from the start query on.
pub open spec fn end_position(s: Seq<TlsRecord>, server: u32, port: u16) -> int {
    first_marker(s, server, port, Marker::EndQuery, start_position(s, server, port))
}

/// The last version announced among `s`, if any.
pub open spec fn last_version(s: Seq<TlsRecord>) -> Option<TlsVersion>
    decreases s.len(),
{
    if s.len() == 0 {
        None
    } else if s.last().tls_version is Some {
        s.last().tls_version
    } else {
        last_version(s.drop_last())
    }
}

/// The version the selection goes by: the last one announced among the records read, which
/// are those up to and including the end query (all of them if there is none).
pub open spec fn selection_version(s: Seq<TlsRecord>, server: u32, port: u16) -> Option<TlsVersion> {
    let e = end_position(s, server, port);
    last_version(s.take(if e < s.len() { e + 1 } else { s.len() as int }))
}

/// The application data records the server sent among `s`.
pub open spec fn server_application_data(s: Seq<TlsRecord>, server: u32, port: u16) -> Seq<TlsRecord>
    decreases s.len(),
{
    if s.len() == 0 {
        s
    } else if from_server(s.last(), server, port) && s.last().message_type
        == MessageType::ApplicationData {
        server_application_data(s.drop_last(), server, port).push(s.last())
    } else {
        server_application_data(s.drop_last(), server, port)
    }
}

/// The records of `s` of at least one padded block.
pub open spec fn at_least_one_block(s: Seq<TlsRecord>) -> Seq<TlsRecord>
    decreases s.len(),
{
    if s.len() == 0 {
        s
    } else if s.last().message_length >= BASE_MESSAGE_SIZE {
        at_least_one_block(s.drop_last()).push(s.last())
    } else {
        at_least_one_block(s.drop_last())
    }
}

/// The selected records of one flow: the application data the server sent between the start
/// query and the end query, without the first one (the response to the start query); with
/// TLS 1.3 only those of at least one padded block; and without the last one (the response
/// to the end query) if the end query was seen.
pub open spec fn spec_filter_tls_records(s: Seq<TlsRecord>, server: u32, port: u16) -> Seq<TlsRecord> {
    let start = start_position(s, server, port);
    let end = end_position(s, server, port);
    let data = server_application_data(s.subrange(start, end), server, port);
    let responses = if data.len() == 0 {
        data
    } else {
        data.drop_first()
    };
    let sized = if selection_version(s, server, port) == Some(TlsVersion::Tls1_3) {
        at_least_one_block(responses)
    } else {
        responses
    };
    if end < s.len() && sized.len() > 0 {
        sized.drop_last()
    } else {
        sized
    }
}

proof fn lemma_first_marker_bounds(s: Seq<TlsRecord>, server: u32, port: u16, m: Marker, i: int)
    requires
        0 <= i <= s.len(),
    ensures
        i <= first_marker(s, server, port, m, i) <= s.len(),
    decreases s.len() - i,
{
    if i < s.len() && !is_marker(s[i], server, port, m) {
        lemma_first_marker_bounds(s, server, port, m, i + 1);
    }
}

fn is_marker_exec(r: &TlsRecord, server: u32, port: u16, m: Marker) -> (b: bool)
    ensures
        b == is_marker(*r, server, port, m),
{
    let from = r.sender == server && r.sender_port == port;
    match m {
        Marker::ServerChangeCipherSpec => r.message_type == MessageType::ChangeCipherSpec && from,
        Marker::ClientChangeCipherSpec => r.message_type == MessageType::ChangeCipherSpec && !from,
        Marker::LargeMarkerResponse => from && r.message_length >= MARKER_QUERY_SIZE,
        Marker::StartQuery => r.receiver == server && r.receiver_port == port && BASE_MESSAGE_SIZE
            <= r.message_length && r.message_length <= 2 * BASE_MESSAGE_SIZE,
        Marker::EndQuery => !from && r.message_length >= MARKER_QUERY_SIZE,
    }
}

fn find_marker(records: &Vec<TlsRecord>, server: u32, port: u16, m: Marker, from: usize) -> (r: usize)
    requires
        from <= records@.len(),
    ensures
        r == first_marker(records@, server, port, m, from as int),
{
    let mut i = from;
    while i < records.len()
        invariant
            from <= i <= records@.len(),
            first_marker(records@, server, port, m, from as int) == first_marker(
                records@,
                server,
                port,
                m,
                i as int,
            ),
        decreases records@.len() - i,
    {
        if is_marker_exec(&records[i], server, port, m) {
            return i;
        }
        i = i + 1;
    }
    i
}

/// Selects the records of one flow that carry the DNS responses of a measurement.
///
/// The measurement is recognised by its markers: after both sides sent their ChangeCipherSpec,
/// the client sends a large marker query (answered by at least [`MARKER_QUERY_SIZE`] bytes),
/// then a small query for `start.example.`; it ends with another large marker query. The
/// server's application data in between are the responses (see
/// [`spec_filter_tls_records`]).
pub fn filter_tls_records(records: Vec<TlsRecord>, server: u32, server_port: u16) -> (r: Vec<
    TlsRecord,
>)
    ensures
        r@ == spec_filter_tls_records(records@, server, server_port),
{
    let ghost s = records@;
    let n = records.len();
    let server_ccs = find_marker(&records, server, server_port, Marker::ServerChangeCipherSpec, 0);
    let client_ccs = find_marker(&records, server, server_port, Marker::ClientChangeCipherSpec, 0);
    proof {
        lemma_first_marker_bounds(s, server, server_port, Marker::ServerChangeCipherSpec, 0);
        lemma_first_marker_bounds(s, server, server_port, Marker::ClientChangeCipherSpec, 0);
    }
    let handshake = if server_ccs < client_ccs {
        client_ccs
    } else {
        server_ccs
    };
    let large = find_marker(&records, server, server_port, Marker::LargeMarkerResponse, handshake);
    proof {
        lemma_first_marker_bounds(s, server, server_port, Marker::LargeMarkerResponse, handshake as int);
    }
    let start = find_marker(&records, server, server_port, Marker::StartQuery, large);
    proof {
        lemma_first_marker_bounds(s, server, server_port, Marker::StartQuery, large as int);
    }
    let end = find_marker(&records, server, server_port, Marker::EndQuery, start);
    proof {
        lemma_first_marker_bounds(s, server, server_port, Marker::EndQuery, start as int);
    }
    // The version announced last among the records read.
    let read = if end < n {
        end + 1
    } else {
        n
    };
    let mut version: Option<TlsVersion> = None;
    let mut i: usize = 0;
    while i < read
        invariant
            i <= read <= n,
            n == s.len(),
            records@ == s,
            version == last_version(s.take(i as int)),
        decreases read - i,
    {
        assert(s.take(i + 1).drop_last() =~= s.take(i as int));
        if records[i].tls_version.is_some() {
            version = records[i].tls_version;
        }
        i = i + 1;
    }
    // The server's application data between the start and the end query.
    let mut data: Vec<TlsRecord> = Vec::new();
    let mut j = start;
    assert(s.subrange(start as int, start as int) =~= Seq::<TlsRecord>::empty());
    while j < end
        invariant
            start <= j <= end <= n,
            n == s.len(),
            records@ == s,
            data@ == server_application_data(s.subrange(start as int, j as int), server, server_port),
        decreases end - j,
    {
        assert(s.subrange(start as int, j + 1).drop_last() =~= s.subrange(start as int, j as int));
        let rec = records[j];
        if rec.sender == server && rec.sender_port == server_port && rec.message_type
            == MessageType::ApplicationData {
            data.push(rec);
        }
        j = j + 1;
    }
    // Without the response to the start query.
    let mut out: Vec<TlsRecord> = Vec::new();
    let tls13 = match version {
        Some(TlsVersion::Tls1_3) => true,
        _ => false,
    };
    let ghost responses = if data@.len() == 0 {
        data@
    } else {
        data@.drop_first()
    };
    let mut k: usize = 1;
    assert(responses.take(0) =~= Seq::<TlsRecord>::empty());
    while k < data.len()
        invariant
            1 <= k,
            k <= data@.len() || (data@.len() == 0 && k == 1),
            responses == (if data@.len() == 0 { data@ } else { data@.drop_first() }),
            out@ == (if tls13 {
                at_least_one_block(responses.take(k - 1))
            } else {
                responses.take(k - 1)
            }),
        decreases data@.len() - k,
    {
        let rec = data[k];
        assert(responses.take(k as int).drop_last() =~= responses.take(k - 1));
        assert(responses.take(k as int).last() == rec);
        if !tls13 || rec.message_length >= BASE_MESSAGE_SIZE {
            out.push(rec);
        }
        assert(out@ =~= (if tls13 {
            at_least_one_block(responses.take(k as int))
        } else {
            responses.take(k as int)
        }));
        k = k + 1;
    }
    proof {
        if data@.len() > 0 {
            assert(k == data@.len());
            assert(responses.take(k - 1) =~= responses);
        } else {
            assert(responses.take(k - 1) =~= responses);
        }
    }
    proof {
        assert(handshake == handshake_end(s, server, server_port));
        assert(start == start_position(s, server, server_port));
        assert(end == end_position(s, server, server_port));
        assert(version == selection_version(s, server, server_port));
        assert(tls13 == (selection_version(s, server, server_port) == Some(TlsVersion::Tls1_3)));
        assert(data@ == server_application_data(s.subrange(start as int, end as int), server, server_port));
        assert(out@ == (if tls13 {
            at_least_one_block(responses)
        } else {
            responses
        }));
    }
    if end < n && out.len() > 0 {
        out.pop();
    }
    out
}

// ---------------------------------------------------------------------------------------------
// Finding the server

/// The endpoint a record was sent from.
pub open spec fn sender_endpoint(r: TlsRecord) -> (u32, u16) {
    (r.sender, r.sender_port)
}

/// All records of the flows, flow after flow.
pub open spec fn flatten_flows(flows: Seq<Vec<TlsRecord>>) -> Seq<TlsRecord>
    decreases flows.len(),
{
    if flows.len() == 0 {
        Seq::empty()
    } else {
        flatten_flows(flows.drop_last()) + flows.last()@
    }
}

/// The sending endpoints of `s`, each once, in the order they first occur.
pub open spec fn distinct_endpoints(s: Seq<TlsRecord>) -> Seq<(u32, u16)>
    decreases s.len(),
{
    if s.len() == 0 {
        Seq::empty()
    } else {
        let prefix = distinct_endpoints(s.drop_last());
        if prefix.contains(sender_endpoint(s.last())) {
            prefix
        } else {
            prefix.push(sender_endpoint(s.last()))
        }
    }
}

/// The endpoints of `s` with port `port`, in their order.
pub open spec fn with_port(s: Seq<(u32, u16)>, port: u16) -> Seq<(u32, u16)>
    decreases s.len(),
{
    if s.len() == 0 {
        s
    } else if s.last().1 == port {
        with_port(s.drop_last(), port).push(s.last())
    } else {
        with_port(s.drop_last(), port)
    }
}

/// The port of DNS over TLS.
pub const DOT_PORT: u16 = 853;

/// The other port DNS over TLS servers are run on in the measurements.
pub const ALTERNATIVE_DOT_PORT: u16 = 8853;

/// Which server a capture was taken against: the only sending endpoint on the DNS over TLS
/// port, else the only one on the alternative port. Otherwise the candidates: those on the
/// first port that has several, else all endpoints.
pub open spec fn spec_guess(s: Seq<TlsRecord>) -> Result<(u32, u16), Seq<(u32, u16)>> {
    let endpoints = distinct_endpoints(s);
    let dot = with_port(endpoints, DOT_PORT);
    let alternative = with_port(endpoints, ALTERNATIVE_DOT_PORT);
    if dot.len() == 1 {
        Ok(dot[0])
    } else if dot.len() > 1 {
        Err(dot)
    } else if alternative.len() == 1 {
        Ok(alternative[0])
    } else if alternative.len() > 1 {
        Err(alternative)
    } else {
        Err(endpoints)
    }
}

/// Why no sequence could be built from a capture.
#[derive(Clone, Debug)]
pub enum PcapError {
    /// The TLS records could not be extracted.
    Extract(ExtractError),
    /// No single server could be told apart; these are the candidates.
    NoUniqueServer { candidates: Vec<(u32, u16)> },
    /// No response was selected.
    EmptySequence,
}

fn contains_endpoint(v: &Vec<(u32, u16)>, e: (u32, u16)) -> (r: bool)
    ensures
        r == v@.contains(e),
{
    let mut i: usize = 0;
    while i < v.len()
        invariant
            i <= v@.len(),
            forall|j: int| 0 <= j < i ==> v@[j] != e,
        decreases v@.len() - i,
    {
        if v[i].0 == e.0 && v[i].1 == e.1 {
            assert(v@[i as int] == e);
            return true;
        }
        i = i + 1;
    }
    false
}

fn endpoints_with_port(v: &Vec<(u32, u16)>, port: u16) -> (r: Vec<(u32, u16)>)
    ensures
        r@ == with_port(v@, port),
{
    let mut out: Vec<(u32, u16)> = Vec::new();
    let mut i: usize = 0;
    while i < v.len()
        invariant
            i <= v@.len(),
            out@ == with_port(v@.take(i as int), port),
        decreases v@.len() - i,
    {
        assert(v@.take(i + 1).drop_last() =~= v@.take(i as int));
        if v[i].1 == port {
            out.push(v[i]);
        }
        i = i + 1;
    }
    assert(v@.take(v@.len() as int) =~= v@);
    out
}

/// The sending endpoints of all records, each once, in the order they first occur.
fn sending_endpoints(flows: &[Vec<TlsRecord>]) -> (r: Vec<(u32, u16)>)
    ensures
        r@ == distinct_endpoints(flatten_flows(flows@)),
{
    let mut out: Vec<(u32, u16)> = Vec::new();
    let mut i: usize = 0;
    while i < flows.len()
        invariant
            i <= flows@.len(),
            out@ == distinct_endpoints(flatten_flows(flows@.take(i as int))),
        decreases flows@.len() - i,
    {
        let flow = &flows[i];
        let ghost before = flatten_flows(flows@.take(i as int));
        let mut j: usize = 0;
        assert(before + flow@.take(0) =~= before);
        while j < flow.len()
            invariant
                i < flows@.len(),
                flow == flows@[i as int],
                j <= flow@.len(),
                out@ == distinct_endpoints(before + flow@.take(j as int)),
            decreases flow@.len() - j,
        {
            assert((before + flow@.take(j + 1)).drop_last() =~= before + flow@.take(j as int));
            assert((before + flow@.take(j + 1)).last() == flow@[j as int]);
            let e = (flow[j].sender, flow[j].sender_port);
            if !contains_endpoint(&out, e) {
                out.push(e);
            }
            j = j + 1;
        }
        assert(flows@.take(i + 1).drop_last() =~= flows@.take(i as int));
        assert(flow@.take(flow@.len() as int) =~= flow@);
        i = i + 1;
    }
    assert(flows@.take(flows@.len() as int) =~= flows@);
    out
}

/// Guesses which server the DNS traffic of a capture went to (see [`spec_guess`]).
pub fn guess_dns_flow_identifier(flows: &[Vec<TlsRecord>]) -> (r: Result<(u32, u16), PcapError>)
    ensures
        match r {
            Ok(server) => spec_guess(flatten_flows(flows@)) == Ok::<(u32, u16), Seq<(u32, u16)>>(server),
            Err(PcapError::NoUniqueServer { candidates }) => spec_guess(flatten_flows(flows@))
                == Err::<(u32, u16), Seq<(u32, u16)>>(candidates@),
            Err(_) => false,
        },
{
    let endpoints = sending_endpoints(flows);
    let dot = endpoints_with_port(&endpoints, DOT_PORT);
    if dot.len() == 1 {
        return Ok(dot[0]);
    } else if dot.len() > 1 {
        return Err(PcapError::NoUniqueServer { candidates: dot });
    }
    let alternative = endpoints_with_port(&endpoints, ALTERNATIVE_DOT_PORT);
    if alternative.len() == 1 {
        Ok(alternative[0])
    } else if alternative.len() > 1 {
        Err(PcapError::NoUniqueServer { candidates: alternative })
    } else {
        Err(PcapError::NoUniqueServer { candidates: endpoints })
    }
}

/// All records of the flows, flow after flow.
pub open spec fn flatten_records(flows: Seq<Seq<TlsRecord>>) -> Seq<TlsRecord>
    decreases flows.len(),
{
    if flows.len() == 0 {
        Seq::empty()
    } else {
        flatten_records(flows.drop_last()) + flows.last()
    }
}

/// The records of each connection, without the connection.
pub open spec fn connection_records(flows: Seq<(TwoWayFlowIdentifier, Seq<TlsRecord>)>) -> Seq<Seq<TlsRecord>> {
    flows.map_values(|e: (TwoWayFlowIdentifier, Seq<TlsRecord>)| e.1)
}

proof fn lemma_flatten_same(vs: Seq<Vec<TlsRecord>>, ss: Seq<Seq<TlsRecord>>)
    requires
        vs.len() == ss.len(),
        forall|i: int| 0 <= i < vs.len() ==> (#[trigger] vs[i])@ == ss[i],
    ensures
        flatten_flows(vs) == flatten_records(ss),
    decreases vs.len(),
{
    if vs.len() > 0 {
        lemma_flatten_same(vs.drop_last(), ss.drop_last());
        assert(vs.last()@ == ss.last());
    }
}

fn copy_records(v: &Vec<TlsRecord>) -> (r: Vec<TlsRecord>)
    ensures
        r@ == v@,
{
    let mut out: Vec<TlsRecord> = Vec::new();
    let mut i: usize = 0;
    while i < v.len()
        invariant
            i <= v@.len(),
            out@ == v@.take(i as int),
        decreases v@.len() - i,
    {
        out.push(v[i]);
        i = i + 1;
        assert(out@ =~= v@.take(i as int));
    }
    assert(v@.take(v@.len() as int) =~= v@);
    out
}

/// The server the capture with records `flows` is read against: `filter`, or the guessed one;
/// else the candidates.
pub open spec fn server_of(flows: Seq<(TwoWayFlowIdentifier, Seq<TlsRecord>)>, filter: Option<(u32, u16)>) -> Result<(u32, u16), Seq<(u32, u16)>> {
    match filter {
        Some(f) => Ok(f),
        None => spec_guess(flatten_records(connection_records(flows))),
    }
}

/// The TLS records of a capture file, per connection, filtered to the DNS responses of the
/// server `filter`, or of the guessed server (see [`guess_dns_flow_identifier`] and
/// [`filter_tls_records`]).
pub fn extract_and_filter_tls_records(file: &[u8], filter: Option<(u32, u16)>) -> (r: Result<Vec<(TwoWayFlowIdentifier, Vec<TlsRecord>)>, PcapError>)
    ensures
        match spec_extracted(file@) {
            Err(e) => r matches Err(PcapError::Extract(x)) && extract_error_view(x) == e,
            Ok(flows) => match server_of(flows, filter) {
                Err(c) => r matches Err(PcapError::NoUniqueServer { candidates }) && candidates@ == c,
                Ok(server) => r matches Ok(v) && v@.len() == flows.len() && forall|i: int|
                    0 <= i < flows.len() ==> (#[trigger] v@[i]).0 == flows[i].0 && v@[i].1@
                        == spec_filter_tls_records(flows[i].1, server.0, server.1),
            },
        },
{
    let extracted = match extract_tls_records(file) {
        Ok(v) => v,
        Err(e) => return Err(PcapError::Extract(e)),
    };
    let ghost flows = records_view(extracted@);
    let mut records: Vec<Vec<TlsRecord>> = Vec::new();
    let mut i: usize = 0;
    while i < extracted.len()
        invariant
            i <= extracted@.len(),
            flows == records_view(extracted@),
            records@.len() == i,
            forall|j: int| 0 <= j < i ==> (#[trigger] records@[j])@ == flows[j].1,
        decreases extracted@.len() - i,
    {
        records.push(copy_records(&extracted[i].1));
        i = i + 1;
    }
    proof {
        assert forall|j: int| 0 <= j < records@.len() implies (#[trigger] records@[j])@ == connection_records(flows)[j] by {}
        lemma_flatten_same(records@, connection_records(flows));
    }
    let server = match filter {
        Some(f) => f,
        None => guess_dns_flow_identifier(records.as_slice())?,
    };
    let mut out: Vec<(TwoWayFlowIdentifier, Vec<TlsRecord>)> = Vec::new();
    let mut i: usize = 0;
    while i < extracted.len()
        invariant
            i <= extracted@.len(),
            flows == records_view(extracted@),
            out@.len() == i,
            forall|j: int|
                0 <= j < i ==> (#[trigger] out@[j]).0 == flows[j].0 && out@[j].1@
                    == spec_filter_tls_records(flows[j].1, server.0, server.1),
        decreases extracted@.len() - i,
    {
        let filtered = filter_tls_records(copy_records(&extracted[i].1), server.0, server.1);
        out.push((extracted[i].0, filtered));
        i = i + 1;
    }
    Ok(out)
}

// ---------------------------------------------------------------------------------------------
// Building sequences

/// The selected records of each flow, flow after flow.
pub open spec fn selected_records(flows: Seq<Vec<TlsRecord>>, server: u32, port: u16) -> Seq<TlsRecord>
    decreases flows.len(),
{
    if flows.len() == 0 {
        Seq::empty()
    } else {
        selected_records(flows.drop_last(), server, port) + spec_filter_tls_records(
            flows.last()@,
            server,
            port,
        )
    }
}

/// The time a record is ordered by.
pub open spec fn record_time() -> spec_fn(TlsRecord) -> i128 {
    |r: TlsRecord| r.time
}

/// The response a record carries.
pub open spec fn record_response() -> spec_fn(TlsRecord) -> AbstractQueryResponse {
    |r: TlsRecord| AbstractQueryResponse { time: r.time, size: (r.message_length - TLS_OVERHEAD) as u32 }
}

/// The selected records of all flows, ordered stably by time.
pub open spec fn ordered_records(flows: Seq<Vec<TlsRecord>>, server: u32, port: u16) -> Seq<TlsRecord> {
    stable_sorted(selected_records(flows, server, port), record_time())
}

/// The responses of a capture, in the order of their time.
pub open spec fn ordered_responses(flows: Seq<Vec<TlsRecord>>, server: u32, port: u16) -> Seq<
    AbstractQueryResponse,
> {
    ordered_records(flows, server, port).map_values(record_response())
}

/// The server a capture is read against: the given one, else the guessed one.
pub open spec fn chosen_server(flows: Seq<Vec<TlsRecord>>, filter: Option<(u32, u16)>) -> Option<(u32, u16)> {
    match filter {
        Some(f) => Some(f),
        None => match spec_guess(flatten_flows(flows)) {
            Ok(p) => Some(p),
            Err(_) => None,
        },
    }
}

/// Whether every selected record is larger than the encryption overhead.
pub open spec fn records_carry_messages(s: Seq<TlsRecord>) -> bool {
    forall|i: int| 0 <= i < s.len() ==> (#[trigger] s[i]).message_length >= TLS_OVERHEAD
}

/// Selects and orders the records of all flows against `server`.
fn select_and_order(flows: Vec<Vec<TlsRecord>>, server: u32, port: u16) -> (r: Vec<TlsRecord>)
    ensures
        r@ == ordered_records(flows@, server, port),
{
    let ghost all = flows@;
    let mut selected: Vec<TlsRecord> = Vec::new();
    let mut keys: Vec<i128> = Vec::new();
    let mut flows = flows;
    let mut rest: Vec<Vec<TlsRecord>> = Vec::new();
    // Take the flows out one by one, last first, and remember them to select in order.
    while flows.len() > 0
        invariant
            flows@.len() + rest@.len() == all.len(),
            flows@ == all.take(flows@.len() as int),
            forall|i: int| 0 <= i < rest@.len() ==> #[trigger] rest@[i] == all[all.len() - 1 - i],
        decreases flows@.len(),
    {
        let f = flows.pop().unwrap();
        rest.push(f);
        assert(flows@ =~= all.take(flows@.len() as int));
    }
    let mut k: usize = 0;
    let n = rest.len();
    assert(all.take(0) =~= Seq::<Vec<TlsRecord>>::empty());
    while rest.len() > 0
        invariant
            rest@.len() + k == n,
            n == all.len(),
            forall|i: int| 0 <= i < rest@.len() ==> #[trigger] rest@[i] == all[all.len() - 1 - i],
            selected@ == selected_records(all.take(k as int), server, port),
            keys@ == selected@.map_values(record_time()),
        decreases rest@.len(),
    {
        let f = rest.pop().unwrap();
        assert(f == all[k as int]);
        let chosen = filter_tls_records(f, server, port);
        let ghost before = selected@;
        let mut j: usize = 0;
        while j < chosen.len()
            invariant
                j <= chosen@.len(),
                selected@ == before + chosen@.take(j as int),
                keys@ == selected@.map_values(record_time()),
            decreases chosen@.len() - j,
        {
            selected.push(chosen[j]);
            keys.push(chosen[j].time);
            assert(selected@ =~= before + chosen@.take(j + 1));
            assert(keys@ =~= selected@.map_values(record_time()));
            j = j + 1;
        }
        assert(chosen@.take(chosen@.len() as int) =~= chosen@);
        assert(all.take(k + 1).drop_last() =~= all.take(k as int));
        assert(all.take(k + 1).last() == all[k as int]);
        k = k + 1;
    }
    assert(all.take(n as int) =~= all);
    stable_sort_by_key(selected, keys)
}

fn responses_of(records: &Vec<TlsRecord>) -> (r: Vec<AbstractQueryResponse>)
    requires
        records_carry_messages(records@),
    ensures
        r@ == records@.map_values(record_response()),
{
    let mut out: Vec<AbstractQueryResponse> = Vec::new();
    let mut i: usize = 0;
    while i < records.len()
        invariant
            i <= records@.len(),
            records_carry_messages(records@),
            out@ == records@.take(i as int).map_values(record_response()),
        decreases records@.len() - i,
    {
        assert(records@[i as int].message_length >= TLS_OVERHEAD);
        out.push(records[i].to_query_response());
        i = i + 1;
        assert(out@ =~= records@.take(i as int).map_values(record_response()));
    }
    assert(records@.take(records@.len() as int) =~= records@);
    out
}

/// What building a sequence from a capture needs: against the chosen server, every selected
/// record is larger than the encryption overhead, and the responses can be converted (see
/// [`convertible`] and [`times_in_range`]).
pub open spec fn capture_requirements(flows: Seq<Vec<TlsRecord>>, filter: Option<(u32, u16)>) -> bool {
    chosen_server(flows, filter) matches Some(server) ==> {
        &&& records_carry_messages(selected_records(flows, server.0, server.1))
        &&& convertible(ordered_responses(flows, server.0, server.1))
        &&& times_in_range(ordered_responses(flows, server.0, server.1))
    }
}

/// The selected records of the first flows start the selected records of all.
proof fn lemma_selected_prefix(flows: Seq<Vec<TlsRecord>>, k: int, server: u32, port: u16)
    requires
        0 <= k <= flows.len(),
    ensures
        selected_records(flows.take(k), server, port).len() <= selected_records(flows, server, port).len(),
        forall|x: int|
            0 <= x < selected_records(flows.take(k), server, port).len() ==> #[trigger] selected_records(
                flows.take(k),
                server,
                port,
            )[x] == selected_records(flows, server, port)[x],
    decreases flows.len(),
{
    if k < flows.len() {
        lemma_selected_prefix(flows.drop_last(), k, server, port);
        assert(flows.drop_last().take(k) =~= flows.take(k));
    } else {
        assert(flows.take(k) =~= flows);
    }
}

/// Flows with the same records select the same records.
proof fn lemma_selected_same(a: Seq<Vec<TlsRecord>>, b: Seq<Vec<TlsRecord>>, server: u32, port: u16)
    requires
        a.len() == b.len(),
        forall|i: int| 0 <= i < a.len() ==> (#[trigger] a[i])@ == b[i]@,
    ensures
        selected_records(a, server, port) == selected_records(b, server, port),
    decreases a.len(),
{
    if a.len() > 0 {
        lemma_selected_same(a.drop_last(), b.drop_last(), server, port);
        assert(a.last()@ == b.last()@);
    }
}

/// Whether responses can be built from a capture's records against the server `filter` or the
/// guessed one (see [`capture_requirements`]).
pub fn capture_requirements_hold(flows: &[Vec<TlsRecord>], filter: Option<(u32, u16)>) -> (r: bool)
    ensures
        r == capture_requirements(flows@, filter),
{
    let server = match filter {
        Some(f) => f,
        None => match guess_dns_flow_identifier(flows) {
            Ok(s) => s,
            Err(_) => return true,
        },
    };
    assert(chosen_server(flows@, filter) == Some(server));
    let mut i: usize = 0;
    assert(flows@.take(0) =~= Seq::<Vec<TlsRecord>>::empty());
    while i < flows.len()
        invariant
            i <= flows@.len(),
            chosen_server(flows@, filter) == Some(server),
            records_carry_messages(selected_records(flows@.take(i as int), server.0, server.1)),
        decreases flows@.len() - i,
    {
        let chosen = filter_tls_records(copy_records(&flows[i]), server.0, server.1);
        let ghost before = selected_records(flows@.take(i as int), server.0, server.1);
        assert(flows@.take(i + 1).drop_last() =~= flows@.take(i as int));
        assert(selected_records(flows@.take(i + 1), server.0, server.1) == before + chosen@);
        let mut j: usize = 0;
        while j < chosen.len()
            invariant
                i < flows@.len(),
                chosen_server(flows@, filter) == Some(server),
                j <= chosen@.len(),
                selected_records(flows@.take(i + 1), server.0, server.1) == before + chosen@,
                forall|x: int| 0 <= x < j ==> (#[trigger] chosen@[x]).message_length >= TLS_OVERHEAD,
            decreases chosen@.len() - j,
        {
            if chosen[j].message_length < TLS_OVERHEAD {
                proof {
                    lemma_selected_prefix(flows@, i + 1, server.0, server.1);
                    let at = before.len() + j;
                    assert((before + chosen@)[at] == chosen@[j as int]);
                    assert(selected_records(flows@.take(i + 1), server.0, server.1)[at] == chosen@[j as int]);
                    assert(selected_records(flows@, server.0, server.1)[at] == chosen@[j as int]);
                    assert(at < selected_records(flows@, server.0, server.1).len());
                    assert(!records_carry_messages(selected_records(flows@, server.0, server.1)));
                }
                return false;
            }
            j = j + 1;
        }
        i = i + 1;
    }
    assert(flows@.take(flows@.len() as int) =~= flows@);
    let mut copies: Vec<Vec<TlsRecord>> = Vec::new();
    let mut k: usize = 0;
    while k < flows.len()
        invariant
            k <= flows@.len(),
            copies@.len() == k,
            forall|x: int| 0 <= x < k ==> (#[trigger] copies@[x])@ == flows@[x]@,
        decreases flows@.len() - k,
    {
        copies.push(copy_records(&flows[k]));
        k = k + 1;
    }
    proof {
        lemma_selected_same(copies@, flows@, server.0, server.1);
        lemma_ordered_records_carry(flows@, server.0, server.1);
    }
    let records = select_and_order(copies, server.0, server.1);
    let responses = responses_of(&records);
    responses_convertible(responses.as_slice())
}

/// Selected records of one flow are records of that flow, and so are their orderings.
proof fn lemma_ordered_records_carry(flows: Seq<Vec<TlsRecord>>, server: u32, port: u16)
    requires
        records_carry_messages(selected_records(flows, server, port)),
    ensures
        records_carry_messages(ordered_records(flows, server, port)),
{
    let s = selected_records(flows, server, port);
    lemma_stable_sorted_map(s, record_time(), |r: TlsRecord| r, record_time());
    assert(s.map_values(|r: TlsRecord| r) =~= s);
    let order = crate::stable_sort::stable_order(s.map_values(record_time()));
    assert forall|j: int| 0 <= j < s.len() implies (#[trigger] ordered_records(flows, server, port)[j]).message_length
        >= TLS_OVERHEAD by {
        assert(ordered_records(flows, server, port)[j] == s[order[j]]);
    }
}

/// Builds the [`Sequence`] of the DNS responses of a capture, given as its TLS records grouped
/// by flow. The server is `filter`, or guessed (see [`guess_dns_flow_identifier`]).
pub fn build_sequence(
    flows: Vec<Vec<TlsRecord>>,
    filter: Option<(u32, u16)>,
    identifier: String,
    config: LoadSequenceConfig,
) -> (r: Result<Sequence, PcapError>)
    requires
        capture_requirements(flows@, filter),
    ensures
        match chosen_server(flows@, filter) {
            None => r matches Err(PcapError::NoUniqueServer { candidates }) && spec_guess(
                flatten_flows(flows@),
            ) == Err::<(u32, u16), Seq<(u32, u16)>>(candidates@),
            Some(server) => {
                let elements = spec_convert(ordered_responses(flows@, server.0, server.1), config);
                if ordered_responses(flows@, server.0, server.1).len() == 0 {
                    r matches Err(PcapError::EmptySequence)
                } else {
                    r matches Ok(s) && s.elements() == elements && s.identifier() == identifier@
                }
            },
        },
{
    let server = match filter {
        Some(f) => f,
        None => guess_dns_flow_identifier(flows.as_slice())?,
    };
    let ghost all = flows@;
    let records = select_and_order(flows, server.0, server.1);
    proof {
        lemma_ordered_records_carry(all, server.0, server.1);
    }
    let responses = responses_of(&records);
    match convert_to_sequence(responses.as_slice(), identifier, config) {
        Some(s) => Ok(s),
        None => Err(PcapError::EmptySequence),
    }
}

/// Builds the [`PrecisionSequence`] of the DNS responses of a capture, given as its TLS
/// records grouped by flow. The server is `filter`, or guessed.
pub fn build_precision_sequence(
    flows: Vec<Vec<TlsRecord>>,
    filter: Option<(u32, u16)>,
    identifier: String,
) -> (r: Result<PrecisionSequence, PcapError>)
    requires
        chosen_server(flows@, filter) matches Some(server) ==> records_carry_messages(
            selected_records(flows@, server.0, server.1),
        ),
    ensures
        match chosen_server(flows@, filter) {
            None => r matches Err(PcapError::NoUniqueServer { candidates }) && spec_guess(
                flatten_flows(flows@),
            ) == Err::<(u32, u16), Seq<(u32, u16)>>(candidates@),
            Some(server) => {
                let responses = ordered_responses(flows@, server.0, server.1);
                if responses.len() == 0 {
                    r matches Err(PcapError::EmptySequence)
                } else {
                    r matches Ok(s) && s.identifier() == identifier@ && s.events()
                        == responses.map_values(
                        |aqr: AbstractQueryResponse|
                            PrecisionSequenceEvent {
                                time: aqr.time,
                                size: aqr.size,
                                is_dummy_event: false,
                            },
                    )
                }
            },
        },
{
    let server = match filter {
        Some(f) => f,
        None => guess_dns_flow_identifier(flows.as_slice())?,
    };
    let ghost all = flows@;
    let records = select_and_order(flows, server.0, server.1);
    proof {
        lemma_ordered_records_carry(all, server.0, server.1);
    }
    let responses = responses_of(&records);
    match convert_to_precision_sequence(responses.as_slice(), identifier) {
        Some(s) => Ok(s),
        None => Err(PcapError::EmptySequence),
    }
}

} // verus!
