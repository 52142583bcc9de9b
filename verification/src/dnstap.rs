//! Matching the queries and responses of a dnstap recording, and building sequences from them.
//!
//! A recording is handed over as a list of [`DnstapEvent`]s, which hold what the matching
//! reads of each logged DNS message: its kind, the first question, the message id, the size,
//! the time stamps (in nanoseconds) and the client port.

use crate::load_sequence::{
    AbstractQueryResponse, LoadSequenceConfig, convert_to_sequence, convertible, spec_convert,
    times_in_range,
};
use crate::precision_sequence::{PrecisionSequence, convert_to_precision_sequence};
use crate::sequence::Sequence;
use crate::stable_sort::{lemma_stable_sorted_map, lemma_stable_sorted_short, stable_sort_by_key, stable_sorted};
use vstd::prelude::*;

verus! {

/// Source of a query or response.
#[derive(Clone, Copy, Debug, PartialEq, Eq, Structural, Hash)]
pub enum QuerySource {
    Client,
    Forwarder,
}

/// The kind of a logged DNS message.
#[derive(Clone, Copy, Debug, PartialEq, Eq, Structural, Hash)]
pub enum DnstapMessageType {
    ClientQuery,
    ClientResponse,
    ForwarderQuery,
    ForwarderResponse,
    /// Any other kind of message, which the matching skips.
    Other,
}

/// What the matching reads of a DNS message: its first question, its id and its size.
#[derive(Clone, Debug)]
pub struct DnsMessageInfo {
    /// Name of the first question, in the textual form ending with a dot.
    pub qname: String,
    /// Type of the first question, e.g. `A` or `AAAA`.
    pub qtype: String,
    pub id: u16,
    /// Size of the message in bytes.
    pub size: u32,
}

/// One logged DNS message.
#[derive(Clone, Debug)]
pub struct DnstapEvent {
    pub message_type: DnstapMessageType,
    pub query_message: Option<DnsMessageInfo>,
    pub response_message: Option<DnsMessageInfo>,
    /// Time of the query, in nanoseconds.
    pub query_time: Option<i128>,
    /// Time of the response, in nanoseconds.
    pub response_time: Option<i128>,
    pub query_port: Option<u16>,
}

/// Why a recording was refused.
#[derive(Clone, Copy, Debug, PartialEq, Eq, Structural)]
pub enum DnstapError {
    /// No client query for `start.example.` was found.
    MissingStartQuery,
    /// The number of client queries for `end.example.` is not one.
    EndQueryCount { count: usize },
    /// The number of client responses for `start.example.` is not one.
    StartResponseCount { count: usize },
    /// The number of client responses for `end.example.` is not one.
    EndResponseCount { count: usize },
    /// No query could be matched with its response.
    NoMatchedQueries,
    /// No forwarder query of type `A` was matched.
    NoForwarderTypeA,
    /// The sequence built from the recording would be empty.
    EmptySequence,
}

/// The name queried at the start of a measurement.
pub open spec fn start_name() -> Seq<char> {
    "start.example."@
}

/// The name queried at the end of a measurement.
pub open spec fn end_name() -> Seq<char> {
    "end.example."@
}

/// The name of the first question of `m`, if there is a message.
pub open spec fn question_name(m: Option<DnsMessageInfo>) -> Option<Seq<char>> {
    match m {
        Some(info) => Some(info.qname@),
        None => None,
    }
}

/// Whether `ev` is a client query for `name`.
pub open spec fn is_client_query_for(ev: DnstapEvent, name: Seq<char>) -> bool {
    ev.message_type == DnstapMessageType::ClientQuery && question_name(ev.query_message) == Some(
        name,
    )
}

/// Whether `ev` is a client response for `name`.
pub open spec fn is_client_response_for(ev: DnstapEvent, name: Seq<char>) -> bool {
    ev.message_type == DnstapMessageType::ClientResponse && question_name(ev.response_message)
        == Some(name)
}

/// Number of events in `s` that satisfy `p`.
pub open spec fn count_events(s: Seq<DnstapEvent>, p: spec_fn(DnstapEvent) -> bool) -> nat
    decreases s.len(),
{
    if s.len() == 0 {
        0
    } else {
        count_events(s.drop_last(), p) + if p(s.last()) {
            1nat
        } else {
            0nat
        }
    }
}

/// Whether the messages the sanity check reads are there: a client query carries its query
/// message, a client response its response message.
pub open spec fn client_messages_present(events: Seq<DnstapEvent>) -> bool {
    forall|i: int|
        0 <= i < events.len() ==> {
            let ev = #[trigger] events[i];
            &&& ev.message_type == DnstapMessageType::ClientQuery ==> ev.query_message is Some
            &&& ev.message_type == DnstapMessageType::ClientResponse ==> ev.response_message is Some
        }
}

/// The outcome of the sanity check of a recording.
pub open spec fn spec_sanity_check(events: Seq<DnstapEvent>) -> Result<(), DnstapError> {
    let start_queries = count_events(events, |ev: DnstapEvent| is_client_query_for(ev, start_name()));
    let end_queries = count_events(events, |ev: DnstapEvent| is_client_query_for(ev, end_name()));
    let start_responses = count_events(
        events,
        |ev: DnstapEvent| is_client_response_for(ev, start_name()),
    );
    let end_responses = count_events(
        events,
        |ev: DnstapEvent| is_client_response_for(ev, end_name()),
    );
    if start_queries == 0 {
        Err(DnstapError::MissingStartQuery)
    } else if end_queries != 1 {
        Err(DnstapError::EndQueryCount { count: end_queries as usize })
    } else if start_responses != 1 {
        Err(DnstapError::StartResponseCount { count: start_responses as usize })
    } else if end_responses != 1 {
        Err(DnstapError::EndResponseCount { count: end_responses as usize })
    } else {
        Ok(())
    }
}

proof fn lemma_count_bound(s: Seq<DnstapEvent>, p: spec_fn(DnstapEvent) -> bool)
    ensures
        count_events(s, p) <= s.len(),
    decreases s.len(),
{
    if s.len() > 0 {
        lemma_count_bound(s.drop_last(), p);
    }
}

/// Checks that a recording holds one measurement: at least one client query for
/// `start.example.`, and exactly one client query for `end.example.` and one client response
/// for each of the two names.
pub fn sanity_check_dnstap(events: &[DnstapEvent]) -> (r: Result<(), DnstapError>)
    requires
        client_messages_present(events@),
    ensures
        r == spec_sanity_check(events@),
{
    let start = "start.example.";
    let end = "end.example.";
    proof {
        reveal_strlit("start.example.");
        reveal_strlit("end.example.");
    }
    let mut start_queries: usize = 0;
    let mut end_queries: usize = 0;
    let mut start_responses: usize = 0;
    let mut end_responses: usize = 0;
    let mut i: usize = 0;
    while i < events.len()
        invariant
            i <= events@.len(),
            client_messages_present(events@),
            start@ == start_name(),
            end@ == end_name(),
            start_queries == count_events(
                events@.take(i as int),
                |ev: DnstapEvent| is_client_query_for(ev, start_name()),
            ),
            end_queries == count_events(
                events@.take(i as int),
                |ev: DnstapEvent| is_client_query_for(ev, end_name()),
            ),
            start_responses == count_events(
                events@.take(i as int),
                |ev: DnstapEvent| is_client_response_for(ev, start_name()),
            ),
            end_responses == count_events(
                events@.take(i as int),
                |ev: DnstapEvent| is_client_response_for(ev, end_name()),
            ),
        decreases events@.len() - i,
    {
        let ghost pre = events@.take(i + 1);
        proof {
            reveal_strlit("start.example.");
            reveal_strlit("end.example.");
            assert(start_name().len() != end_name().len());
            assert(pre.drop_last() =~= events@.take(i as int));
            assert(pre.last() == events@[i as int]);
            lemma_count_bound(events@.take(i as int), |ev: DnstapEvent| is_client_query_for(ev, start_name()));
            lemma_count_bound(events@.take(i as int), |ev: DnstapEvent| is_client_query_for(ev, end_name()));
            lemma_count_bound(events@.take(i as int), |ev: DnstapEvent| is_client_response_for(ev, start_name()));
            lemma_count_bound(events@.take(i as int), |ev: DnstapEvent| is_client_response_for(ev, end_name()));
        }
        let ev = &events[i];
        match ev.message_type {
            DnstapMessageType::ClientQuery => {
                let name = ev.query_message.as_ref().unwrap().qname.as_str();
                if str_eq(name, start) {
                    start_queries = start_queries + 1;
                } else if str_eq(name, end) {
                    end_queries = end_queries + 1;
                }
            },
            DnstapMessageType::ClientResponse => {
                let name = ev.response_message.as_ref().unwrap().qname.as_str();
                if str_eq(name, start) {
                    start_responses = start_responses + 1;
                } else if str_eq(name, end) {
                    end_responses = end_responses + 1;
                }
            },
            _ => {},
        }
        i = i + 1;
    }
    proof {
        assert(events@.take(events@.len() as int) =~= events@);
    }
    if start_queries == 0 {
        Err(DnstapError::MissingStartQuery)
    } else if end_queries != 1 {
        Err(DnstapError::EndQueryCount { count: end_queries })
    } else if start_responses != 1 {
        Err(DnstapError::StartResponseCount { count: start_responses })
    } else if end_responses != 1 {
        Err(DnstapError::EndResponseCount { count: end_responses })
    } else {
        Ok(())
    }
}

/// Whether two strings hold the same characters.
fn str_eq(a: &str, b: &str) -> (r: bool)
    ensures
        r == (a@ == b@),
{
    let n = a.unicode_len();
    if n != b.unicode_len() {
        return false;
    }
    let mut i: usize = 0;
    while i < n
        invariant
            i <= n,
            n == a@.len(),
            n == b@.len(),
            forall|j: int| 0 <= j < i ==> a@[j] == b@[j],
        decreases n - i,
    {
        if a.get_char(i) != b.get_char(i) {
            return false;
        }
        i = i + 1;
    }
    assert(a@ =~= b@);
    true
}

// ---------------------------------------------------------------------------------------------
// Ordering the events

/// Whether `ev` carries a time stamp to be ordered by.
pub open spec fn has_time(ev: DnstapEvent) -> bool {
    ev.response_time is Some || ev.query_time is Some
}

/// The time an event is ordered by: the response time if there is one, else the query time.
pub open spec fn spec_event_time(ev: DnstapEvent) -> i128 {
    match ev.response_time {
        Some(t) => t,
        None => ev.query_time.unwrap(),
    }
}

/// The events ordered stably by their time.
pub open spec fn spec_sort_events(events: Seq<DnstapEvent>) -> Seq<DnstapEvent> {
    stable_sorted(events, |ev: DnstapEvent| spec_event_time(ev))
}

fn event_time(ev: &DnstapEvent) -> (r: i128)
    requires
        has_time(*ev),
    ensures
        r == spec_event_time(*ev),
{
    match ev.response_time {
        Some(t) => t,
        None => ev.query_time.unwrap(),
    }
}

/// Orders the events stably by their time (the response time, else the query time).
pub fn sort_events(events: Vec<DnstapEvent>) -> (r: Vec<DnstapEvent>)
    requires
        events@.len() >= 2 ==> forall|i: int| 0 <= i < events@.len() ==> has_time(#[trigger] events@[i]),
    ensures
        r@ == spec_sort_events(events@),
{
    if events.len() < 2 {
        proof {
            lemma_stable_sorted_short(events@, |ev: DnstapEvent| spec_event_time(ev));
        }
        return events;
    }
    let mut keys: Vec<i128> = Vec::new();
    let mut i: usize = 0;
    while i < events.len()
        invariant
            i <= events@.len(),
            forall|j: int| 0 <= j < events@.len() ==> has_time(#[trigger] events@[j]),
            keys@ == events@.take(i as int).map_values(|ev: DnstapEvent| spec_event_time(ev)),
        decreases events@.len() - i,
    {
        keys.push(event_time(&events[i]));
        i = i + 1;
        assert(keys@ =~= events@.take(i as int).map_values(|ev: DnstapEvent| spec_event_time(ev)));
    }
    assert(events@.take(events@.len() as int) =~= events@);
    stable_sort_by_key(events, keys)
}

// ---------------------------------------------------------------------------------------------
// The measurement window

/// Whether `ev` is a client query (if `query`) or a client response (if not) for `name`.
pub open spec fn is_client_message_for(ev: DnstapEvent, name: Seq<char>, query: bool) -> bool {
    if query {
        is_client_query_for(ev, name)
    } else {
        is_client_response_for(ev, name)
    }
}

/// The first position from `i` on whose event is a client query (if `query`) or a client
/// response (if not) for `name`, or the length if there is none.
pub open spec fn first_from(s: Seq<DnstapEvent>, name: Seq<char>, query: bool, i: int) -> int
    decreases s.len() - i,
{
    if i >= s.len() {
        s.len() as int
    } else if is_client_message_for(s[i], name, query) {
        i
    } else {
        first_from(s, name, query, i + 1)
    }
}

/// Where the measurement starts: after the client response for `start.example.`.
pub open spec fn window_start(s: Seq<DnstapEvent>) -> int {
    let a = first_from(s, start_name(), false, 0);
    if a < s.len() {
        a + 1
    } else {
        s.len() as int
    }
}

/// Where the measurement ends: at the client query for `end.example.`.
pub open spec fn window_end(s: Seq<DnstapEvent>) -> int {
    first_from(s, end_name(), true, window_start(s))
}

/// The events of the measurement: after the client response for `start.example.`, up to the
/// client query for `end.example.`.
pub open spec fn window(s: Seq<DnstapEvent>) -> Seq<DnstapEvent> {
    s.subrange(window_start(s), window_end(s))
}

proof fn lemma_first_from_bounds(s: Seq<DnstapEvent>, name: Seq<char>, query: bool, i: int)
    requires
        0 <= i <= s.len(),
    ensures
        i <= first_from(s, name, query, i) <= s.len(),
    decreases s.len() - i,
{
    if i < s.len() && !is_client_message_for(s[i], name, query) {
        lemma_first_from_bounds(s, name, query, i + 1);
    }
}

/// Finds the first position from `from` on whose event is a client query (if `query`) or a
/// client response (if not) for `name`.
fn find_client_message(events: &Vec<DnstapEvent>, from: usize, query: bool, name: &str) -> (r: usize)
    requires
        from <= events@.len(),
        client_messages_present(events@),
    ensures
        r == first_from(events@, name@, query, from as int),
{
    let mut i = from;
    while i < events.len()
        invariant
            from <= i <= events@.len(),
            client_messages_present(events@),
            first_from(events@, name@, query, from as int) == first_from(events@, name@, query, i as int),
        decreases events@.len() - i,
    {
        let ev = &events[i];
        let hit = if query {
            ev.message_type == DnstapMessageType::ClientQuery && str_eq(
                ev.query_message.as_ref().unwrap().qname.as_str(),
                name,
            )
        } else {
            ev.message_type == DnstapMessageType::ClientResponse && str_eq(
                ev.response_message.as_ref().unwrap().qname.as_str(),
                name,
            )
        };
        if hit {
            return i;
        }
        i = i + 1;
    }
    i
}

// ---------------------------------------------------------------------------------------------
// Matching queries with their responses

/// A query matched with its response.
#[derive(Clone, Debug)]
pub struct Query {
    pub source: QuerySource,
    pub qname: String,
    pub qtype: String,
    /// Time of the query, in nanoseconds.
    pub start: i128,
    /// Time of the response, in nanoseconds.
    pub end: i128,
    pub query_size: u32,
    pub response_size: u32,
}

/// A [`Query`] with its strings as character sequences.
pub struct QueryView {
    pub source: QuerySource,
    pub qname: Seq<char>,
    pub qtype: Seq<char>,
    pub start: i128,
    pub end: i128,
    pub query_size: u32,
    pub response_size: u32,
}

impl View for Query {
    type V = QueryView;

    open spec fn view(&self) -> QueryView {
        QueryView {
            source: self.source,
            qname: self.qname@,
            qtype: self.qtype@,
            start: self.start,
            end: self.end,
            query_size: self.query_size,
            response_size: self.response_size,
        }
    }
}

impl Query {
    /// The response of this query, as the sequence builders take it: its time and size.
    pub fn to_query_response(&self) -> (r: AbstractQueryResponse)
        ensures
            r.time == self.end,
            r.size == self.response_size,
    {
        AbstractQueryResponse { time: self.end, size: self.response_size }
    }
}

/// The views of a list of queries.
pub open spec fn query_views(qs: Seq<Query>) -> Seq<QueryView> {
    qs.map_values(|q: Query| q@)
}

/// The key a query is matched by: name, type, message id and client port.
pub type MatchKey = (Seq<char>, Seq<char>, u16, u16);

/// What is kept of a query until its response arrives: its time and size.
pub type Pending = (i128, u32);

/// The key of a message of `info` from port `port`.
pub open spec fn match_key(info: DnsMessageInfo, port: u16) -> MatchKey {
    (info.qname@, info.qtype@, info.id, port)
}

/// The state of the matching: open client and forwarder queries, and the matched queries.
pub struct MatchState {
    pub client: Map<MatchKey, Pending>,
    pub forwarder: Map<MatchKey, Pending>,
    pub matched: Seq<QueryView>,
}

/// The matching state before any event.
pub open spec fn initial_match_state() -> MatchState {
    MatchState { client: Map::empty(), forwarder: Map::empty(), matched: Seq::empty() }
}

/// The matched query for the response `info` to the pending query `p`.
pub open spec fn matched_view(source: QuerySource, info: DnsMessageInfo, start: i128, end: i128, p: Pending) -> QueryView {
    QueryView {
        source,
        qname: info.qname@,
        qtype: info.qtype@,
        start,
        end,
        query_size: p.1,
        response_size: info.size,
    }
}

/// One step of the matching: a query is remembered under its key (replacing an earlier one with
/// the same key), a response is matched with the query under its key, if there is one. Client
/// messages are keyed with their port, forwarder messages with port 0. A matched client query
/// starts at the time of the query, a matched forwarder query at the query time logged with the
/// response.
pub open spec fn match_step(st: MatchState, ev: DnstapEvent) -> MatchState {
    match ev.message_type {
        DnstapMessageType::ClientQuery => {
            let q = ev.query_message.unwrap();
            MatchState {
                client: st.client.insert(
                    match_key(q, ev.query_port.unwrap()),
                    (ev.query_time.unwrap(), q.size),
                ),
                ..st
            }
        },
        DnstapMessageType::ClientResponse => {
            let r = ev.response_message.unwrap();
            let k = match_key(r, ev.query_port.unwrap());
            if st.client.contains_key(k) {
                MatchState {
                    client: st.client.remove(k),
                    matched: st.matched.push(
                        matched_view(
                            QuerySource::Client,
                            r,
                            st.client[k].0,
                            ev.response_time.unwrap(),
                            st.client[k],
                        ),
                    ),
                    ..st
                }
            } else {
                st
            }
        },
        DnstapMessageType::ForwarderQuery => {
            let q = ev.query_message.unwrap();
            MatchState {
                forwarder: st.forwarder.insert(match_key(q, 0), (ev.query_time.unwrap(), q.size)),
                ..st
            }
        },
        DnstapMessageType::ForwarderResponse => {
            let r = ev.response_message.unwrap();
            let k = match_key(r, 0);
            if st.forwarder.contains_key(k) {
                MatchState {
                    forwarder: st.forwarder.remove(k),
                    matched: st.matched.push(
                        matched_view(
                            QuerySource::Forwarder,
                            r,
                            ev.query_time.unwrap(),
                            ev.response_time.unwrap(),
                            st.forwarder[k],
                        ),
                    ),
                    ..st
                }
            } else {
                st
            }
        },
        DnstapMessageType::Other => st,
    }
}

/// The matching state after all of `events`.
pub open spec fn match_all(events: Seq<DnstapEvent>) -> MatchState
    decreases events.len(),
{
    if events.len() == 0 {
        initial_match_state()
    } else {
        match_step(match_all(events.drop_last()), events.last())
    }
}

/// Whether `ev` carries what the matching reads of it.
pub open spec fn event_complete(ev: DnstapEvent) -> bool {
    match ev.message_type {
        DnstapMessageType::ClientQuery => ev.query_message is Some && ev.query_time is Some
            && ev.query_port is Some,
        DnstapMessageType::ClientResponse => ev.response_message is Some && ev.response_time
            is Some && ev.query_port is Some,
        DnstapMessageType::ForwarderQuery => ev.query_message is Some && ev.query_time is Some,
        DnstapMessageType::ForwarderResponse => ev.response_message is Some && ev.query_time
            is Some && ev.response_time is Some,
        DnstapMessageType::Other => true,
    }
}

/// A query waiting for its response.
struct PendingEntry {
    qname: String,
    qtype: String,
    id: u16,
    port: u16,
    start: i128,
    size: u32,
}

/// Queries waiting for their responses, at most one per key.
struct PendingQueries {
    entries: Vec<PendingEntry>,
    model: Ghost<Map<MatchKey, Pending>>,
}

spec fn entry_key(e: PendingEntry) -> MatchKey {
    (e.qname@, e.qtype@, e.id, e.port)
}

spec fn has_entry_for(entries: Seq<PendingEntry>, k: MatchKey) -> bool {
    exists|i: int| 0 <= i < entries.len() && #[trigger] entry_key(entries[i]) == k
}

impl PendingQueries {
    spec fn wf(&self) -> bool {
        &&& forall|i: int|
            0 <= i < self.entries@.len() ==> self.model@.contains_key(
                #[trigger] entry_key(self.entries@[i]),
            ) && self.model@[entry_key(self.entries@[i])] == (
                self.entries@[i].start,
                self.entries@[i].size,
            )
        &&& forall|k: MatchKey| #[trigger]
            self.model@.contains_key(k) ==> has_entry_for(self.entries@, k)
        &&& forall|i: int, j: int|
            0 <= i < j < self.entries@.len() ==> entry_key(#[trigger] self.entries@[i])
                != entry_key(#[trigger] self.entries@[j])
    }

    fn new() -> (r: Self)
        ensures
            r.wf(),
            r.model@ == Map::<MatchKey, Pending>::empty(),
    {
        PendingQueries { entries: Vec::new(), model: Ghost(Map::empty()) }
    }

    /// Position of the entry for the key, if there is one.
    fn find(&self, qname: &String, qtype: &String, id: u16, port: u16) -> (r: Option<usize>)
        requires
            self.wf(),
        ensures
            match r {
                Some(i) => i < self.entries@.len() && entry_key(self.entries@[i as int]) == (
                    qname@,
                    qtype@,
                    id,
                    port,
                ),
                None => !self.model@.contains_key((qname@, qtype@, id, port)),
            },
    {
        let mut i: usize = 0;
        while i < self.entries.len()
            invariant
                i <= self.entries@.len(),
                forall|j: int|
                    0 <= j < i ==> entry_key(#[trigger] self.entries@[j]) != (
                        qname@,
                        qtype@,
                        id,
                        port,
                    ),
            decreases self.entries@.len() - i,
        {
            let e = &self.entries[i];
            if e.id == id && e.port == port && e.qname == *qname && e.qtype == *qtype {
                return Some(i);
            }
            i = i + 1;
        }
        None
    }

    /// Remembers a query under its key, replacing an earlier one with the same key.
    fn insert(&mut self, qname: &String, qtype: &String, id: u16, port: u16, start: i128, size: u32)
        requires
            old(self).wf(),
        ensures
            final(self).wf(),
            final(self).model@ == old(self).model@.insert((qname@, qtype@, id, port), (start, size)),
    {
        let ghost k = (qname@, qtype@, id, port);
        let entry = PendingEntry {
            qname: qname.clone(),
            qtype: qtype.clone(),
            id,
            port,
            start,
            size,
        };
        assert(entry_key(entry) == k);
        let ghost mut pos: int = 0;
        match self.find(qname, qtype, id, port) {
            Some(i) => {
                self.entries.set(i, entry);
                proof {
                    pos = i as int;
                }
            },
            None => {
                self.entries.push(entry);
                proof {
                    pos = self.entries@.len() - 1;
                }
            },
        }
        assert(entry_key(self.entries@[pos]) == k);
        self.model = Ghost(self.model@.insert(k, (start, size)));
        proof {
            assert forall|k2: MatchKey| #[trigger] self.model@.contains_key(k2) implies has_entry_for(
                self.entries@,
                k2,
            ) by {
                if k2 == k {
                    assert(entry_key(self.entries@[pos]) == k2);
                } else {
                    assert(old(self).model@.contains_key(k2));
                    let i = choose|i: int|
                        0 <= i < old(self).entries@.len() && #[trigger] entry_key(old(self).entries@[i]) == k2;
                    assert(entry_key(self.entries@[i]) == k2);
                }
            }
        }
    }

    /// Takes out the query under the key, if there is one.
    fn remove(&mut self, qname: &String, qtype: &String, id: u16, port: u16) -> (r: Option<Pending>)
        requires
            old(self).wf(),
        ensures
            final(self).wf(),
            ({
                let k = (qname@, qtype@, id, port);
                if old(self).model@.contains_key(k) {
                    r == Some(old(self).model@[k]) && final(self).model@ == old(self).model@.remove(k)
                } else {
                    r is None && final(self).model@ == old(self).model@
                }
            }),
    {
        let ghost k = (qname@, qtype@, id, port);
        match self.find(qname, qtype, id, port) {
            Some(i) => {
                let e = self.entries.remove(i);
                let r = (e.start, e.size);
                self.model = Ghost(self.model@.remove(k));
                proof {
                    let old_entries = old(self).entries@;
                    assert forall|j: int| 0 <= j < self.entries@.len() implies self.model@.contains_key(
                        #[trigger] entry_key(self.entries@[j]),
                    ) && self.model@[entry_key(self.entries@[j])] == (
                        self.entries@[j].start,
                        self.entries@[j].size,
                    ) by {
                        if j < i {
                            assert(self.entries@[j] == old_entries[j]);
                        } else {
                            assert(self.entries@[j] == old_entries[j + 1]);
                        }
                    }
                    assert forall|k2: MatchKey| #[trigger]
                        self.model@.contains_key(k2) implies has_entry_for(self.entries@, k2) by {
                        assert(old(self).model@.contains_key(k2));
                        let j = choose|j: int|
                            0 <= j < old_entries.len() && #[trigger] entry_key(old_entries[j]) == k2;
                        if j < i {
                            assert(entry_key(self.entries@[j]) == k2);
                        } else {
                            assert(j != i);
                            assert(entry_key(self.entries@[j - 1]) == k2);
                        }
                    }
                    assert forall|a: int, b: int|
                        0 <= a < b < self.entries@.len() implies entry_key(#[trigger] self.entries@[a])
                        != entry_key(#[trigger] self.entries@[b]) by {
                        let a0 = if a < i { a } else { a + 1 };
                        let b0 = if b < i { b } else { b + 1 };
                        assert(self.entries@[a] == old_entries[a0]);
                        assert(self.entries@[b] == old_entries[b0]);
                    }
                }
                Some(r)
            },
            None => None,
        }
    }
}

/// Whether `q` is noise: a query of type `NULL` for a name starting with `_ta`, which is how
/// resolvers signal the trusted DNSSEC root keys.
pub open spec fn is_noise(q: QueryView) -> bool {
    q.qtype == "NULL"@ && q.qname.len() >= 3 && q.qname.take(3) == "_ta"@
}

/// Whether `q` is kept: it is no noise, or its name is empty.
pub open spec fn is_kept(q: QueryView) -> bool {
    !is_noise(q) || q.qname.len() == 0
}

/// The queries of `s` that are kept, in their order.
pub open spec fn kept_queries(s: Seq<QueryView>) -> Seq<QueryView>
    decreases s.len(),
{
    if s.len() == 0 {
        s
    } else if is_kept(s.last()) {
        kept_queries(s.drop_last()).push(s.last())
    } else {
        kept_queries(s.drop_last())
    }
}

proof fn lemma_kept_push(m: Seq<QueryView>, x: QueryView)
    ensures
        kept_queries(m.push(x)) == if is_kept(x) {
            kept_queries(m).push(x)
        } else {
            kept_queries(m)
        },
{
    assert(m.push(x).drop_last() =~= m);
}

fn is_kept_query(q: &Query) -> (r: bool)
    ensures
        r == is_kept(q@),
{
    proof {
        reveal_strlit("NULL");
        reveal_strlit("_ta");
    }
    let name = q.qname.as_str();
    let n = name.unicode_len();
    let null = str_eq(q.qtype.as_str(), "NULL");
    let ta = n >= 3 && name.get_char(0) == '_' && name.get_char(1) == 't' && name.get_char(2) == 'a';
    proof {
        assert("_ta"@ =~= seq!['_', 't', 'a']);
        if n >= 3 {
            if ta {
                assert(name@.take(3) =~= "_ta"@);
            }
            if name@.take(3) == "_ta"@ {
                assert(name@.take(3)[0] == name@[0] && name@.take(3)[1] == name@[1] && name@.take(3)[2]
                    == name@[2]);
            }
        }
    }
    !(null && ta) || n == 0
}

/// The matched query for the response `info`, or nothing if it is noise.
fn push_kept(out: &mut Vec<Query>, q: Query)
    ensures
        query_views(final(out)@) == if is_kept(q@) {
            query_views(old(out)@).push(q@)
        } else {
            query_views(old(out)@)
        },
{
    if is_kept_query(&q) {
        out.push(q);
        assert(query_views(out@) =~= query_views(old(out)@).push(q@));
    }
}

/// Matches the queries with their responses among the events `events[from..to]`, in their
/// order, and keeps the matched queries that are no noise.
pub fn match_queries(events: &Vec<DnstapEvent>, from: usize, to: usize) -> (r: Vec<Query>)
    requires
        from <= to <= events@.len(),
        forall|i: int| from <= i < to ==> event_complete(#[trigger] events@[i]),
    ensures
        query_views(r@) == kept_queries(match_all(events@.subrange(from as int, to as int)).matched),
{
    let mut client = PendingQueries::new();
    let mut forwarder = PendingQueries::new();
    let mut out: Vec<Query> = Vec::new();
    let mut i = from;
    assert(events@.subrange(from as int, from as int) =~= Seq::<DnstapEvent>::empty());
    while i < to
        invariant
            from <= i <= to <= events@.len(),
            forall|j: int| from <= j < to ==> event_complete(#[trigger] events@[j]),
            client.wf(),
            forwarder.wf(),
            client.model@ == match_all(events@.subrange(from as int, i as int)).client,
            forwarder.model@ == match_all(events@.subrange(from as int, i as int)).forwarder,
            query_views(out@) == kept_queries(match_all(events@.subrange(from as int, i as int)).matched),
        decreases to - i,
    {
        let ghost pre = events@.subrange(from as int, i as int);
        let ghost st = match_all(pre);
        let ev = &events[i];
        assert(event_complete(*ev));
        assert(events@.subrange(from as int, i + 1).drop_last() =~= pre);
        match ev.message_type {
            DnstapMessageType::ClientQuery => {
                let q = ev.query_message.as_ref().unwrap();
                client.insert(
                    &q.qname,
                    &q.qtype,
                    q.id,
                    ev.query_port.unwrap(),
                    ev.query_time.unwrap(),
                    q.size,
                );
            },
            DnstapMessageType::ClientResponse => {
                let r = ev.response_message.as_ref().unwrap();
                let end = ev.response_time.unwrap();
                match client.remove(&r.qname, &r.qtype, r.id, ev.query_port.unwrap()) {
                    Some(p) => {
                        let q = Query {
                            source: QuerySource::Client,
                            qname: r.qname.clone(),
                            qtype: r.qtype.clone(),
                            start: p.0,
                            end,
                            query_size: p.1,
                            response_size: r.size,
                        };
                        assert(q@ == matched_view(QuerySource::Client, *r, p.0, end, p));
                        proof {
                            lemma_kept_push(st.matched, q@);
                        }
                        push_kept(&mut out, q);
                    },
                    None => {},
                }
            },
            DnstapMessageType::ForwarderQuery => {
                let q = ev.query_message.as_ref().unwrap();
                forwarder.insert(&q.qname, &q.qtype, q.id, 0, ev.query_time.unwrap(), q.size);
            },
            DnstapMessageType::ForwarderResponse => {
                let r = ev.response_message.as_ref().unwrap();
                let start = ev.query_time.unwrap();
                let end = ev.response_time.unwrap();
                match forwarder.remove(&r.qname, &r.qtype, r.id, 0) {
                    Some(p) => {
                        let q = Query {
                            source: QuerySource::Forwarder,
                            qname: r.qname.clone(),
                            qtype: r.qtype.clone(),
                            start,
                            end,
                            query_size: p.1,
                            response_size: r.size,
                        };
                        assert(q@ == matched_view(QuerySource::Forwarder, *r, start, end, p));
                        proof {
                            lemma_kept_push(st.matched, q@);
                        }
                        push_kept(&mut out, q);
                    },
                    None => {},
                }
            },
            DnstapMessageType::Other => {},
        }
        i = i + 1;
    }
    out
}

// ---------------------------------------------------------------------------------------------
// The whole recording

/// The time a query is ordered by: its end.
pub open spec fn query_end() -> spec_fn(Query) -> i128 {
    |q: Query| q.end
}

/// The time a query view is ordered by: its end.
pub open spec fn query_view_end() -> spec_fn(QueryView) -> i128 {
    |q: QueryView| q.end
}

/// The view of a query.
pub open spec fn query_view() -> spec_fn(Query) -> QueryView {
    |q: Query| q@
}

/// The matched queries of a recording, ordered by the time of their response.
pub open spec fn spec_matched_queries(events: Seq<DnstapEvent>) -> Seq<QueryView> {
    let sorted = spec_sort_events(events);
    stable_sorted(kept_queries(match_all(window(sorted)).matched), query_view_end())
}

/// Whether a forwarder query of type `A` is among `s`.
pub open spec fn has_forwarder_a(s: Seq<QueryView>) -> bool {
    exists|i: int|
        0 <= i < s.len() && (#[trigger] s[i]).source == QuerySource::Forwarder && s[i].qtype
            == "A"@
}

/// The outcome of the check of the matched queries.
pub open spec fn spec_check_matched(s: Seq<QueryView>) -> Result<(), DnstapError> {
    if s.len() == 0 {
        Err(DnstapError::NoMatchedQueries)
    } else if !has_forwarder_a(s) {
        Err(DnstapError::NoForwarderTypeA)
    } else {
        Ok(())
    }
}

/// The outcome of matching a recording: the sanity check of the ordered events, then the
/// matched queries of the measurement, which must not be empty and must hold a forwarder query
/// of type `A`.
pub open spec fn spec_load(events: Seq<DnstapEvent>) -> Result<Seq<QueryView>, DnstapError> {
    match spec_sanity_check(spec_sort_events(events)) {
        Err(e) => Err(e),
        Ok(_) => {
            let m = spec_matched_queries(events);
            match spec_check_matched(m) {
                Err(e) => Err(e),
                Ok(_) => Ok(m),
            }
        },
    }
}

/// What a recording must carry to be matched: time stamps to order the events by (needed once
/// there are two events), the messages of the client queries and responses, and, if the sanity
/// check passes, what the matching reads of each event of the measurement.
pub open spec fn load_requirements(events: Seq<DnstapEvent>) -> bool {
    &&& events.len() >= 2 ==> forall|i: int| 0 <= i < events.len() ==> has_time(#[trigger] events[i])
    &&& client_messages_present(events)
    &&& spec_sanity_check(spec_sort_events(events)) is Ok ==> forall|i: int|
        0 <= i < window(spec_sort_events(events)).len() ==> event_complete(
            #[trigger] window(spec_sort_events(events))[i],
        )
}

/// Checks that some query was matched and that a forwarder query of type `A` is among them.
pub fn sanity_check_matched_queries(matched: &[Query]) -> (r: Result<(), DnstapError>)
    ensures
        r == spec_check_matched(query_views(matched@)),
{
    proof {
        reveal_strlit("A");
    }
    if matched.len() == 0 {
        return Err(DnstapError::NoMatchedQueries);
    }
    let mut i: usize = 0;
    while i < matched.len()
        invariant
            i <= matched@.len(),
            forall|j: int|
                0 <= j < i ==> !((#[trigger] query_views(matched@)[j]).source == QuerySource::Forwarder
                    && query_views(matched@)[j].qtype == "A"@),
        decreases matched@.len() - i,
    {
        let q = &matched[i];
        if q.source == QuerySource::Forwarder && str_eq(q.qtype.as_str(), "A") {
            assert(query_views(matched@)[i as int] == q@);
            return Ok(());
        }
        assert(query_views(matched@)[i as int] == q@);
        i = i + 1;
    }
    Err(DnstapError::NoForwarderTypeA)
}

/// Sorting keeps each event: every event of the ordered list is one of the given ones.
proof fn lemma_sorted_events_from(events: Seq<DnstapEvent>)
    ensures
        spec_sort_events(events).len() == events.len(),
        forall|j: int| 0 <= j < events.len() ==> events.contains(#[trigger] spec_sort_events(events)[j]),
{
    let key = |ev: DnstapEvent| spec_event_time(ev);
    lemma_stable_sorted_map(events, key, |ev: DnstapEvent| ev, key);
    assert(events.map_values(|ev: DnstapEvent| ev) =~= events);
    let order = crate::stable_sort::stable_order(events.map_values(key));
    assert forall|j: int| 0 <= j < events.len() implies events.contains(
        #[trigger] spec_sort_events(events)[j],
    ) by {
        assert(spec_sort_events(events)[j] == events[order[j]]);
    }
}

/// Matches the queries of a recording with their responses.
///
/// The events are ordered by time and checked (see [`sanity_check_dnstap`]); the events of the
/// measurement, between the client response for `start.example.` and the client query for
/// `end.example.`, are matched (see [`match_step`]); noise is dropped (see [`is_kept`]); the
/// matched queries are ordered by the time of their response and checked (see
/// [`sanity_check_matched_queries`]).
pub fn load_matching_query_responses_from_dnstap(events: Vec<DnstapEvent>) -> (r: Result<
    Vec<Query>,
    DnstapError,
>)
    requires
        load_requirements(events@),
    ensures
        match r {
            Ok(qs) => spec_load(events@) == Ok::<Seq<QueryView>, DnstapError>(query_views(qs@)),
            Err(e) => spec_load(events@) == Err::<Seq<QueryView>, DnstapError>(e),
        },
{
    let ghost input = events@;
    proof {
        lemma_sorted_events_from(input);
        assert forall|j: int| 0 <= j < spec_sort_events(input).len() implies {
            let ev = #[trigger] spec_sort_events(input)[j];
            &&& ev.message_type == DnstapMessageType::ClientQuery ==> ev.query_message is Some
            &&& ev.message_type == DnstapMessageType::ClientResponse ==> ev.response_message is Some
        } by {
            let i = choose|i: int| 0 <= i < input.len() && spec_sort_events(input)[j] == input[i];
            assert(input[i] == input[i]);
        }
    }
    let sorted = sort_events(events);
    if let Err(e) = sanity_check_dnstap(sorted.as_slice()) {
        return Err(e);
    }
    proof {
        reveal_strlit("start.example.");
        reveal_strlit("end.example.");
    }
    let after_start = find_client_message(&sorted, 0, false, "start.example.");
    let from = if after_start < sorted.len() {
        after_start + 1
    } else {
        sorted.len()
    };
    let to = find_client_message(&sorted, from, true, "end.example.");
    proof {
        lemma_first_from_bounds(sorted@, start_name(), false, 0);
        lemma_first_from_bounds(sorted@, end_name(), true, from as int);
        assert(from == window_start(sorted@));
        assert(to == window_end(sorted@));
        assert forall|i: int| from <= i < to implies event_complete(#[trigger] sorted@[i]) by {
            assert(window(sorted@)[i - from] == sorted@[i]);
        }
    }
    let kept = match_queries(&sorted, from, to);
    let mut keys: Vec<i128> = Vec::new();
    let mut i: usize = 0;
    while i < kept.len()
        invariant
            i <= kept@.len(),
            keys@ == kept@.take(i as int).map_values(query_end()),
        decreases kept@.len() - i,
    {
        keys.push(kept[i].end);
        i = i + 1;
        assert(keys@ =~= kept@.take(i as int).map_values(query_end()));
    }
    let ghost kept_seq = kept@;
    assert(kept_seq.take(kept_seq.len() as int) =~= kept_seq);
    let result = stable_sort_by_key(kept, keys);
    proof {
        lemma_stable_sorted_map(kept_seq, query_end(), query_view(), query_view_end());
        assert(query_views(kept_seq) =~= kept_seq.map_values(query_view()));
        assert(query_views(result@) =~= stable_sorted(kept_seq, query_end()).map_values(query_view()));
        assert(query_views(result@) == spec_matched_queries(input));
    }
    match sanity_check_matched_queries(result.as_slice()) {
        Err(e) => Err(e),
        Ok(()) => Ok(result),
    }
}

/// The responses of the forwarder queries among `qs`, in their order, as time and size.
pub open spec fn forwarder_responses(qs: Seq<QueryView>) -> Seq<AbstractQueryResponse>
    decreases qs.len(),
{
    if qs.len() == 0 {
        Seq::empty()
    } else if qs.last().source == QuerySource::Forwarder {
        forwarder_responses(qs.drop_last()).push(
            AbstractQueryResponse { time: qs.last().end, size: qs.last().response_size },
        )
    } else {
        forwarder_responses(qs.drop_last())
    }
}

fn forwarder_query_responses(qs: &Vec<Query>) -> (r: Vec<AbstractQueryResponse>)
    ensures
        r@ == forwarder_responses(query_views(qs@)),
{
    let mut out: Vec<AbstractQueryResponse> = Vec::new();
    let mut i: usize = 0;
    while i < qs.len()
        invariant
            i <= qs@.len(),
            out@ == forwarder_responses(query_views(qs@.take(i as int))),
        decreases qs@.len() - i,
    {
        assert(query_views(qs@.take(i + 1)).drop_last() =~= query_views(qs@.take(i as int)));
        assert(query_views(qs@.take(i + 1)).last() == qs@[i as int]@);
        if qs[i].source == QuerySource::Forwarder {
            out.push(qs[i].to_query_response());
        }
        i = i + 1;
    }
    assert(qs@.take(qs@.len() as int) =~= qs@);
    out
}

/// What building a sequence from a recording needs beyond matching it: the responses of the
/// forwarder queries can be converted (see [`convertible`] and [`times_in_range`]).
pub open spec fn sequence_requirements(events: Seq<DnstapEvent>) -> bool {
    &&& load_requirements(events)
    &&& spec_load(events) matches Ok(qs) ==> convertible(forwarder_responses(qs))
        && times_in_range(forwarder_responses(qs))
}

/// Builds the [`Sequence`] of the forwarder responses of a recording.
pub fn build_sequence(events: Vec<DnstapEvent>, identifier: String, config: LoadSequenceConfig) -> (r:
    Result<Sequence, DnstapError>)
    requires
        sequence_requirements(events@),
    ensures
        match spec_load(events@) {
            Err(e) => r == Err::<Sequence, DnstapError>(e),
            Ok(qs) => {
                let elements = spec_convert(forwarder_responses(qs), config);
                if forwarder_responses(qs).len() == 0 {
                    r == Err::<Sequence, DnstapError>(DnstapError::EmptySequence)
                } else {
                    r matches Ok(s) && s.elements() == elements && s.identifier() == identifier@
                }
            },
        },
{
    let matched = match load_matching_query_responses_from_dnstap(events) {
        Ok(m) => m,
        Err(e) => {
            return Err(e);
        },
    };
    let responses = forwarder_query_responses(&matched);
    match convert_to_sequence(responses.as_slice(), identifier, config) {
        Some(s) => Ok(s),
        None => Err(DnstapError::EmptySequence),
    }
}

/// Builds the [`PrecisionSequence`] of the forwarder responses of a recording.
pub fn build_precision_sequence(events: Vec<DnstapEvent>, identifier: String) -> (r: Result<
    PrecisionSequence,
    DnstapError,
>)
    requires
        load_requirements(events@),
    ensures
        match spec_load(events@) {
            Err(e) => r == Err::<PrecisionSequence, DnstapError>(e),
            Ok(qs) => {
                let responses = forwarder_responses(qs);
                if responses.len() == 0 {
                    r == Err::<PrecisionSequence, DnstapError>(DnstapError::EmptySequence)
                } else {
                    r matches Ok(s) && s.identifier() == identifier@ && s.events()
                        == responses.map_values(
                        |aqr: AbstractQueryResponse|
                            crate::precision_sequence::PrecisionSequenceEvent {
                                time: aqr.time,
                                size: aqr.size,
                                is_dummy_event: false,
                            },
                    )
                }
            },
        },
{
    let matched = match load_matching_query_responses_from_dnstap(events) {
        Ok(m) => m,
        Err(e) => {
            return Err(e);
        },
    };
    let responses = forwarder_query_responses(&matched);
    match convert_to_precision_sequence(responses.as_slice(), identifier) {
        Some(s) => Ok(s),
        None => Err(DnstapError::EmptySequence),
    }
}

} // verus!
