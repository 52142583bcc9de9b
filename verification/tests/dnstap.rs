use sequences::dnstap::{
    build_precision_sequence, build_sequence, load_matching_query_responses_from_dnstap,
    sanity_check_dnstap, sanity_check_matched_queries, DnsMessageInfo, DnstapError,
    DnstapEvent, DnstapMessageType as T, Query, QuerySource,
};
use sequences::load_sequence::LoadSequenceConfig;
use sequences::sequence_element::SequenceElement::{Gap, Size};

const MS: i128 = 1_000_000;

fn info(name: &str, qtype: &str, id: u16, size: u32) -> Option<DnsMessageInfo> {
    Some(DnsMessageInfo { qname: name.to_string(), qtype: qtype.to_string(), id, size })
}

fn client_query(name: &str, id: u16, t: i128) -> DnstapEvent {
    DnstapEvent {
        message_type: T::ClientQuery,
        query_message: info(name, "A", id, 40),
        response_message: None,
        query_time: Some(t),
        response_time: None,
        query_port: Some(5000),
    }
}

fn client_response(name: &str, id: u16, t: i128) -> DnstapEvent {
    DnstapEvent {
        message_type: T::ClientResponse,
        query_message: None,
        response_message: info(name, "A", id, 60),
        query_time: None,
        response_time: Some(t),
        query_port: Some(5000),
    }
}

fn forwarder_query(name: &str, qtype: &str, id: u16, t: i128) -> DnstapEvent {
    DnstapEvent {
        message_type: T::ForwarderQuery,
        query_message: info(name, qtype, id, 50),
        response_message: None,
        query_time: Some(t),
        response_time: None,
        query_port: None,
    }
}

fn forwarder_response(name: &str, qtype: &str, id: u16, sent: i128, t: i128, size: u32) -> DnstapEvent {
    DnstapEvent {
        message_type: T::ForwarderResponse,
        query_message: None,
        response_message: info(name, qtype, id, size),
        query_time: Some(sent),
        response_time: Some(t),
        query_port: None,
    }
}

/// A measurement of `example.com`, logged out of order.
fn recording() -> Vec<DnstapEvent> {
    vec![
        client_query("start.example.", 1, 0),
        client_response("start.example.", 1, 1 * MS),
        client_query("example.com.", 2, 2 * MS),
        forwarder_query("example.com.", "A", 7, 3 * MS),
        // logged before the query it answers, but later in time
        forwarder_response("example.com.", "A", 7, 3 * MS, 30 * MS, 500),
        forwarder_query("_ta-4f66.", "NULL", 8, 4 * MS),
        forwarder_response("_ta-4f66.", "NULL", 8, 4 * MS, 5 * MS, 100),
        client_response("example.com.", 2, 31 * MS),
        client_query("end.example.", 3, 40 * MS),
        client_response("end.example.", 3, 41 * MS),
        forwarder_query("late.", "A", 9, 50 * MS),
        forwarder_response("late.", "A", 9, 50 * MS, 51 * MS, 100),
    ]
}

fn names(qs: &[Query]) -> Vec<(QuerySource, String)> {
    qs.iter().map(|q| (q.source, q.qname.clone())).collect()
}

#[test]
fn matches_queries_of_the_measurement() {
    let qs = load_matching_query_responses_from_dnstap(recording()).unwrap();
    assert_eq!(
        vec![
            (QuerySource::Forwarder, "example.com.".to_string()),
            (QuerySource::Client, "example.com.".to_string()),
        ],
        names(&qs)
    );
    assert_eq!(3 * MS, qs[0].start);
    assert_eq!(30 * MS, qs[0].end);
    assert_eq!(50, qs[0].query_size);
    assert_eq!(500, qs[0].response_size);
    assert_eq!(2 * MS, qs[1].start);
    assert_eq!(31 * MS, qs[1].end);
}

#[test]
fn unmatched_and_duplicate_queries() {
    let mut events = recording();
    // A second query with the same key replaces the first one.
    events.push(forwarder_query("example.com.", "A", 7, 3 * MS + 1));
    // A response without a query is dropped.
    events.push(forwarder_response("nothing.", "A", 99, 3 * MS, 35 * MS, 100));
    let qs = load_matching_query_responses_from_dnstap(events).unwrap();
    assert_eq!(2, qs.len());
}

#[test]
fn sanity_errors() {
    assert_eq!(Err(DnstapError::MissingStartQuery), sanity_check_dnstap(&[]));
    let events = vec![client_query("start.example.", 1, 0)];
    assert_eq!(Err(DnstapError::EndQueryCount { count: 0 }), sanity_check_dnstap(&events));
    let events = vec![client_query("start.example.", 1, 0), client_query("end.example.", 1, 0)];
    assert_eq!(Err(DnstapError::StartResponseCount { count: 0 }), sanity_check_dnstap(&events));
    let events = vec![
        client_query("start.example.", 1, 0),
        client_query("end.example.", 1, 0),
        client_response("start.example.", 1, 0),
        client_response("end.example.", 1, 0),
        client_response("end.example.", 1, 0),
    ];
    assert_eq!(Err(DnstapError::EndResponseCount { count: 2 }), sanity_check_dnstap(&events));
    assert_eq!(Ok(()), sanity_check_dnstap(&recording()));
}

#[test]
fn matched_queries_must_hold_a_forwarder_a_query() {
    assert_eq!(Err(DnstapError::NoMatchedQueries), sanity_check_matched_queries(&[]));
    let q = Query {
        source: QuerySource::Forwarder,
        qname: "x.".to_string(),
        qtype: "AAAA".to_string(),
        start: 0,
        end: 1,
        query_size: 1,
        response_size: 1,
    };
    assert_eq!(Err(DnstapError::NoForwarderTypeA), sanity_check_matched_queries(&[q.clone()]));
    let mut a = q.clone();
    a.qtype = "A".to_string();
    assert_eq!(Ok(()), sanity_check_matched_queries(&[q, a]));

    // Without the forwarder query, only the client query is matched.
    let events: Vec<_> = recording()
        .into_iter()
        .filter(|e| e.message_type != T::ForwarderResponse)
        .collect();
    assert_eq!(
        Err(DnstapError::NoForwarderTypeA),
        load_matching_query_responses_from_dnstap(events).map(|_| ())
    );
}

#[test]
fn sequence_of_forwarder_responses() {
    let mut events = recording();
    events.push(forwarder_query("b.example.com.", "A", 10, 32 * MS));
    events.push(forwarder_response("b.example.com.", "A", 10, 32 * MS, 35 * MS, 100));
    let seq = build_sequence(events.clone(), "rec".to_string(), LoadSequenceConfig::default()).unwrap();
    // 5 ms later: 4 base gaps, log2 is 2
    assert_eq!(&[Size(2), Gap(2), Size(1)], seq.as_elements());
    assert_eq!("rec", seq.id());

    let precise = build_precision_sequence(events, "rec".to_string()).unwrap();
    assert_eq!(2, precise.as_events().len());
    assert_eq!(35 * MS, precise.as_events()[1].time);
}
