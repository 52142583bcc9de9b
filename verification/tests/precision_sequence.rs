use sequences::load_sequence::AbstractQueryResponse;
use sequences::precision_sequence::{
    convert_to_precision_sequence, Overhead, PrecisionSequence, PrecisionSequenceEvent,
};
use sequences::sequence_element::SequenceElement::{Gap, Size};

const MS: i128 = 1_000_000;

fn ev(time: i128, size: u32, dummy: bool) -> PrecisionSequenceEvent {
    PrecisionSequenceEvent { time, size, is_dummy_event: dummy }
}

#[test]
fn duration_ignores_dummies() {
    let s = PrecisionSequence::new(
        vec![ev(0, 1, true), ev(5 * MS, 100, false), ev(7 * MS, 100, false), ev(9 * MS, 1, true)],
        "p".to_string(),
    );
    assert_eq!(2 * MS, s.duration());
    assert_eq!(4, s.count_queries());
    assert_eq!("p", s.id());
}

#[test]
fn overhead_against_baseline() {
    let a = PrecisionSequence::new(vec![ev(0, 1, false), ev(10 * MS, 1, false)], "a".to_string());
    let b = PrecisionSequence::new(
        vec![ev(0, 1, false), ev(4 * MS, 1, true), ev(25 * MS, 1, false)],
        "b".to_string(),
    );
    assert_eq!(
        Overhead { queries_baseline: 2, queries: 1, time_baseline: 10 * MS, time: 15 * MS },
        b.overhead(&a)
    );
    let sum = Overhead::new().add(b.overhead(&a));
    assert_eq!(15 * MS, sum.time);
}

#[test]
fn coarse_sequence_of_precise_one() {
    let s = PrecisionSequence::new(vec![ev(0, 100, false), ev(20 * MS, 500, false)], "p".to_string());
    let seq = s.to_sequence();
    assert_eq!(&[Size(1), Gap(4), Size(2)], seq.as_elements());
    assert_eq!("p", seq.id());
}

#[test]
fn precise_sequence_from_responses() {
    assert!(convert_to_precision_sequence(&[], "x".to_string()).is_none());
    let s = convert_to_precision_sequence(
        &[AbstractQueryResponse { time: 3, size: 4 }],
        "x".to_string(),
    )
    .unwrap();
    assert_eq!(&[ev(3, 4, false)], s.as_events());
    assert_eq!(AbstractQueryResponse { time: 3, size: 4 }, s.as_events()[0].to_query_response());
}
