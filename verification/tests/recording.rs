use sequences::load_sequence::AbstractQueryResponse;
use sequences::recording::record_message;

#[test]
fn a_measurement_is_recorded_between_its_markers() {
    let mut recorded = vec![AbstractQueryResponse { time: 1, size: 9 }];
    assert!(record_message(&mut recorded, "start.example.", 5, 40).is_none());
    assert!(recorded.is_empty());
    assert!(record_message(&mut recorded, "example.com.", 7, 120).is_none());
    assert!(record_message(&mut recorded, "www.example.com.", 9, 300).is_none());
    let out = record_message(&mut recorded, "end.example.", 11, 40).unwrap();
    assert_eq!(
        vec![AbstractQueryResponse { time: 7, size: 120 }, AbstractQueryResponse { time: 9, size: 300 }],
        out
    );
    assert!(recorded.is_empty());
}
