use sequences::constant_rate::{ConstantRateSchedule, ScheduleStep};
use sequences::edns_padding::missing_padding;
use sequences::precision_sequence::{PrecisionSequence, PrecisionSequenceEvent};

fn padded_length(len: usize, edns: Option<Option<usize>>, padding: usize) -> usize {
    match edns {
        None => len + 11 + 4 + padding,
        Some(None) => len + 4 + padding,
        Some(Some(p)) => len - (4 + p) + 4 + padding,
    }
}

#[test]
fn padding_fills_up_to_the_block() {
    assert_eq!(63, missing_padding(50, None));
    assert_eq!(74, missing_padding(50, Some(None)));
    assert_eq!(88, missing_padding(50, Some(Some(10))));
    // less than the option overhead is missing: a whole block more
    assert_eq!(126, missing_padding(126, Some(None)));
    assert_eq!(124, missing_padding(0, Some(None)));
    for len in 0..600 {
        for edns in [None, Some(None), Some(Some(0)), Some(Some(len / 3))] {
            if let Some(Some(p)) = edns {
                if p + 4 > len {
                    continue;
                }
            }
            let r = missing_padding(len, edns);
            assert!(r < 128);
            assert_eq!(0, padded_length(len, edns, r) % 128);
        }
    }
}

#[test]
fn padding_twice_changes_nothing() {
    for len in 0..300 {
        for edns in [None, Some(None)] {
            let r = missing_padding(len, edns);
            let padded = padded_length(len, edns, r);
            assert_eq!(r, missing_padding(padded, Some(Some(r))));
        }
    }
}

fn event(time: i128, size: u32) -> PrecisionSequenceEvent {
    PrecisionSequenceEvent { time, size, is_dummy_event: false }
}

#[test]
fn constant_rate_sends_dummies_while_padding_goes_on() {
    let seq = PrecisionSequence::new(vec![event(0, 100), event(1000, 200)], "a.pcap".to_string());
    let mut schedule = ConstantRateSchedule::new(&seq, 400);
    assert_eq!(ScheduleStep::Real, schedule.step());
    assert_eq!(ScheduleStep::Dummy, schedule.step());
    assert!(schedule.is_awaiting_decision());
    schedule.decide(true);
    assert_eq!(ScheduleStep::Dummy, schedule.step());
    schedule.decide(false);
    // padding is off: the next message goes out at once, but not before its due time
    assert_eq!(ScheduleStep::Real, schedule.step());
    assert_eq!(ScheduleStep::Dummy, schedule.step());
    schedule.decide(false);
    assert!(schedule.can_step());
    assert_eq!(ScheduleStep::Done, schedule.step());
    let padded = schedule.finish();
    let dummy = |time| PrecisionSequenceEvent { time, size: 128, is_dummy_event: true };
    assert_eq!(
        vec![event(0, 100), dummy(400), dummy(800), event(1200, 200), dummy(1600)],
        padded.as_events().to_vec()
    );
    assert_eq!("a.pcap", padded.id());
}

#[test]
fn constant_rate_delays_messages_that_are_not_due() {
    let seq = PrecisionSequence::new(vec![event(0, 1), event(10, 2), event(20, 3)], "b".to_string());
    let mut schedule = ConstantRateSchedule::new(&seq, 100);
    assert_eq!(ScheduleStep::Real, schedule.step());
    assert_eq!(ScheduleStep::Real, schedule.step());
    assert_eq!(ScheduleStep::Real, schedule.step());
    assert_eq!(ScheduleStep::Dummy, schedule.step());
    schedule.decide(false);
    assert_eq!(ScheduleStep::Done, schedule.step());
    let times: Vec<i128> = schedule.finish().as_events().iter().map(|e| e.time).collect();
    assert_eq!(vec![0, 100, 200, 300], times);
}

use sequences::adaptive_padding::{AdaptivePadding, PaddingNeed, DURATION_MAX};

fn weights(ap: &AdaptivePadding) -> Vec<u16> {
    match ap.need() {
        PaddingNeed::Bucket { weights } => weights,
        other => panic!("expected a bucket draw, got {:?}", other),
    }
}

#[test]
fn adaptive_padding_runs_through_its_modes() {
    let mut ap = AdaptivePadding::new(0, 4);
    // the burst buckets hold 805 tokens besides the infinite one
    match ap.need() {
        PaddingNeed::FakeBurstTokens { other_tokens } => assert_eq!(805, other_tokens),
        other => panic!("unexpected {:?}", other),
    }
    ap.provide_fake_burst_tokens(100);
    assert!(matches!(ap.need(), PaddingNeed::Nothing));
    assert!(ap.has_terminated());
    assert_eq!(DURATION_MAX, ap.deadline());

    // a message starts a burst: draw from the 26 burst buckets
    ap.handle_application_payload(0);
    let w = weights(&ap);
    assert_eq!(26, w.len());
    assert_eq!(12, w[0]);
    assert_eq!(100, w[25]);
    ap.provide_bucket(0);
    match ap.need() {
        PaddingNeed::Gap { low } => assert_eq!(1_024_000, low),
        other => panic!("unexpected {:?}", other),
    }
    ap.provide_gap(1_200_000);
    assert!(!ap.has_terminated());
    assert_eq!(1_200_000, ap.deadline());

    // the timeout turns the burst into a gap: draw from the 21 gap buckets, whose infinite
    // bucket holds round((195 + 4 + 1) / (4 - 1)) = 67 tokens
    ap.handle_timeout(1_200_000);
    let w = weights(&ap);
    assert_eq!(21, w.len());
    assert_eq!(67, w[20]);
    // the infinite gap bucket falls back to a burst, which draws again; a bucket token is gone
    ap.provide_bucket(20);
    let w = weights(&ap);
    assert_eq!(26, w.len());
    assert_eq!(11, w[0]);
    // the infinite burst bucket ends padding
    ap.provide_bucket(25);
    assert!(matches!(ap.need(), PaddingNeed::Nothing));
    assert!(ap.has_terminated());
    assert_eq!(1_200_000 + DURATION_MAX, ap.deadline());
}

#[test]
fn adaptive_padding_trades_tokens_for_real_gaps() {
    let mut ap = AdaptivePadding::new(0, 2);
    ap.provide_fake_burst_tokens(0);
    ap.handle_application_payload(0);
    ap.provide_bucket(0);
    ap.provide_gap(1_500_000);
    let before = weights_after_payload(&mut ap, 2_000_000);
    // the token of the expected gap (1.5 ms, bucket 0 as 2 * 1.024 ms > 1.5 ms) went back, and
    // the token for the real 2 ms gap came from the first bucket of at least 2 ms (bucket 2)
    assert_eq!(12, before[0]);
    assert_eq!(15, before[1]);
    assert_eq!(19, before[2]);
}

fn weights_after_payload(ap: &mut AdaptivePadding, now: i128) -> Vec<u16> {
    ap.handle_application_payload(now);
    weights(ap)
}

use sequences::payload::Payload;

#[test]
fn payload_dummies_are_filled_in() {
    assert_eq!(vec![1u8], Payload::Payload(vec![1u8]).unwrap_or_else(|| vec![0u8; 3]));
    assert_eq!(vec![0u8; 3], Payload::<Vec<u8>>::Dummy.unwrap_or_else(|| vec![0u8; 3]));
    assert_eq!(Payload::Payload(5), Payload::Payload(Payload::Payload(5)).flatten());
    assert_eq!(Payload::<u8>::Dummy, Payload::Payload(Payload::<u8>::Dummy).flatten());
    assert_eq!(Payload::<u8>::Dummy, Payload::<Payload<u8>>::Dummy.flatten());
}
