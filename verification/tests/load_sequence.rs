use sequences::load_sequence::{
    block_padding, convert_to_sequence, gap_size, pad_size, AbstractQueryResponse, GapMode,
    LoadSequenceConfig, Padding, SimulatedCountermeasure,
};
use sequences::sequence_element::SequenceElement::{Gap, Size};

#[test]
fn test_block_padding() {
    assert_eq!(0, block_padding(0, 128));
    assert_eq!(128, block_padding(1, 128));
    assert_eq!(128, block_padding(127, 128));
    assert_eq!(128, block_padding(128, 128));
    assert_eq!(128 * 2, block_padding(129, 128));
}

#[test]
fn sizes_count_padding_blocks() {
    assert_eq!(Size(1), pad_size(100, false, Padding::Q128R468));
    assert_eq!(Size(2), pad_size(469, false, Padding::Q128R468));
    assert_eq!(Size(2), pad_size(129, true, Padding::Q128R468));
    assert_eq!(Size(0), pad_size(0, false, Padding::Q128R468));
}

#[test]
fn gaps_by_mode() {
    let ms = 1_000_000i128;
    // Not longer than one base gap: no gap.
    assert_eq!(None, gap_size(ms, ms, GapMode::Log2));
    // 2 base gaps (20.5 ms would be 20): log2(2) = 1.
    assert_eq!(Some(Gap(1)), gap_size(3 * ms, ms, GapMode::Log2));
    assert_eq!(Some(Gap(2)), gap_size(3 * ms, ms, GapMode::Ident));
    assert_eq!(Some(Gap(4)), gap_size(20 * ms, ms, GapMode::Log2));
    assert_eq!(Some(Gap(19)), gap_size(20 * ms, ms, GapMode::Ident));
    // One base gap and a bit: log2(1) = 0, which is no gap.
    assert_eq!(None, gap_size(ms + 1, ms, GapMode::Log2));
}

#[test]
fn from_str_variants() {
    assert_eq!(Ok(Padding::Q128R468), Padding::from_str("Q128R468").map_err(|e| e.name));
    assert_eq!(Ok(Padding::Q128R468), Padding::from_str("q128r468").map_err(|e| e.name));
    assert_eq!(Err("x".to_string()), Padding::from_str("x").map_err(|e| e.name));
    assert_eq!(Ok(GapMode::Log2), GapMode::from_str("log2").map_err(|e| e.name));
    assert_eq!(Ok(GapMode::Ident), GapMode::from_str("Ident").map_err(|e| e.name));
    assert_eq!(Err("IDENT".to_string()), GapMode::from_str("IDENT").map_err(|e| e.name));
}

fn responses() -> Vec<AbstractQueryResponse> {
    let ms = 1_000_000i128;
    vec![
        AbstractQueryResponse { time: 0, size: 100 },
        AbstractQueryResponse { time: 20 * ms, size: 500 },
        AbstractQueryResponse { time: 20 * ms + 10, size: 100 },
    ]
}

#[test]
fn sequence_of_responses() {
    let config = LoadSequenceConfig::default();
    let seq = convert_to_sequence(&responses(), "x".to_string(), config).unwrap();
    assert_eq!(&[Size(1), Gap(4), Size(2), Size(1)], seq.as_elements());
    assert_eq!("x", seq.id());
}

#[test]
fn sequence_with_perfect_padding_keeps_gaps_only() {
    let mut config = LoadSequenceConfig::default();
    config.simulated_countermeasure = SimulatedCountermeasure::PerfectPadding;
    let seq = convert_to_sequence(&responses(), "x".to_string(), config).unwrap();
    assert_eq!(&[Gap(4), Gap(0)], seq.as_elements());
}

#[test]
fn sequence_with_perfect_timing_keeps_sizes_only() {
    let mut config = LoadSequenceConfig::default();
    config.simulated_countermeasure = SimulatedCountermeasure::PerfectTiming;
    let seq = convert_to_sequence(&responses(), "x".to_string(), config).unwrap();
    assert_eq!(&[Size(1), Size(2), Size(1)], seq.as_elements());
}

#[test]
fn no_responses_no_sequence() {
    assert!(convert_to_sequence(&[], "x".to_string(), LoadSequenceConfig::default()).is_none());
}

#[test]
fn a_lone_response_under_perfect_padding_gives_an_empty_sequence() {
    let mut config = LoadSequenceConfig::default();
    config.simulated_countermeasure = SimulatedCountermeasure::PerfectPadding;
    let one = [AbstractQueryResponse { time: 0, size: 100 }];
    let seq = convert_to_sequence(&one, "x".to_string(), config).unwrap();
    assert!(seq.as_elements().is_empty());
    assert_eq!("x", seq.id());
}

#[test]
fn countermeasure_sequences_weave_together() {
    let with = |m: SimulatedCountermeasure| {
        let mut config = LoadSequenceConfig::default();
        config.simulated_countermeasure = m;
        convert_to_sequence(&responses(), "x".to_string(), config).unwrap().as_elements().to_vec()
    };
    let plain = with(SimulatedCountermeasure::NoCountermeasure);
    let sizes = with(SimulatedCountermeasure::PerfectTiming);
    let gaps = with(SimulatedCountermeasure::PerfectPadding);
    assert_eq!(gaps.len() + 1, sizes.len());
    let mut woven = vec![sizes[0]];
    for i in 0..gaps.len() {
        if gaps[i] != Gap(0) {
            woven.push(gaps[i]);
        }
        woven.push(sizes[i + 1]);
    }
    assert_eq!(plain, woven);
}
