use sequences::duration_text::{format_duration, parse_duration, DurationParseError};

const S: i128 = 1_000_000_000;

#[test]
fn reads_seconds_and_fractions() {
    assert_eq!(Ok(12 * S), parse_duration("12"));
    assert_eq!(Ok(-3 * S), parse_duration("-3"));
    assert_eq!(Ok(3 * S), parse_duration("+3"));
    assert_eq!(Ok(S + S / 4), parse_duration("1.25"));
    assert_eq!(Ok(7), parse_duration("0.000000007"));
    // The fraction adds to the seconds, also for negative seconds.
    assert_eq!(Ok(-S / 2), parse_duration("-1.5"));
}

#[test]
fn refuses_other_text() {
    assert_eq!(Err(DurationParseError::TooPrecise), parse_duration("1.1234567891"));
    assert_eq!(Err(DurationParseError::Invalid), parse_duration("a"));
    assert_eq!(Err(DurationParseError::Invalid), parse_duration(""));
    assert_eq!(Err(DurationParseError::Invalid), parse_duration("1.2.3"));
    assert_eq!(Err(DurationParseError::Invalid), parse_duration("1."));
    assert_eq!(Err(DurationParseError::Invalid), parse_duration(".5"));
    assert_eq!(Err(DurationParseError::Invalid), parse_duration("1.-5"));
    assert_eq!(Err(DurationParseError::Invalid), parse_duration("-"));
}

#[test]
fn writes_nine_fraction_digits() {
    assert_eq!("1.250000000", format_duration(S + S / 4));
    assert_eq!("0.000000000", format_duration(0));
    assert_eq!("-2.000000000", format_duration(-2 * S));
    assert_eq!("-1.-500000000", format_duration(-S - S / 2));
    assert_eq!("0.-00000005", format_duration(-5));
}

#[test]
fn written_durations_read_back() {
    for n in [0, 1, S, 12 * S + 345, 999_999_999, -7 * S] {
        assert_eq!(Ok(n), parse_duration(&format_duration(n)));
    }
}
