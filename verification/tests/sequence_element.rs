use sequences::element_text::{element_to_string, parse_element, ElementParseError};
use sequences::sequence_element::SequenceElement;
use sequences::sequence_element::SequenceElement::{Gap, Size};

fn to_json(e: SequenceElement) -> Result<String, serde_json::Error> {
    serde_json::to_string(&element_to_string(e))
}

fn from_json(text: &str) -> Result<SequenceElement, String> {
    let s: String = serde_json::from_str(text).map_err(|e| e.to_string())?;
    parse_element(&s).map_err(|e| format!("{:?}", e))
}

#[test]
fn test_serialize_elements() -> Result<(), serde_json::Error> {
    assert_eq!(&to_json(Gap(1))?, "\"G01\"");
    assert_eq!(&to_json(Gap(2))?, "\"G02\"");
    assert_eq!(&to_json(Gap(3))?, "\"G03\"");
    assert_eq!(&to_json(Gap(13))?, "\"G13\"");
    assert_eq!(&to_json(Gap(75))?, "\"G75\"");
    assert_eq!(&to_json(Gap(12345))?, "\"G12345\"");
    assert_eq!(&to_json(Gap(u16::max_value()))?, "\"G65535\"");

    assert_eq!(&to_json(Size(1))?, "\"S01\"");
    assert_eq!(&to_json(Size(2))?, "\"S02\"");
    assert_eq!(&to_json(Size(3))?, "\"S03\"");
    assert_eq!(&to_json(Size(4))?, "\"S04\"");
    assert_eq!(&to_json(Size(5))?, "\"S05\"");
    assert_eq!(&to_json(Size(10))?, "\"S10\"");
    assert_eq!(&to_json(Size(u8::max_value()))?, "\"S255\"");
    Ok(())
}

#[test]
fn test_deserialize_elements() -> Result<(), String> {
    assert_eq!(from_json("\"G01\"")?, Gap(1));
    assert_eq!(from_json("\"G02\"")?, Gap(2));
    assert_eq!(from_json("\"G03\"")?, Gap(3));
    assert_eq!(from_json("\"G13\"")?, Gap(13));
    assert_eq!(from_json("\"G75\"")?, Gap(75));
    assert_eq!(from_json("\"G12345\"")?, Gap(12345));
    assert_eq!(from_json("\"G65535\"")?, Gap(u16::max_value()));

    assert_eq!(from_json("\"S01\"")?, Size(1));
    assert_eq!(from_json("\"S02\"")?, Size(2));
    assert_eq!(from_json("\"S03\"")?, Size(3));
    assert_eq!(from_json("\"S04\"")?, Size(4));
    assert_eq!(from_json("\"S05\"")?, Size(5));
    assert_eq!(from_json("\"S10\"")?, Size(10));
    assert_eq!(from_json("\"S255\"")?, Size(u8::max_value()));
    Ok(())
}

#[test]
fn parse_errors() {
    assert_eq!(Err(ElementParseError::TooShort { chars: 1 }), parse_element("G"));
    assert_eq!(Err(ElementParseError::TooShort { chars: 0 }), parse_element(""));
    assert_eq!(Err(ElementParseError::InvalidStart { start: 'X' }), parse_element("X01"));
    assert_eq!(Err(ElementParseError::InvalidNumber), parse_element("S256"));
    assert_eq!(Err(ElementParseError::InvalidNumber), parse_element("G65536"));
    assert_eq!(Err(ElementParseError::InvalidNumber), parse_element("G1a"));
    assert_eq!(Err(ElementParseError::InvalidNumber), parse_element("G+"));
    assert_eq!(Ok(Gap(5)), parse_element("G+5"));
    assert_eq!(Ok(Size(7)), parse_element("S007"));
}

#[test]
fn text_round_trip() {
    for e in [Gap(0), Gap(9), Gap(10), Gap(65535), Size(0), Size(99), Size(100)] {
        assert_eq!(Ok(e), parse_element(&element_to_string(e)));
    }
}

#[test]
fn costs() {
    assert_eq!(12, Size(3).insert_cost());
    assert_eq!(7, Gap(7).insert_cost());
    assert_eq!(7, Gap(7).delete_cost());
    assert_eq!(0, Size(4).substitute_cost(Size(4)));
    assert_eq!(6, Size(4).substitute_cost(Size(1)));
    assert_eq!(9, Gap(1).substitute_cost(Gap(4)));
    assert_eq!(9, Gap(4).substitute_cost(Gap(1)));
    assert_eq!(17, Gap(5).substitute_cost(Size(2)));
    assert_eq!(17, Size(2).substitute_cost(Gap(5)));
    assert_eq!(0, Size(2).swap_cost(Size(2)));
    assert_eq!(3, Size(2).swap_cost(Gap(2)));
}

#[test]
fn encodings() {
    let hot = Size(3).to_one_hot_encoding();
    assert_eq!(16, hot.len());
    assert_eq!(1, hot[3]);
    assert_eq!(1, hot.iter().filter(|&&v| v != 0).count());
    let gap = Gap(40).to_one_hot_encoding();
    assert_eq!(40, gap[0]);
    assert_eq!(1, gap.iter().filter(|&&v| v != 0).count());
    assert_eq!((7, 0), Size(7).to_vector_encoding());
    assert_eq!((0, 300), Gap(300).to_vector_encoding());
}
