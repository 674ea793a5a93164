use binmap::range::{parse_range, ClosedRange, RangeParseError};

#[test]
fn parse_closed_range() {
    let r = parse_range(&b"2..=3".to_vec()).unwrap();
    assert_eq!(r, ClosedRange { lo: 2, hi: 3 });
}

#[test]
fn parse_half_open_range() {
    let r = parse_range(&b"2..4".to_vec()).unwrap();
    assert_eq!(r, ClosedRange { lo: 2, hi: 3 });
}

#[test]
fn parse_bare_literal() {
    let r = parse_range(&b"5".to_vec()).unwrap();
    assert_eq!(r, ClosedRange { lo: 5, hi: 5 });
}

#[test]
fn parse_missing_lower_endpoint_rejected() {
    assert_eq!(
        parse_range(&b"..=7".to_vec()),
        Err(RangeParseError::Malformed)
    );
    assert_eq!(
        parse_range(&b"..4".to_vec()),
        Err(RangeParseError::Malformed)
    );
    assert_eq!(parse_range(&b"..".to_vec()), Err(RangeParseError::Malformed));
}

#[test]
fn parse_unbounded_rejected() {
    assert_eq!(
        parse_range(&b"2..".to_vec()),
        Err(RangeParseError::Unbounded)
    );
}

#[test]
fn parse_non_literal_rejected() {
    assert_eq!(
        parse_range(&b"a..2".to_vec()),
        Err(RangeParseError::Malformed)
    );
    assert_eq!(
        parse_range(&b"2..b".to_vec()),
        Err(RangeParseError::Malformed)
    );
    assert_eq!(parse_range(&b"".to_vec()), Err(RangeParseError::Malformed));
    assert_eq!(
        parse_range(&b"2..=".to_vec()),
        Err(RangeParseError::Malformed)
    );
    assert_eq!(
        parse_range(&b"1+2".to_vec()),
        Err(RangeParseError::Malformed)
    );
}

#[test]
fn parse_half_open_upper_zero_rejected() {
    assert_eq!(
        parse_range(&b"0..0".to_vec()),
        Err(RangeParseError::OutOfRange)
    );
}

#[test]
fn parse_oversized_literal_rejected() {
    assert_eq!(
        parse_range(&b"99999999999999999999999999".to_vec()),
        Err(RangeParseError::OutOfRange)
    );
}

#[test]
fn parse_hex_octal_binary_literals() {
    assert_eq!(
        parse_range(&b"0x10..=0x1f".to_vec()).unwrap(),
        ClosedRange { lo: 16, hi: 31 }
    );
    assert_eq!(
        parse_range(&b"0o17".to_vec()).unwrap(),
        ClosedRange { lo: 15, hi: 15 }
    );
    assert_eq!(
        parse_range(&b"0b101..=0B111".to_vec()).unwrap(),
        ClosedRange { lo: 5, hi: 7 }
    );
    assert_eq!(
        parse_range(&b"0X_a..0xC".to_vec()).unwrap(),
        ClosedRange { lo: 10, hi: 11 }
    );
}

#[test]
fn parse_underscored_literals() {
    assert_eq!(
        parse_range(&b"1_0..1_2".to_vec()).unwrap(),
        ClosedRange { lo: 10, hi: 11 }
    );
    assert_eq!(
        parse_range(&b"1__000".to_vec()).unwrap(),
        ClosedRange { lo: 1000, hi: 1000 }
    );
}

#[test]
fn parse_bad_digits_for_base_rejected() {
    // digit past the base, bare prefix, suffixed literal, leading underscore
    assert_eq!(
        parse_range(&b"0o8".to_vec()),
        Err(RangeParseError::Malformed)
    );
    assert_eq!(
        parse_range(&b"0x".to_vec()),
        Err(RangeParseError::Malformed)
    );
    assert_eq!(
        parse_range(&b"0x_".to_vec()),
        Err(RangeParseError::Malformed)
    );
    assert_eq!(
        parse_range(&b"2..3usize".to_vec()),
        Err(RangeParseError::Malformed)
    );
    assert_eq!(
        parse_range(&b"_1".to_vec()),
        Err(RangeParseError::Malformed)
    );
    assert_eq!(
        parse_range(&b"1a".to_vec()),
        Err(RangeParseError::Malformed)
    );
}

#[test]
fn parse_empty_interval_allowed() {
    // a range such as `5..=4` covers nothing but still parses
    let r = parse_range(&b"5..=4".to_vec()).unwrap();
    assert_eq!(r, ClosedRange { lo: 5, hi: 4 });
    assert!(!r.contains(4));
    assert!(!r.contains(5));
}

#[test]
fn closed_range_contains() {
    let r = ClosedRange { lo: 2, hi: 4 };
    assert!(!r.contains(1));
    assert!(r.contains(2));
    assert!(r.contains(3));
    assert!(r.contains(4));
    assert!(!r.contains(5));
}
