use binmap::classify::{
    classify, compile_classifier, parse_allow_entry, AllowEntry, ClassifyError, VariantDecl,
};
use binmap::range::RangeParseError;

fn variant(name: &str, allow: Vec<AllowEntry>, has_payload: bool) -> VariantDecl {
    VariantDecl {
        name: String::from(name),
        allow,
        has_payload,
    }
}

#[test]
fn first_declared_variant_wins_on_overlap() {
    // A accepts {1,2,3}, B accepts {3,4,5}: 3 selects A
    let variants = vec![
        variant(
            "a",
            vec![
                AllowEntry::Literal(1),
                AllowEntry::Literal(2),
                AllowEntry::Literal(3),
            ],
            false,
        ),
        variant(
            "b",
            vec![
                AllowEntry::Literal(3),
                AllowEntry::Literal(4),
                AllowEntry::Literal(5),
            ],
            false,
        ),
    ];
    let c = compile_classifier(&variants).unwrap();
    assert_eq!(classify(&c, 3), Ok(0));
    assert_eq!(classify(&c, 4), Ok(1));
}

#[test]
fn rejection_carries_value_unchanged() {
    let variants = vec![variant("a", vec![AllowEntry::Literal(1)], false)];
    let c = compile_classifier(&variants).unwrap();
    assert_eq!(classify(&c, 0xdead_beef), Err(0xdead_beef));
}

#[test]
fn ranges_and_literals_mix() {
    // allow-list (8, 10, 11..=12, 34..=54)
    let variants = vec![
        variant(
            "d3",
            vec![
                AllowEntry::Literal(8),
                AllowEntry::Literal(10),
                AllowEntry::Range(11, 12),
                AllowEntry::Range(34, 54),
            ],
            false,
        ),
        variant("d4", vec![AllowEntry::Range(100, 344)], true),
    ];
    let c = compile_classifier(&variants).unwrap();
    assert_eq!(classify(&c, 8), Ok(0));
    assert_eq!(classify(&c, 9), Err(9));
    assert_eq!(classify(&c, 12), Ok(0));
    assert_eq!(classify(&c, 34), Ok(0));
    assert_eq!(classify(&c, 54), Ok(0));
    assert_eq!(classify(&c, 55), Err(55));
    // a payload-bearing variant is selected through the same matching rule
    assert_eq!(classify(&c, 100), Ok(1));
    assert_eq!(classify(&c, 344), Ok(1));
    assert_eq!(classify(&c, 345), Err(345));
}

#[test]
fn empty_allow_list_rejected() {
    let variants = vec![
        variant("a", vec![AllowEntry::Literal(1)], false),
        variant("b", vec![], false),
    ];
    let err = compile_classifier(&variants).unwrap_err();
    assert_eq!(err, ClassifyError::EmptyAllowList { variant: 1 });
}

#[test]
fn entries_stay_in_declaration_order() {
    let variants = vec![
        variant("a", vec![AllowEntry::Literal(7), AllowEntry::Literal(8)], false),
        variant("b", vec![AllowEntry::Literal(9)], false),
    ];
    let c = compile_classifier(&variants).unwrap();
    assert_eq!(c.entries.len(), 3);
    assert_eq!(c.entries[0].entry, AllowEntry::Literal(7));
    assert_eq!(c.entries[0].variant, 0);
    assert_eq!(c.entries[1].entry, AllowEntry::Literal(8));
    assert_eq!(c.entries[1].variant, 0);
    assert_eq!(c.entries[2].entry, AllowEntry::Literal(9));
    assert_eq!(c.entries[2].variant, 1);
}

#[test]
fn parse_allow_entry_literal() {
    assert_eq!(
        parse_allow_entry(&b"7".to_vec()),
        Ok(AllowEntry::Literal(7))
    );
}

#[test]
fn parse_allow_entry_ranges() {
    assert_eq!(
        parse_allow_entry(&b"4..=6".to_vec()),
        Ok(AllowEntry::Range(4, 6))
    );
    assert_eq!(
        parse_allow_entry(&b"4..6".to_vec()),
        Ok(AllowEntry::Range(4, 5))
    );
    assert_eq!(
        parse_allow_entry(&b"0xff".to_vec()),
        Ok(AllowEntry::Literal(255))
    );
    assert_eq!(
        parse_allow_entry(&b"0b1_0..=0o20".to_vec()),
        Ok(AllowEntry::Range(2, 16))
    );
}

#[test]
fn parse_allow_entry_rejections() {
    assert_eq!(
        parse_allow_entry(&b"4..".to_vec()),
        Err(RangeParseError::Unbounded)
    );
    assert_eq!(
        parse_allow_entry(&b"..=12".to_vec()),
        Err(RangeParseError::Malformed)
    );
    assert_eq!(
        parse_allow_entry(&b"x".to_vec()),
        Err(RangeParseError::Malformed)
    );
    // one past u64::MAX
    assert_eq!(
        parse_allow_entry(&b"18446744073709551616".to_vec()),
        Err(RangeParseError::OutOfRange)
    );
    assert_eq!(
        parse_allow_entry(&b"18446744073709551615".to_vec()),
        Ok(AllowEntry::Literal(u64::MAX))
    );
    // the saturating parse still distinguishes the half-open boundary
    assert_eq!(
        parse_allow_entry(&b"0..18446744073709551616".to_vec()),
        Ok(AllowEntry::Range(0, u64::MAX))
    );
    assert_eq!(
        parse_allow_entry(&b"0..18446744073709551617".to_vec()),
        Err(RangeParseError::OutOfRange)
    );
}
