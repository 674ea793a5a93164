use binmap::layout::{
    compile_layout, FieldDecl, LayoutError, LayoutMode, ValueType,
};
use binmap::range::{ClosedRange, RangeParseError};

fn decl(name: &str, pos: Option<&[u8]>, vt: ValueType) -> FieldDecl {
    FieldDecl {
        name: String::from(name),
        pos: pos.map(|p| p.to_vec()),
        value_type: vt,
    }
}

#[test]
fn packed_offsets_from_sizes() {
    // field byte widths [1, 2, 4] starting at offset 0
    let decls = vec![
        decl("a", None, ValueType::U8),
        decl("b", None, ValueType::U16),
        decl("c", None, ValueType::U32),
    ];
    let layout = compile_layout(&decls, LayoutMode::Packed).unwrap();
    assert_eq!(layout.fields.len(), 3);
    assert_eq!(layout.fields[0].range, ClosedRange { lo: 0, hi: 0 });
    assert_eq!(layout.fields[1].range, ClosedRange { lo: 1, hi: 2 });
    assert_eq!(layout.fields[2].range, ClosedRange { lo: 3, hi: 6 });
    assert_eq!(layout.fields[0].src, 0);
    assert_eq!(layout.fields[1].src, 1);
    assert_eq!(layout.fields[2].src, 2);
    assert_eq!(layout.max_end, 6);
}

#[test]
fn packed_explicit_override_moves_cursor() {
    let decls = vec![
        decl("a", None, ValueType::U8),
        decl("b", Some(b"10..=11"), ValueType::U16),
        decl("c", None, ValueType::U32),
    ];
    let layout = compile_layout(&decls, LayoutMode::Packed).unwrap();
    assert_eq!(layout.fields[0].range, ClosedRange { lo: 0, hi: 0 });
    assert_eq!(layout.fields[1].range, ClosedRange { lo: 10, hi: 11 });
    assert_eq!(layout.fields[2].range, ClosedRange { lo: 12, hi: 15 });
    assert_eq!(layout.max_end, 15);
}

#[test]
fn explicit_fields_sorted_by_start() {
    let decls = vec![
        decl("late", Some(b"4..=5"), ValueType::U16),
        decl("early", Some(b"0..=1"), ValueType::U16),
        decl("middle", Some(b"2..=3"), ValueType::U16),
    ];
    let layout = compile_layout(&decls, LayoutMode::Explicit).unwrap();
    assert_eq!(layout.fields[0].range, ClosedRange { lo: 0, hi: 1 });
    assert_eq!(layout.fields[1].range, ClosedRange { lo: 2, hi: 3 });
    assert_eq!(layout.fields[2].range, ClosedRange { lo: 4, hi: 5 });
    // resolved ranges are tied back to their declarations, unchanged
    assert_eq!(layout.fields[0].src, 1);
    assert_eq!(layout.fields[1].src, 2);
    assert_eq!(layout.fields[2].src, 0);
    assert_eq!(layout.max_end, 5);
}

#[test]
fn overlapping_ranges_rejected() {
    let decls = vec![
        decl("a", Some(b"0..=2"), ValueType::U16),
        decl("b", Some(b"2..=3"), ValueType::U16),
    ];
    let err = compile_layout(&decls, LayoutMode::Explicit).unwrap_err();
    assert_eq!(
        err,
        LayoutError::Overlap {
            range: ClosedRange { lo: 2, hi: 3 }
        }
    );
}

#[test]
fn overlap_found_across_declaration_order() {
    // the colliding pair is not adjacent in declaration order
    let decls = vec![
        decl("a", Some(b"6..=7"), ValueType::U16),
        decl("b", Some(b"0..=3"), ValueType::U32),
        decl("c", Some(b"3..=4"), ValueType::U16),
    ];
    let err = compile_layout(&decls, LayoutMode::Explicit).unwrap_err();
    assert!(matches!(err, LayoutError::Overlap { .. }));
}

#[test]
fn equal_starts_count_as_overlap() {
    let decls = vec![
        decl("a", Some(b"1..=2"), ValueType::U16),
        decl("b", Some(b"1..=4"), ValueType::U32),
    ];
    let err = compile_layout(&decls, LayoutMode::Explicit).unwrap_err();
    assert!(matches!(err, LayoutError::Overlap { .. }));
}

#[test]
fn equal_start_with_empty_range_still_overlaps() {
    // ties are overlap even when the earlier range covers nothing
    let decls = vec![
        decl("a", Some(b"5..5"), ValueType::U8),
        decl("b", Some(b"5..=9"), ValueType::U32),
    ];
    let err = compile_layout(&decls, LayoutMode::Explicit).unwrap_err();
    assert!(matches!(err, LayoutError::Overlap { .. }));
}

#[test]
fn missing_position_rejected_in_explicit_mode() {
    let decls = vec![
        decl("a", Some(b"0..=1"), ValueType::U16),
        decl("b", None, ValueType::U16),
    ];
    let err = compile_layout(&decls, LayoutMode::Explicit).unwrap_err();
    assert_eq!(err, LayoutError::MissingPosition { field: 1 });
}

#[test]
fn bad_position_reports_parse_cause() {
    let decls = vec![decl("a", Some(b"x"), ValueType::U8)];
    let err = compile_layout(&decls, LayoutMode::Explicit).unwrap_err();
    assert_eq!(
        err,
        LayoutError::BadPosition {
            field: 0,
            cause: RangeParseError::Malformed
        }
    );
    let decls2 = vec![decl("a", Some(b"3.."), ValueType::U8)];
    let err2 = compile_layout(&decls2, LayoutMode::Explicit).unwrap_err();
    assert_eq!(
        err2,
        LayoutError::BadPosition {
            field: 0,
            cause: RangeParseError::Unbounded
        }
    );
}

#[test]
fn first_failing_field_wins() {
    let decls = vec![
        decl("a", Some(b"bad"), ValueType::U8),
        decl("b", None, ValueType::U8),
    ];
    let err = compile_layout(&decls, LayoutMode::Explicit).unwrap_err();
    assert_eq!(
        err,
        LayoutError::BadPosition {
            field: 0,
            cause: RangeParseError::Malformed
        }
    );
}

#[test]
fn empty_schema_compiles() {
    let decls: Vec<FieldDecl> = Vec::new();
    let layout = compile_layout(&decls, LayoutMode::Explicit).unwrap();
    assert_eq!(layout.fields.len(), 0);
    assert_eq!(layout.max_end, 0);
}
