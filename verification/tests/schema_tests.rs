use binmap::byte_codec::{decode_bytes, encode_to_vec, ByteOrder};
use binmap::layout::{FieldDecl, LayoutError, LayoutMode, ValueType};
use binmap::schema::{compile_record, ByteOrders, ContainerKind, RecordSchema};

fn decl(name: &str, pos: Option<&[u8]>, vt: ValueType) -> FieldDecl {
    FieldDecl {
        name: String::from(name),
        pos: pos.map(|p| p.to_vec()),
        value_type: vt,
    }
}

#[test]
fn record_compiles_and_keeps_container_kind() {
    let schema = RecordSchema {
        fields: vec![
            decl("a", Some(b"0..=1"), ValueType::U16),
            decl("b", Some(b"2..=5"), ValueType::U32),
        ],
        mode: LayoutMode::Explicit,
        container: ContainerKind::ByteAddressed(ByteOrders::Both),
    };
    let rec = compile_record(&schema).unwrap();
    assert_eq!(
        rec.container,
        ContainerKind::ByteAddressed(ByteOrders::Both)
    );
    assert_eq!(rec.layout.max_end, 5);
}

#[test]
fn record_overlap_yields_no_output() {
    let schema = RecordSchema {
        fields: vec![
            decl("a", Some(b"0..=1"), ValueType::U16),
            decl("b", Some(b"1..=2"), ValueType::U16),
        ],
        mode: LayoutMode::Explicit,
        container: ContainerKind::BitAddressed,
    };
    let err = compile_record(&schema).unwrap_err();
    assert!(matches!(err, LayoutError::Overlap { .. }));
}

#[test]
fn compiled_record_round_trips_both_orders() {
    let schema = RecordSchema {
        fields: vec![
            decl("a", Some(b"0..=1"), ValueType::U16),
            decl("b", Some(b"2..=5"), ValueType::U32),
        ],
        mode: LayoutMode::Explicit,
        container: ContainerKind::ByteAddressed(ByteOrders::Both),
    };
    let rec = compile_record(&schema).unwrap();
    let values = vec![0x1122u64, 0x3344_5566];
    for order in [ByteOrder::Le, ByteOrder::Be] {
        let bytes = encode_to_vec(&rec.layout, &values, order);
        assert_eq!(bytes.len(), 6);
        let back = decode_bytes(&rec.layout, &bytes, order).unwrap();
        assert_eq!(back, values);
    }
}
