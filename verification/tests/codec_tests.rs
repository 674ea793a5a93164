use binmap::bit_codec::{decode_bits, encode_bits_to_vec, pack_bits, BitEncoder};
use binmap::byte_codec::{decode_bytes, encode_to_vec, ByteEncoder, ByteOrder};
use binmap::layout::{compile_layout, FieldDecl, LayoutMode, ValueType};
use binmap::range::ClosedRange;

fn decl(name: &str, pos: Option<&[u8]>, vt: ValueType) -> FieldDecl {
    FieldDecl {
        name: String::from(name),
        pos: pos.map(|p| p.to_vec()),
        value_type: vt,
    }
}

fn packed_layout() -> binmap::layout::Layout {
    let decls = vec![
        decl("a", None, ValueType::U8),
        decl("b", None, ValueType::U16),
        decl("c", None, ValueType::U32),
    ];
    compile_layout(&decls, LayoutMode::Packed).unwrap()
}

#[test]
fn encode_le_bytes_exact() {
    let layout = packed_layout();
    let values = vec![0x12u64, 0x3456, 0x789a_bcde];
    let bytes = encode_to_vec(&layout, &values, ByteOrder::Le);
    assert_eq!(bytes, vec![0x12, 0x56, 0x34, 0xde, 0xbc, 0x9a, 0x78]);
}

#[test]
fn encode_be_bytes_exact() {
    let layout = packed_layout();
    let values = vec![0x12u64, 0x3456, 0x789a_bcde];
    let bytes = encode_to_vec(&layout, &values, ByteOrder::Be);
    assert_eq!(bytes, vec![0x12, 0x34, 0x56, 0x78, 0x9a, 0xbc, 0xde]);
}

#[test]
fn decode_encode_round_trip_le() {
    let layout = packed_layout();
    let values = vec![0xffu64, 0xabcd, 0x0102_0304];
    let bytes = encode_to_vec(&layout, &values, ByteOrder::Le);
    let back = decode_bytes(&layout, &bytes, ByteOrder::Le).unwrap();
    assert_eq!(back, values);
}

#[test]
fn decode_encode_round_trip_be() {
    let layout = packed_layout();
    let values = vec![0x01u64, 0x2345, 0x6789_abcd];
    let bytes = encode_to_vec(&layout, &values, ByteOrder::Be);
    let back = decode_bytes(&layout, &bytes, ByteOrder::Be).unwrap();
    assert_eq!(back, values);
}

#[test]
fn padding_encodes_as_zero() {
    // positions 0 and 1 are covered by no field
    let decls = vec![decl("f", Some(b"2..=3"), ValueType::U16)];
    let layout = compile_layout(&decls, LayoutMode::Explicit).unwrap();
    let values = vec![0xabcdu64];
    let bytes = encode_to_vec(&layout, &values, ByteOrder::Le);
    assert_eq!(bytes, vec![0, 0, 0xcd, 0xab]);
}

#[test]
fn decoding_ignores_padding_content() {
    let decls = vec![decl("f", Some(b"2..=3"), ValueType::U16)];
    let layout = compile_layout(&decls, LayoutMode::Explicit).unwrap();
    let dirty = vec![0xffu8, 0xee, 0xcd, 0xab];
    let vals = decode_bytes(&layout, &dirty, ByteOrder::Le).unwrap();
    assert_eq!(vals, vec![0xabcd]);
}

#[test]
fn decode_out_of_bounds_names_field_range() {
    let decls = vec![
        decl("a", Some(b"0..=0"), ValueType::U8),
        decl("b", Some(b"2..=3"), ValueType::U16),
    ];
    let layout = compile_layout(&decls, LayoutMode::Explicit).unwrap();
    let short = vec![0x01u8, 0x02, 0x03];
    let err = decode_bytes(&layout, &short, ByteOrder::Le).unwrap_err();
    assert_eq!(err, ClosedRange { lo: 2, hi: 3 });
}

#[test]
fn decode_conversion_failure_names_field_range() {
    // a byte holding 5 does not convert into a bool field
    let decls = vec![decl("flag", Some(b"1..=1"), ValueType::Bool)];
    let layout = compile_layout(&decls, LayoutMode::Explicit).unwrap();
    let input = vec![0u8, 5];
    let err = decode_bytes(&layout, &input, ByteOrder::Le).unwrap_err();
    assert_eq!(err, ClosedRange { lo: 1, hi: 1 });
    let ok = decode_bytes(&layout, &vec![0u8, 1], ByteOrder::Le).unwrap();
    assert_eq!(ok, vec![1]);
}

#[test]
fn decode_width_mismatch_names_field_range() {
    // a u16 field whose range covers one byte cannot convert
    let decls = vec![decl("w", Some(b"0..=0"), ValueType::U16)];
    let layout = compile_layout(&decls, LayoutMode::Explicit).unwrap();
    let err = decode_bytes(&layout, &vec![7u8, 8], ByteOrder::Le).unwrap_err();
    assert_eq!(err, ClosedRange { lo: 0, hi: 0 });
}

#[test]
fn byte_encoder_steps_through_positions() {
    let decls = vec![decl("f", Some(b"1..=2"), ValueType::U16)];
    let layout = compile_layout(&decls, LayoutMode::Explicit).unwrap();
    let mut enc = ByteEncoder::new(layout, vec![0x1234u64], ByteOrder::Le);
    assert_eq!(enc.next(), Some(0)); // padding at position 0
    assert_eq!(enc.next(), Some(0x34));
    assert_eq!(enc.next(), Some(0x12));
    assert_eq!(enc.next(), None); // exhausted
    assert_eq!(enc.next(), None); // and stays exhausted
}

#[test]
fn bit_decode_extracts_ranges() {
    let decls = vec![
        decl("flag", Some(b"0..=0"), ValueType::Bool),
        decl("nib", Some(b"4..=11"), ValueType::U8),
    ];
    let layout = compile_layout(&decls, LayoutMode::Explicit).unwrap();
    let vals = decode_bits(&layout, 0xf1, 16).unwrap();
    assert_eq!(vals, vec![1, 0x0f]);
}

#[test]
fn bit_decode_out_of_bounds_names_field_range() {
    let decls = vec![decl("f", Some(b"4..=8"), ValueType::U8)];
    let layout = compile_layout(&decls, LayoutMode::Explicit).unwrap();
    let err = decode_bits(&layout, 0xff, 8).unwrap_err();
    assert_eq!(err, ClosedRange { lo: 4, hi: 8 });
}

#[test]
fn bit_decode_conversion_failure() {
    // two bits holding 2 do not convert into a bool field
    let decls = vec![decl("flag", Some(b"0..=1"), ValueType::Bool)];
    let layout = compile_layout(&decls, LayoutMode::Explicit).unwrap();
    let err = decode_bits(&layout, 0b10, 8).unwrap_err();
    assert_eq!(err, ClosedRange { lo: 0, hi: 1 });
    let ok = decode_bits(&layout, 0b01, 8).unwrap();
    assert_eq!(ok, vec![1]);
}

#[test]
fn bit_encode_emits_value_bits_least_significant_first() {
    let decls = vec![decl("v", Some(b"0..=7"), ValueType::U8)];
    let layout = compile_layout(&decls, LayoutMode::Explicit).unwrap();
    let bits = encode_bits_to_vec(&layout, &vec![0xa5u64]);
    assert_eq!(bits, vec![1, 0, 1, 0, 0, 1, 0, 1]);
}

#[test]
fn bit_encode_pads_uncovered_positions_with_zero() {
    let decls = vec![decl("flag", Some(b"2..=2"), ValueType::Bool)];
    let layout = compile_layout(&decls, LayoutMode::Explicit).unwrap();
    let bits = encode_bits_to_vec(&layout, &vec![1u64]);
    assert_eq!(bits, vec![0, 0, 1]);
}

#[test]
fn bit_encoder_steps_through_positions() {
    let decls = vec![decl("flag", Some(b"1..=1"), ValueType::Bool)];
    let layout = compile_layout(&decls, LayoutMode::Explicit).unwrap();
    let mut enc = BitEncoder::new(layout, vec![1u64]);
    assert_eq!(enc.next(), Some(0));
    assert_eq!(enc.next(), Some(1));
    assert_eq!(enc.next(), None);
    assert_eq!(enc.next(), None);
}

#[test]
fn bit_decode_encode_round_trip() {
    let decls = vec![
        decl("flag", Some(b"0..=0"), ValueType::Bool),
        decl("v", Some(b"4..=11"), ValueType::U8),
    ];
    let layout = compile_layout(&decls, LayoutMode::Explicit).unwrap();
    let values = vec![1u64, 0x5a];
    let bits = encode_bits_to_vec(&layout, &values);
    let container = pack_bits(&bits);
    let back = decode_bits(&layout, container, bits.len()).unwrap();
    assert_eq!(back, values);
}

#[test]
fn round_trip_widest_value() {
    let decls = vec![decl("v", None, ValueType::U64)];
    let layout = compile_layout(&decls, LayoutMode::Packed).unwrap();
    let values = vec![u64::MAX];
    for order in [ByteOrder::Le, ByteOrder::Be] {
        let bytes = encode_to_vec(&layout, &values, order);
        assert_eq!(bytes, vec![0xff; 8]);
        assert_eq!(decode_bytes(&layout, &bytes, order).unwrap(), values);
    }
}

#[test]
fn bit_decode_full_width_container() {
    let decls = vec![decl("v", Some(b"0..=63"), ValueType::U64)];
    let layout = compile_layout(&decls, LayoutMode::Explicit).unwrap();
    let vals = decode_bits(&layout, u64::MAX, 64).unwrap();
    assert_eq!(vals, vec![u64::MAX]);
    let vals2 = decode_bits(&layout, 0x0123_4567_89ab_cdef, 64).unwrap();
    assert_eq!(vals2, vec![0x0123_4567_89ab_cdef]);
}
