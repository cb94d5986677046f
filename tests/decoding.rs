use proto_dump::message::{decode, decode_field, decode_tag, Field, FieldTag, FieldValue, WireType};
use proto_dump::wire::{
    decode_fixed32, decode_fixed64, decode_length_prefixed, decode_varint, encode_fixed32, encode_fixed64,
    encode_varint, DecodeError,
};

#[test]
fn varint_single_field() {
    let buf = [0x08u8, 0x96, 0x01];
    let m = decode(&buf).unwrap();
    assert_eq!(m.fields.len(), 1);
    assert_eq!(m.fields[0], Field { field_number: 1, value: FieldValue::VarInt(150) });
}

#[test]
fn length_prefixed_field() {
    let buf = [0x12u8, 0x03, 0x61, 0x62, 0x63];
    let m = decode(&buf).unwrap();
    assert_eq!(m.fields.len(), 1);
    assert_eq!(m.fields[0].field_number, 2);
    assert_eq!(m.fields[0].value, FieldValue::LengthPrefixed(b"abc"));
}

#[test]
fn empty_buffer_is_empty_message() {
    let m = decode(&[]).unwrap();
    assert!(m.fields.is_empty());
}

#[test]
fn varint_round_trips() {
    for v in [0u64, 1, 127, 128, 150, 300, 16383, 16384, u32::MAX as u64, u64::MAX - 1, u64::MAX] {
        let bytes = encode_varint(v);
        assert_eq!(decode_varint(&bytes, 0), Ok((v, bytes.len())));
    }
}

#[test]
fn varint_encodings() {
    assert_eq!(encode_varint(0), vec![0x00]);
    assert_eq!(encode_varint(150), vec![0x96, 0x01]);
    assert_eq!(encode_varint(u64::MAX), vec![0xff, 0xff, 0xff, 0xff, 0xff, 0xff, 0xff, 0xff, 0xff, 0x01]);
}

#[test]
fn varint_past_64_bits_wraps() {
    // Eleven groups: the eleventh lands at bit 70 and is dropped.
    let buf = [0x81u8, 0x80, 0x80, 0x80, 0x80, 0x80, 0x80, 0x80, 0x80, 0x80, 0x01];
    assert_eq!(decode_varint(&buf, 0), Ok((1, 11)));
}

#[test]
fn varint_at_offset_and_unterminated() {
    let buf = [0xffu8, 0x2a, 0x80];
    assert_eq!(decode_varint(&buf, 1), Ok((42, 2)));
    assert_eq!(decode_varint(&buf, 2), Err(DecodeError::UnexpectedEnd));
    assert_eq!(decode_varint(&buf, 3), Err(DecodeError::UnexpectedEnd));
}

#[test]
fn fixed_round_trips() {
    for v in [0u32, 1, 0x1234_5678, u32::MAX] {
        let bytes = encode_fixed32(v);
        assert_eq!(bytes.len(), 4);
        assert_eq!(decode_fixed32(&bytes, 0), Ok((v, 4)));
    }
    for v in [0u64, 1, 0x0102_0304_0506_0708, u64::MAX] {
        let bytes = encode_fixed64(v);
        assert_eq!(bytes.len(), 8);
        assert_eq!(decode_fixed64(&bytes, 0), Ok((v, 8)));
    }
}

#[test]
fn fixed_is_little_endian() {
    assert_eq!(encode_fixed32(0x1234_5678), vec![0x78, 0x56, 0x34, 0x12]);
    assert_eq!(decode_fixed32(&[0x01, 0x02, 0x03, 0x04], 0), Ok((0x0403_0201, 4)));
    assert_eq!(decode_fixed64(&[1, 0, 0, 0, 0, 0, 0, 0x80], 0), Ok((0x8000_0000_0000_0001, 8)));
}

#[test]
fn fixed_needs_enough_bytes() {
    assert_eq!(decode_fixed32(&[1, 2, 3], 0), Err(DecodeError::UnexpectedEnd));
    assert_eq!(decode_fixed64(&[1, 2, 3, 4, 5, 6, 7, 8], 1), Err(DecodeError::UnexpectedEnd));
}

#[test]
fn length_prefix_takes_exactly_its_length() {
    let buf = [0x02u8, 0xaa, 0xbb, 0xcc];
    let (payload, next) = decode_length_prefixed(&buf, 0).unwrap();
    assert_eq!(payload, &[0xaa, 0xbb]);
    assert_eq!(next, 3);
    assert_eq!(decode_length_prefixed(&[0x03, 0xaa, 0xbb], 0), Err(DecodeError::UnexpectedEnd));
    let (empty, next) = decode_length_prefixed(&[0x00], 0).unwrap();
    assert!(empty.is_empty());
    assert_eq!(next, 1);
}

#[test]
fn tag_splits_wire_type_and_number() {
    assert_eq!(
        decode_tag(&[0x92, 0x01], 0),
        Ok((FieldTag { wire_type: WireType::LengthPrefixed, field_number: 18 }, 2))
    );
    assert_eq!(decode_tag(&[0x08], 0), Ok((FieldTag { wire_type: WireType::VarInt, field_number: 1 }, 1)));
    assert_eq!(decode_tag(&[0x0d], 0), Ok((FieldTag { wire_type: WireType::Int32, field_number: 1 }, 1)));
    assert_eq!(decode_tag(&[0x0e], 0), Err(DecodeError::InvalidWireType));
    assert_eq!(decode_tag(&[0x0f], 0), Err(DecodeError::InvalidWireType));
}

#[test]
fn every_wire_type_decodes() {
    let buf = [
        0x08, 0x05, // 1: varint 5
        0x11, 1, 0, 0, 0, 0, 0, 0, 0, // 2: fixed64 1
        0x1a, 0x01, 0x7a, // 3: "z"
        0x23, // 4: start group
        0x2c, // 5: end group
        0x35, 2, 0, 0, 0, // 6: fixed32 2
    ];
    let m = decode(&buf).unwrap();
    let values: Vec<(u64, FieldValue)> = m.fields.iter().map(|f| (f.field_number, f.value)).collect();
    assert_eq!(
        values,
        vec![
            (1, FieldValue::VarInt(5)),
            (2, FieldValue::Int64(1)),
            (3, FieldValue::LengthPrefixed(b"z")),
            (4, FieldValue::StartGroup),
            (5, FieldValue::EndGroup),
            (6, FieldValue::Int32(2)),
        ]
    );
}

#[test]
fn duplicate_numbers_are_kept_in_order() {
    let m = decode(&[0x08, 0x01, 0x08, 0x02]).unwrap();
    assert_eq!(m.fields[0].value, FieldValue::VarInt(1));
    assert_eq!(m.fields[1].value, FieldValue::VarInt(2));
    assert_eq!(m.fields.len(), 2);
}

#[test]
fn field_at_offset() {
    let buf = [0xffu8, 0x08, 0x07];
    let (f, next) = decode_field(&buf, 1).unwrap();
    assert_eq!(f, Field { field_number: 1, value: FieldValue::VarInt(7) });
    assert_eq!(next, 3);
    assert_eq!(decode_field(&buf, 3), Err(DecodeError::UnexpectedEnd));
}

#[test]
fn trailing_partial_field_fails() {
    assert_eq!(decode(&[0x08, 0x96, 0x01, 0x08]), Err(DecodeError::TrailingBytes));
    assert_eq!(decode(&[0x08, 0x96, 0x01, 0x0d, 0x01]), Err(DecodeError::TrailingBytes));
    assert_eq!(decode(&[0x08, 0x96, 0x01, 0x12, 0x05, 0x61]), Err(DecodeError::TrailingBytes));
    assert_eq!(decode(&[0x80]), Err(DecodeError::TrailingBytes));
}

#[test]
fn invalid_wire_type_fails() {
    assert_eq!(decode(&[0x08, 0x01, 0x0f]), Err(DecodeError::InvalidWireType));
    assert_eq!(decode(&[0x0e, 0x00]), Err(DecodeError::InvalidWireType));
}
