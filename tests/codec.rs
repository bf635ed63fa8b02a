use rpc_lib::codec::{decode_value, decode_values, encode_value, encode_values, Error, Value, WireType};

fn enc(v: &Value) -> Vec<u8> {
    let mut out = Vec::new();
    encode_value(v, &mut out);
    out
}

fn round_trip(v: Value, t: WireType) {
    let mut bytes = enc(&v);
    let n = bytes.len();
    bytes.extend_from_slice(&[0xAA, 0xBB]);
    assert_eq!(decode_value(t, &bytes, 0), Ok((v, n)));
}

#[test]
fn test_i32_serializing() {
    let expected: i32 = 10;
    let output = enc(&Value::I32(expected));
    assert_eq!(expected.to_le_bytes(), output.as_slice());
}

#[test]
fn test_i64_serializing() {
    let expected: i64 = 10;
    let output = enc(&Value::I64(expected));
    assert_eq!(expected.to_le_bytes(), output.as_slice());
}

#[test]
fn test_struct_serializing() {
    let fields = vec![Value::I64(16), Value::I64(32)];
    let mut output = Vec::new();
    encode_values(&fields, &mut output);
    assert_eq!([16i64.to_le_bytes(), 32i64.to_le_bytes()].concat(), output.as_slice());
}

#[test]
fn round_trip_every_scalar_type() {
    round_trip(Value::Unit, WireType::Unit);
    round_trip(Value::Bool(false), WireType::Bool);
    round_trip(Value::Bool(true), WireType::Bool);
    round_trip(Value::U8(255), WireType::U8);
    round_trip(Value::U16(0xBEEF), WireType::U16);
    round_trip(Value::U32(u32::MAX), WireType::U32);
    round_trip(Value::U64(u64::MAX), WireType::U64);
    round_trip(Value::I8(i8::MIN), WireType::I8);
    round_trip(Value::I8(-1), WireType::I8);
    round_trip(Value::I16(-12345), WireType::I16);
    round_trip(Value::I32(i32::MIN), WireType::I32);
    round_trip(Value::I64(i64::MIN), WireType::I64);
    round_trip(Value::I64(i64::MAX), WireType::I64);
    round_trip(Value::Str(String::new()), WireType::Str);
    round_trip(Value::Str("h\u{e9}llo \u{1F600}".to_string()), WireType::Str);
    round_trip(Value::Bytes(vec![]), WireType::Bytes);
    round_trip(Value::Bytes(vec![0, 1, 2, 255]), WireType::Bytes);
}

#[test]
fn exact_bytes_of_each_kind() {
    assert_eq!(enc(&Value::Unit), Vec::<u8>::new());
    assert_eq!(enc(&Value::Bool(true)), vec![1]);
    assert_eq!(enc(&Value::U16(0x0102)), vec![2, 1]);
    assert_eq!(enc(&Value::I8(-2)), vec![0xFE]);
    assert_eq!(enc(&Value::I32(-1)), vec![0xFF; 4]);
    assert_eq!(enc(&Value::Str("zkr".to_string())), vec![3, 0, 0, 0, 0, 0, 0, 0, b'z', b'k', b'r']);
    assert_eq!(enc(&Value::Bytes(vec![9, 8])), vec![2, 0, 0, 0, 0, 0, 0, 0, 9, 8]);
}

#[test]
fn same_bytes_as_bincode() {
    assert_eq!(enc(&Value::Str("zkr".to_string())), bincode::serialize(&"zkr".to_string()).unwrap());
    assert_eq!(enc(&Value::Str("\u{e9}t\u{e9}".to_string())), bincode::serialize("\u{e9}t\u{e9}").unwrap());
    assert_eq!(enc(&Value::I32(-5)), bincode::serialize(&-5i32).unwrap());
    assert_eq!(enc(&Value::U64(1 << 40)), bincode::serialize(&(1u64 << 40)).unwrap());
    assert_eq!(enc(&Value::Bool(true)), bincode::serialize(&true).unwrap());
    assert_eq!(enc(&Value::Unit), bincode::serialize(&()).unwrap());
}

#[test]
fn decode_at_offset_returns_end() {
    let bytes = vec![7, 0x34, 0x12, 9];
    assert_eq!(decode_value(WireType::U16, &bytes, 1), Ok((Value::U16(0x1234), 3)));
}

#[test]
fn truncated_fixed_width_value() {
    assert_eq!(decode_value(WireType::U32, &[1, 2, 3], 0), Err(Error::Truncated));
    assert_eq!(decode_value(WireType::Bool, &[], 0), Err(Error::Truncated));
}

#[test]
fn length_prefix_beyond_the_bytes() {
    let bytes = vec![5, 0, 0, 0, 0, 0, 0, 0, b'a', b'b'];
    assert_eq!(decode_value(WireType::Str, &bytes, 0), Err(Error::Truncated));
    assert_eq!(decode_value(WireType::Bytes, &bytes[..6], 0), Err(Error::Truncated));
}

#[test]
fn huge_length_prefix_is_truncated() {
    let bytes = vec![0xFF; 12];
    assert_eq!(decode_value(WireType::Bytes, &bytes, 0), Err(Error::Truncated));
}

#[test]
fn invalid_bool_byte() {
    assert_eq!(decode_value(WireType::Bool, &[2], 0), Err(Error::Invalid));
}

#[test]
fn invalid_utf8_string() {
    let bytes = vec![2, 0, 0, 0, 0, 0, 0, 0, 0xC3, 0x28];
    assert_eq!(decode_value(WireType::Str, &bytes, 0), Err(Error::Invalid));
    assert_eq!(decode_value(WireType::Bytes, &bytes, 0), Ok((Value::Bytes(vec![0xC3, 0x28]), 10)));
}

#[test]
fn multi_byte_utf8_string_decodes_to_its_chars() {
    let bytes = vec![2, 0, 0, 0, 0, 0, 0, 0, 0xC3, 0xA9];
    assert_eq!(decode_value(WireType::Str, &bytes, 0), Ok((Value::Str("\u{e9}".to_string()), 10)));
}

#[test]
fn values_in_sequence() {
    let vs = vec![Value::U8(1), Value::Str("ab".to_string()), Value::I16(-2)];
    let mut bytes = Vec::new();
    encode_values(&vs, &mut bytes);
    let n = bytes.len();
    bytes.push(0);
    let ts = vec![WireType::U8, WireType::Str, WireType::I16];
    assert_eq!(decode_values(&ts, &bytes, 0), Ok((vs, n)));
    assert_eq!(decode_values(&ts, &bytes[..n - 1], 0), Err(Error::Truncated));
    assert_eq!(decode_values(&vec![], &bytes, 0), Ok((vec![], 0)));
}
