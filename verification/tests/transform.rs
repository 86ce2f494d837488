use std::collections::HashMap;

use bitspec::transform::{
    apply_bytes, apply_enum, apply_string, extract_bytes, reinterpret_base, validate_options, Base, Encoding,
    TransformError,
};
use bitspec::value::Value;

/// The byte path of a transform with base `Bytes`: options checked, bytes
/// extracted, then decoded when an encoding is set.
fn bytes_transform(
    encoding: Option<Encoding>,
    zero_terminated: Option<bool>,
    trim: Option<bool>,
    value: Value,
) -> Result<Value, TransformError> {
    validate_options(&Base::Bytes, encoding.is_some(), false)?;
    apply_bytes(value, &encoding, zero_terminated, trim)
}

/// An integer transform with an enum map and no scale or offset.
fn enum_transform(map: &Option<HashMap<i64, String>>, value: Value) -> Result<Value, TransformError> {
    validate_options(&Base::Int, false, map.is_some())?;
    let v = reinterpret_base(&Base::Int, value)?;
    let v = apply_enum(v, map)?;
    apply_string(v, &None, None, None)
}

fn byte_values(s: &str) -> Value {
    Value::Array(s.as_bytes().iter().map(|b| Value::I64(*b as i64)).collect())
}

#[test]
fn test_floats_failure() {
    assert!(reinterpret_base(&Base::Float32, Value::I64(0)).is_err());
    assert!(reinterpret_base(&Base::Float64, Value::I64(0)).is_err());
}

#[test]
fn test_bytes() {
    let value = Value::Array(vec![Value::I64(10), Value::I64(20), Value::I64(30)]);
    let result = bytes_transform(None, None, None, value).unwrap();
    assert_eq!(result, Value::Bytes(vec![10, 20, 30]));
}

#[test]
fn test_bytes_failure() {
    let value = Value::Array(vec![Value::I64(10), Value::I64(20), Value::I64(300)]);
    assert!(bytes_transform(None, None, None, value).is_err());
}

#[test]
fn test_string() {
    let value = || {
        Value::Array(vec![
            Value::I64(String::from("H").as_bytes()[0] as i64),
            Value::I64(String::from("e").as_bytes()[0] as i64),
            Value::I64(String::from("l").as_bytes()[0] as i64),
            Value::I64(String::from("l").as_bytes()[0] as i64),
            Value::I64(String::from("o").as_bytes()[0] as i64),
            Value::I64(String::from("\n").as_bytes()[0] as i64),
        ])
    };

    assert_eq!(
        bytes_transform(Some(Encoding::Utf8), None, None, value()).unwrap(),
        Value::String("Hello\n".to_string())
    );
    assert_eq!(
        bytes_transform(Some(Encoding::Ascii), None, Some(true), value()).unwrap(),
        Value::String("Hello".to_string())
    );
}

#[test]
fn test_string_ascii_failure() {
    let value = byte_values("Hello❤️\n");
    assert!(bytes_transform(Some(Encoding::Ascii), None, None, value).is_err());
}

#[test]
fn test_enum() {
    let map = Some(HashMap::from([(1, "one".to_string()), (2, "two".to_string())]));
    assert_eq!(enum_transform(&map, Value::I64(1)).unwrap(), Value::String("one".to_string()));
    assert_eq!(enum_transform(&map, Value::I64(2)).unwrap(), Value::String("two".to_string()));
}

#[test]
fn test_byte_array() {
    assert_eq!(
        bytes_transform(None, None, None, byte_values("Hello")).unwrap(),
        Value::Bytes(String::from("Hello").as_bytes().to_vec())
    );
}

#[test]
fn reinterpret_keeps_integers_and_takes_float_bits() {
    assert_eq!(reinterpret_base(&Base::Int, Value::U64(7)), Ok(Value::U64(7)));
    assert_eq!(reinterpret_base(&Base::Int, Value::I64(-7)), Ok(Value::I64(-7)));
    assert_eq!(
        reinterpret_base(&Base::Float32, Value::U64(0xFFFF_FFFF_4049_0FDB)),
        Ok(Value::F32(0x4049_0FDB))
    );
    assert_eq!(
        reinterpret_base(&Base::Float64, Value::U64(0x4009_21FB_5444_2D18)),
        Ok(Value::F64(0x4009_21FB_5444_2D18))
    );
    assert_eq!(reinterpret_base(&Base::Bytes, Value::U64(1)), Err(TransformError::InvalidBase));
    assert_eq!(
        reinterpret_base(&Base::Int, Value::Array(vec![])),
        Err(TransformError::InvalidBase)
    );
}

#[test]
fn extract_bytes_errors() {
    assert_eq!(
        extract_bytes(Value::Array(vec![Value::U64(255), Value::I64(0)])),
        Ok(vec![255, 0])
    );
    assert_eq!(
        extract_bytes(Value::Array(vec![Value::U64(1), Value::U64(256)])),
        Err(TransformError::InvalidByteValue)
    );
    assert_eq!(
        extract_bytes(Value::Array(vec![Value::I64(-1)])),
        Err(TransformError::InvalidByteValue)
    );
    // the first element that is not a byte decides the error
    assert_eq!(
        extract_bytes(Value::Array(vec![Value::F64(0), Value::I64(-1)])),
        Err(TransformError::InvalidType)
    );
    assert_eq!(extract_bytes(Value::U64(1)), Err(TransformError::InvalidType));
}

#[test]
fn enum_lookup_errors() {
    let map = Some(HashMap::from([(-1, "minus one".to_string())]));
    // an unsigned value is looked up by the i64 of the same bits
    assert_eq!(
        apply_enum(Value::U64(u64::MAX), &map),
        Ok(Value::String("minus one".to_string()))
    );
    assert_eq!(apply_enum(Value::I64(3), &map), Err(TransformError::InvalidEnumValue(3)));
    assert_eq!(apply_enum(Value::F32(0), &map), Err(TransformError::InvalidType));
    assert_eq!(apply_enum(Value::F32(5), &None), Ok(Value::F32(5)));
}

#[test]
fn string_decoding_options() {
    let bytes = || Value::Bytes(vec![b' ', b'h', b'i', b'\t', 0, b'x', b' ']);
    // without zero termination the zero byte is kept
    assert_eq!(
        apply_string(bytes(), &Some(Encoding::Utf8), None, None),
        Ok(Value::String(" hi\t\u{0}x ".to_string()))
    );
    assert_eq!(
        apply_string(bytes(), &Some(Encoding::Utf8), Some(true), None),
        Ok(Value::String(" hi\t".to_string()))
    );
    assert_eq!(
        apply_string(bytes(), &Some(Encoding::Ascii), Some(true), Some(true)),
        Ok(Value::String("hi".to_string()))
    );
    assert_eq!(
        apply_string(Value::Bytes(vec![0xC3, 0x28]), &Some(Encoding::Utf8), None, None),
        Err(TransformError::InvalidEncoding)
    );
    assert_eq!(
        apply_string(Value::Bytes("é".as_bytes().to_vec()), &Some(Encoding::Utf8), None, Some(true)),
        Ok(Value::String("é".to_string()))
    );
    assert_eq!(
        apply_string(Value::U64(1), &Some(Encoding::Utf8), None, None),
        Err(TransformError::InvalidType)
    );
    assert_eq!(apply_string(Value::U64(1), &None, None, None), Ok(Value::U64(1)));
    // unicode white space is trimmed too
    assert_eq!(
        apply_string(Value::Bytes("\u{3000}a b\u{2029}".as_bytes().to_vec()), &Some(Encoding::Utf8), None, Some(true)),
        Ok(Value::String("a b".to_string()))
    );
}

#[test]
fn option_combinations() {
    assert_eq!(validate_options(&Base::Bytes, true, false), Ok(()));
    assert_eq!(validate_options(&Base::Int, false, true), Ok(()));
    assert_eq!(validate_options(&Base::Float32, false, false), Ok(()));
    assert_eq!(validate_options(&Base::Int, true, false), Err(TransformError::InvalidType));
    assert_eq!(validate_options(&Base::Bytes, false, true), Err(TransformError::InvalidType));
    assert_eq!(validate_options(&Base::Float64, false, true), Err(TransformError::InvalidType));
}

#[test]
fn error_messages() {
    assert_eq!(TransformError::InvalidBase.to_string(), "raw value cannot be interpreted as the requested base type");
    assert_eq!(TransformError::InvalidEnumValue(9).to_string(), "integer value has no entry in the enum map");
}
