use bitspec::errors::{CompileError, ReadError, WriteError};
use bitspec::transform::TransformError;
use bitspec::wasm_error::WasmError;

#[test]
fn compile_errors_map_correctly() {
    assert_eq!(WasmError::from(CompileError::InvalidArrayStride).code, "INVALID_ARRAY_STRIDE");
    assert_eq!(WasmError::from(CompileError::InvalidFieldSize).code, "INVALID_FIELD_SIZE");
    assert_eq!(WasmError::from(CompileError::InvalidFieldName).code, "INVALID_FIELD_NAME");
}

#[test]
fn read_errors_map_correctly() {
    assert_eq!(WasmError::from(ReadError::OutOfBounds).code, "READ_OUT_OF_BOUNDS");
    assert_eq!(WasmError::from(ReadError::PacketTooShort).code, "PACKET_TOO_SHORT");
    assert_eq!(WasmError::from(ReadError::TooManyBitsRead).code, "TOO_MANY_BITS_READ");
}

#[test]
fn write_errors_map_correctly() {
    assert_eq!(WasmError::from(WriteError::OutOfBounds).code, "WRITE_OUT_OF_BOUNDS");
    assert_eq!(WasmError::from(WriteError::InvalidValue).code, "INVALID_VALUE");
    assert_eq!(WasmError::from(WriteError::MissingField("x".into())).code, "MISSING_FIELD");
    assert_eq!(
        WasmError::from(WriteError::UnsupportedValue {
            field: "x".into(),
            variant: "F64"
        })
        .code,
        "UNSUPPORTED_VALUE"
    );
}

#[test]
fn transform_errors_map_correctly() {
    assert_eq!(WasmError::from(TransformError::InvalidBase).code, "INVALID_BASE");
    assert_eq!(WasmError::from(TransformError::InvalidEnumValue(7)).code, "INVALID_ENUM_VALUE");
    assert_eq!(WasmError::from(TransformError::InvalidType).code, "INVALID_TYPE");
}

#[test]
fn messages_describe_the_error() {
    assert_eq!(
        WasmError::from(CompileError::InvalidArrayCount).message,
        "array count is zero"
    );
    assert_eq!(
        WasmError::from(ReadError::PacketTooShort).message,
        "input data is shorter than the schema's total bit length"
    );
    assert_eq!(
        WasmError::from(WriteError::MissingField("speed".into())).message,
        "missing field 'speed' in object"
    );
    assert_eq!(
        WriteError::UnsupportedValue { field: "t".into(), variant: "F32" }.to_string(),
        "field 't' received Value::F32; serialize accepts only U64, I64, and Array"
    );
    assert_eq!(WriteError::OutOfBounds.to_string(), "buffer is too short to write the value");
    assert_eq!(
        WasmError::from(TransformError::InvalidAsciiByteValue).message,
        "ASCII-encoded byte is outside 0..=0x7F"
    );
    assert_eq!(
        WasmError::new("X", "y".to_string()),
        WasmError { code: "X", message: "y".to_string() }
    );
}
