//! Flat error shape used at the WebAssembly boundary.
//!
//! Typed errors ([`CompileError`], [`ReadError`], [`WriteError`],
//! [`TransformError`]) are converted to [`WasmError`] before being handed
//! across the boundary as `{ code, message }`.

use vstd::prelude::*;
use vstd::string::StringExecFns;

use crate::errors::{
    CompileError, ReadError, WriteError, WriteErrorModel, compile_error_message, read_error_message,
    write_error_message,
};
use crate::transform::{TransformError, transform_error_message};

verus! {

/// Flat error: a stable machine-readable code and a human-readable message.
#[derive(Debug, PartialEq)]
pub struct WasmError {
    pub code: &'static str,
    pub message: String,
}

impl WasmError {
    pub fn new(code: &'static str, message: String) -> (r: Self)
        ensures
            r.code == code,
            r.message == message,
    {
        WasmError { code, message }
    }
}

/// Code of a [`CompileError`].
pub open spec fn compile_error_code(e: CompileError) -> Seq<char> {
    match e {
        CompileError::InvalidArrayStride => "INVALID_ARRAY_STRIDE"@,
        CompileError::InvalidArrayCount => "INVALID_ARRAY_COUNT"@,
        CompileError::InvalidFieldSize => "INVALID_FIELD_SIZE"@,
        CompileError::InvalidFragment => "INVALID_FRAGMENT"@,
        CompileError::InvalidFieldKind => "INVALID_FIELD_KIND"@,
        CompileError::EmptyArrayElement => "EMPTY_ARRAY_ELEMENT"@,
        CompileError::InvalidFieldName => "INVALID_FIELD_NAME"@,
    }
}

/// Code of a [`ReadError`].
pub open spec fn read_error_code(e: ReadError) -> Seq<char> {
    match e {
        ReadError::OutOfBounds => "READ_OUT_OF_BOUNDS"@,
        ReadError::TooManyBitsRead => "TOO_MANY_BITS_READ"@,
        ReadError::PacketTooShort => "PACKET_TOO_SHORT"@,
    }
}

/// Code of a [`WriteError`].
pub open spec fn write_error_code(e: WriteErrorModel) -> Seq<char> {
    match e {
        WriteErrorModel::OutOfBounds => "WRITE_OUT_OF_BOUNDS"@,
        WriteErrorModel::InvalidValue => "INVALID_VALUE"@,
        WriteErrorModel::MissingField(_) => "MISSING_FIELD"@,
        WriteErrorModel::UnsupportedValue { .. } => "UNSUPPORTED_VALUE"@,
    }
}

/// Code of a [`TransformError`].
pub open spec fn transform_error_code(e: TransformError) -> Seq<char> {
    match e {
        TransformError::InvalidBase => "INVALID_BASE"@,
        TransformError::InvalidType => "INVALID_TYPE"@,
        TransformError::InvalidEnumValue(_) => "INVALID_ENUM_VALUE"@,
        TransformError::InvalidEncoding => "INVALID_ENCODING"@,
        TransformError::InvalidByteValue => "INVALID_BYTE_VALUE"@,
        TransformError::InvalidAsciiByteValue => "INVALID_ASCII_BYTE_VALUE"@,
        TransformError::InvalidScaleOffset => "INVALID_SCALE_OFFSET"@,
    }
}

impl From<CompileError> for WasmError {
    fn from(e: CompileError) -> (r: Self)
        ensures
            r.code@ == compile_error_code(e),
            r.message@ == compile_error_message(e),
    {
        let code = match e {
            CompileError::InvalidArrayStride => "INVALID_ARRAY_STRIDE",
            CompileError::InvalidArrayCount => "INVALID_ARRAY_COUNT",
            CompileError::InvalidFieldSize => "INVALID_FIELD_SIZE",
            CompileError::InvalidFragment => "INVALID_FRAGMENT",
            CompileError::InvalidFieldKind => "INVALID_FIELD_KIND",
            CompileError::EmptyArrayElement => "EMPTY_ARRAY_ELEMENT",
            CompileError::InvalidFieldName => "INVALID_FIELD_NAME",
        };
        WasmError::new(code, e.to_string())
    }
}

impl vstd::std_specs::convert::FromSpecImpl<CompileError> for WasmError {
    /// Equal messages do not make equal `String` values to Verus, so `from`
    /// states its code and message in its own `ensures` instead.
    open spec fn obeys_from_spec() -> bool {
        false
    }

    open spec fn from_spec(v: CompileError) -> Self {
        choose|w: WasmError| w.code@ == compile_error_code(v) && w.message@ == compile_error_message(v)
    }
}


impl From<ReadError> for WasmError {
    fn from(e: ReadError) -> (r: Self)
        ensures
            r.code@ == read_error_code(e),
            r.message@ == read_error_message(e),
    {
        let code = match e {
            ReadError::OutOfBounds => "READ_OUT_OF_BOUNDS",
            ReadError::TooManyBitsRead => "TOO_MANY_BITS_READ",
            ReadError::PacketTooShort => "PACKET_TOO_SHORT",
        };
        WasmError::new(code, e.to_string())
    }
}

impl vstd::std_specs::convert::FromSpecImpl<ReadError> for WasmError {
    /// Equal messages do not make equal `String` values to Verus, so `from`
    /// states its code and message in its own `ensures` instead.
    open spec fn obeys_from_spec() -> bool {
        false
    }

    open spec fn from_spec(v: ReadError) -> Self {
        choose|w: WasmError| w.code@ == read_error_code(v) && w.message@ == read_error_message(v)
    }
}

impl From<WriteError> for WasmError {
    fn from(e: WriteError) -> (r: Self)
        ensures
            r.code@ == write_error_code(e@),
            r.message@ == write_error_message(e@),
    {
        let code = match &e {
            WriteError::OutOfBounds => "WRITE_OUT_OF_BOUNDS",
            WriteError::InvalidValue => "INVALID_VALUE",
            WriteError::MissingField(_) => "MISSING_FIELD",
            WriteError::UnsupportedValue { .. } => "UNSUPPORTED_VALUE",
        };
        WasmError::new(code, e.to_string())
    }
}

impl vstd::std_specs::convert::FromSpecImpl<WriteError> for WasmError {
    /// Equal messages do not make equal `String` values to Verus, so `from`
    /// states its code and message in its own `ensures` instead.
    open spec fn obeys_from_spec() -> bool {
        false
    }

    open spec fn from_spec(v: WriteError) -> Self {
        choose|w: WasmError| w.code@ == write_error_code(v@) && w.message@ == write_error_message(v@)
    }
}

impl From<TransformError> for WasmError {
    fn from(e: TransformError) -> (r: Self)
        ensures
            r.code@ == transform_error_code(e),
            r.message@ == transform_error_message(e),
    {
        let code = match e {
            TransformError::InvalidBase => "INVALID_BASE",
            TransformError::InvalidType => "INVALID_TYPE",
            TransformError::InvalidEnumValue(_) => "INVALID_ENUM_VALUE",
            TransformError::InvalidEncoding => "INVALID_ENCODING",
            TransformError::InvalidByteValue => "INVALID_BYTE_VALUE",
            TransformError::InvalidAsciiByteValue => "INVALID_ASCII_BYTE_VALUE",
            TransformError::InvalidScaleOffset => "INVALID_SCALE_OFFSET",
        };
        WasmError::new(code, e.to_string())
    }
}

impl vstd::std_specs::convert::FromSpecImpl<TransformError> for WasmError {
    /// Equal messages do not make equal `String` values to Verus, so `from`
    /// states its code and message in its own `ensures` instead.
    open spec fn obeys_from_spec() -> bool {
        false
    }

    open spec fn from_spec(v: TransformError) -> Self {
        choose|w: WasmError| w.code@ == transform_error_code(v) && w.message@ == transform_error_message(v)
    }
}

} // verus!
