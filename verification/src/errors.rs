//! Error types for schema compilation and bit reading/writing.

use vstd::prelude::*;
use vstd::string::StringExecFns;

verus! {

/// Errors produced when compiling a [`crate::field::Field`] into a [`crate::compiled::CompiledField`].
#[derive(Debug, Clone, Copy, PartialEq, Eq, Structural)]
pub enum CompileError {
    /// Array stride is smaller than the element size.
    InvalidArrayStride,
    /// Array count is zero.
    InvalidArrayCount,
    /// Scalar field total size is 0 or greater than 64 bits.
    InvalidFieldSize,
    /// Fragment has zero length or is otherwise invalid.
    InvalidFragment,
    /// Field kind is not supported.
    InvalidFieldKind,
    /// Array element has no fragments.
    EmptyArrayElement,
    /// Field name is invalid (e.g. empty or duplicate).
    InvalidFieldName,
}

/// Errors produced when reading bits from a byte slice (e.g. during [`crate::schema::Schema::parse`]).
#[derive(Debug, Clone, Copy, PartialEq, Eq, Structural)]
pub enum ReadError {
    /// Requested bit range is beyond the end of the data.
    OutOfBounds,
    /// More than 64 bits were requested in a single read.
    TooManyBitsRead,
    /// Input data is shorter than the schema's total bit length.
    PacketTooShort,
}

/// Errors produced when writing values back to bytes (e.g. during [`crate::schema::Schema::serialize`]).
#[derive(Debug, Clone, PartialEq, Eq)]
pub enum WriteError {
    /// Buffer is too short to write the value, or requested width exceeds 64 bits.
    OutOfBounds,
    /// Value cannot be written to this field (e.g. array length mismatch, or Array variant for a scalar field).
    InvalidValue,
    /// Required field missing from the input object.
    MissingField(String),
    /// The provided value variant (e.g. F32/F64/Bytes/String) is not supported for serialization.
    UnsupportedValue { field: String, variant: &'static str },
}

/// Model of a [`WriteError`]: names as character sequences.
pub enum WriteErrorModel {
    OutOfBounds,
    InvalidValue,
    MissingField(Seq<char>),
    UnsupportedValue { field: Seq<char>, variant: Seq<char> },
}

impl View for WriteError {
    type V = WriteErrorModel;

    open spec fn view(&self) -> WriteErrorModel {
        match self {
            WriteError::OutOfBounds => WriteErrorModel::OutOfBounds,
            WriteError::InvalidValue => WriteErrorModel::InvalidValue,
            WriteError::MissingField(name) => WriteErrorModel::MissingField(name@),
            WriteError::UnsupportedValue { field, variant } => WriteErrorModel::UnsupportedValue {
                field: field@,
                variant: variant@,
            },
        }
    }
}


/// Human-readable description of a [`CompileError`].
pub open spec fn compile_error_message(e: CompileError) -> Seq<char> {
    match e {
        CompileError::InvalidArrayStride => "array stride is smaller than element size"@,
        CompileError::InvalidArrayCount => "array count is zero"@,
        CompileError::InvalidFieldSize => "field total size must be 1..=64 bits"@,
        CompileError::InvalidFragment => "fragment is invalid (zero length or malformed)"@,
        CompileError::InvalidFieldKind => "unsupported field kind"@,
        CompileError::EmptyArrayElement => "array element has no fragments"@,
        CompileError::InvalidFieldName => "field name is empty or duplicated"@,
    }
}

impl CompileError {
    /// Describes the error in words.
    pub fn to_string(&self) -> (r: String)
        ensures
            r@ == compile_error_message(*self),
    {
        match self {
            CompileError::InvalidArrayStride => String::from_str("array stride is smaller than element size"),
            CompileError::InvalidArrayCount => String::from_str("array count is zero"),
            CompileError::InvalidFieldSize => String::from_str("field total size must be 1..=64 bits"),
            CompileError::InvalidFragment => String::from_str("fragment is invalid (zero length or malformed)"),
            CompileError::InvalidFieldKind => String::from_str("unsupported field kind"),
            CompileError::EmptyArrayElement => String::from_str("array element has no fragments"),
            CompileError::InvalidFieldName => String::from_str("field name is empty or duplicated"),
        }
    }
}

/// Human-readable description of a [`ReadError`].
pub open spec fn read_error_message(e: ReadError) -> Seq<char> {
    match e {
        ReadError::OutOfBounds => "bit range is beyond the end of the data"@,
        ReadError::TooManyBitsRead => "requested more than 64 bits in one read"@,
        ReadError::PacketTooShort => "input data is shorter than the schema's total bit length"@,
    }
}

impl ReadError {
    /// Describes the error in words.
    pub fn to_string(&self) -> (r: String)
        ensures
            r@ == read_error_message(*self),
    {
        match self {
            ReadError::OutOfBounds => String::from_str("bit range is beyond the end of the data"),
            ReadError::TooManyBitsRead => String::from_str("requested more than 64 bits in one read"),
            ReadError::PacketTooShort => String::from_str("input data is shorter than the schema's total bit length"),
        }
    }
}

/// Human-readable description of a [`WriteError`], naming the field it concerns.
pub open spec fn write_error_message(e: WriteErrorModel) -> Seq<char> {
    match e {
        WriteErrorModel::OutOfBounds => "buffer is too short to write the value"@,
        WriteErrorModel::InvalidValue => "value cannot be written to this field"@,
        WriteErrorModel::MissingField(name) => "missing field '"@ + name + "' in object"@,
        WriteErrorModel::UnsupportedValue { field, variant } => "field '"@ + field + "' received Value::"@
            + variant + "; serialize accepts only U64, I64, and Array"@,
    }
}

impl WriteError {
    /// Describes the error in words.
    pub fn to_string(&self) -> (r: String)
        ensures
            r@ == write_error_message(self@),
    {
        match self {
            WriteError::OutOfBounds => String::from_str("buffer is too short to write the value"),
            WriteError::InvalidValue => String::from_str("value cannot be written to this field"),
            WriteError::MissingField(name) => {
                let mut s = String::from_str("missing field '");
                s.append(name.as_str());
                s.append("' in object");
                s
            },
            WriteError::UnsupportedValue { field, variant } => {
                let mut s = String::from_str("field '");
                s.append(field.as_str());
                s.append("' received Value::");
                s.append(variant);
                s.append("; serialize accepts only U64, I64, and Array");
                s
            },
        }
    }
}

} // verus!
