//! The integer, byte and text steps of a transform, which turns a raw
//! parsed value into a more useful one:
//! - **Base type**: how to reinterpret the raw value (integer, float32,
//!   float64 bit pattern, or byte array).
//! - **Enum mapping**: for integers, an optional map from numeric values to
//!   string labels.
//! - **String decoding**: for byte arrays, optional UTF-8 or ASCII decoding
//!   with zero-termination and trimming.
//!
//! The numeric modifiers (scale and offset) work on floating-point numbers
//! and are applied by the caller between base reinterpretation and enum
//! mapping.

use vstd::prelude::*;
use vstd::string::StringExecFns;
use vstd::utf8::{valid_utf8, decode_utf8};
use vstd::std_specs::hash::group_hash_axioms;
use std::collections::HashMap;

use crate::value::{Value, ValueModel, models_of, lemma_models_of_index, lemma_models_of_len};

verus! {

broadcast use group_hash_axioms;

/// Errors that can occur when applying a transform to a raw value.
#[derive(Debug, Clone, Copy, PartialEq, Eq, Structural)]
pub enum TransformError {
    /// The raw value cannot be interpreted as the requested base type.
    InvalidBase,
    /// The value type does not match what the transform expects (e.g. encoding on non-bytes).
    InvalidType,
    /// An integer value has no entry in the enum map.
    InvalidEnumValue(i64),
    /// Byte sequence is not valid for the chosen encoding (e.g. invalid UTF-8).
    InvalidEncoding,
    /// A byte element is outside 0..=255 (e.g. in a bytes array).
    InvalidByteValue,
    /// An ASCII-encoded byte is outside 0..=0x7F.
    InvalidAsciiByteValue,
    /// Scale or offset is non-finite (NaN or infinity).
    InvalidScaleOffset,
}

/// Base interpretation for raw assembly values.
#[derive(Debug, Clone, Copy, PartialEq, Eq, Structural)]
pub enum Base {
    /// Interpret as 64-bit signed or unsigned integer.
    Int,
    /// Reinterpret 32 bits as an IEEE 754 float.
    Float32,
    /// Reinterpret 64 bits as an IEEE 754 double.
    Float64,
    /// Treat an array of byte-sized values as a byte buffer.
    Bytes,
}

impl Default for Base {
    fn default() -> (b: Self)
        ensures
            b == Base::Int,
    {
        Base::Int
    }
}

/// Character encoding for decoding byte arrays to strings.
#[derive(Debug, Clone, Copy, PartialEq, Eq, Structural)]
pub enum Encoding {
    /// UTF-8. Any valid UTF-8 byte sequence is accepted.
    Utf8,
    /// ASCII. Every byte must be in 0..=0x7F.
    Ascii,
}

/// Human-readable description of a [`TransformError`].
pub open spec fn transform_error_message(e: TransformError) -> Seq<char> {
    match e {
        TransformError::InvalidBase => "raw value cannot be interpreted as the requested base type"@,
        TransformError::InvalidType => "value type does not match what the transform expects"@,
        TransformError::InvalidEnumValue(_) => "integer value has no entry in the enum map"@,
        TransformError::InvalidEncoding => "byte sequence is not valid for the chosen encoding"@,
        TransformError::InvalidByteValue => "byte element is outside 0..=255"@,
        TransformError::InvalidAsciiByteValue => "ASCII-encoded byte is outside 0..=0x7F"@,
        TransformError::InvalidScaleOffset => "scale or offset is not finite"@,
    }
}

impl TransformError {
    /// Describes the error in words.
    pub fn to_string(&self) -> (r: String)
        ensures
            r@ == transform_error_message(*self),
    {
        match self {
            TransformError::InvalidBase => String::from_str("raw value cannot be interpreted as the requested base type"),
            TransformError::InvalidType => String::from_str("value type does not match what the transform expects"),
            TransformError::InvalidEnumValue(_) => String::from_str("integer value has no entry in the enum map"),
            TransformError::InvalidEncoding => String::from_str("byte sequence is not valid for the chosen encoding"),
            TransformError::InvalidByteValue => String::from_str("byte element is outside 0..=255"),
            TransformError::InvalidAsciiByteValue => String::from_str("ASCII-encoded byte is outside 0..=0x7F"),
            TransformError::InvalidScaleOffset => String::from_str("scale or offset is not finite"),
        }
    }
}


/// Checks the combination of a base with the options that depend on it:
/// an encoding needs [`Base::Bytes`], an enum map needs [`Base::Int`].
pub fn validate_options(base: &Base, has_encoding: bool, has_enum_map: bool) -> (r: Result<(), TransformError>)
    ensures
        r is Err <==> (has_encoding && *base != Base::Bytes) || (has_enum_map && *base != Base::Int),
        r is Err ==> r == Err::<(), TransformError>(TransformError::InvalidType),
{
    if *base == Base::Bytes && has_enum_map {
        return Err(TransformError::InvalidType);
    }
    if has_encoding && *base != Base::Bytes {
        return Err(TransformError::InvalidType);
    }
    if has_enum_map && *base != Base::Int {
        return Err(TransformError::InvalidType);
    }
    Ok(())
}

/// What reinterpreting `v` as `base` gives: integers stay as they are (an
/// unsigned value is not made signed), `Float32` takes the low 32 bits of an
/// unsigned value as a binary32 pattern, `Float64` all 64 bits as a
/// binary64 pattern; anything else is an invalid base.
pub open spec fn reinterpreted(base: Base, v: ValueModel) -> Result<ValueModel, TransformError> {
    match (base, v) {
        (Base::Int, ValueModel::U64(x)) => Ok(ValueModel::U64(x)),
        (Base::Int, ValueModel::I64(x)) => Ok(ValueModel::I64(x)),
        (Base::Float32, ValueModel::U64(x)) => Ok(ValueModel::F32(x as u32)),
        (Base::Float64, ValueModel::U64(x)) => Ok(ValueModel::F64(x)),
        _ => Err(TransformError::InvalidBase),
    }
}

/// Interprets a raw assembly value according to the given base type
/// (int/float32/float64). The bytes base is not handled here; use
/// [`extract_bytes`] for that.
pub fn reinterpret_base(base: &Base, value: Value) -> (r: Result<Value, TransformError>)
    ensures
        match r {
            Ok(v) => reinterpreted(*base, value@) == Ok::<ValueModel, TransformError>(v@),
            Err(e) => reinterpreted(*base, value@) == Err::<ValueModel, TransformError>(e),
        },
{
    match (base, value) {
        (Base::Int, Value::U64(v)) => Ok(Value::U64(v)),
        (Base::Int, Value::I64(v)) => Ok(Value::I64(v)),
        (Base::Float32, Value::U64(v)) => Ok(Value::F32(v as u32)),
        (Base::Float64, Value::U64(v)) => Ok(Value::F64(v)),
        _ => Err(TransformError::InvalidBase),
    }
}

/// The byte an array element stands for: an integer in 0..=255.
pub open spec fn byte_of(v: ValueModel) -> Result<u8, TransformError> {
    match v {
        ValueModel::U64(x) => if x <= 255 { Ok(x as u8) } else { Err(TransformError::InvalidByteValue) },
        ValueModel::I64(x) => if 0 <= x <= 255 { Ok(x as u8) } else { Err(TransformError::InvalidByteValue) },
        _ => Err(TransformError::InvalidType),
    }
}

/// The bytes the elements stand for; the first element that is not a byte
/// decides the error.
pub open spec fn bytes_of(vals: Seq<ValueModel>) -> Result<Seq<u8>, TransformError>
    decreases vals.len(),
{
    if vals.len() == 0 {
        Ok(Seq::empty())
    } else {
        match bytes_of(vals.drop_last()) {
            Err(e) => Err(e),
            Ok(bs) => match byte_of(vals.last()) {
                Err(e) => Err(e),
                Ok(b) => Ok(bs.push(b)),
            },
        }
    }
}

/// The bytes an array value stands for; any other value has the wrong type.
pub open spec fn extracted_bytes(v: ValueModel) -> Result<Seq<u8>, TransformError> {
    match v {
        ValueModel::Array(vals) => bytes_of(vals),
        _ => Err(TransformError::InvalidType),
    }
}

proof fn lemma_bytes_of_err(vals: Seq<ValueModel>, i: int, e: TransformError)
    requires
        0 <= i <= vals.len(),
        bytes_of(vals.take(i)) == Err::<Seq<u8>, TransformError>(e),
    ensures
        bytes_of(vals) == Err::<Seq<u8>, TransformError>(e),
    decreases vals.len() - i,
{
    if i < vals.len() {
        assert(vals.take(i + 1).drop_last() == vals.take(i));
        lemma_bytes_of_err(vals, i + 1, e);
    } else {
        assert(vals.take(i) == vals);
    }
}

/// Extracts a byte vector from an array of byte-sized U64/I64 values.
pub fn extract_bytes(raw: Value) -> (r: Result<Vec<u8>, TransformError>)
    ensures
        match r {
            Ok(b) => extracted_bytes(raw@) == Ok::<Seq<u8>, TransformError>(b@),
            Err(e) => extracted_bytes(raw@) == Err::<Seq<u8>, TransformError>(e),
        },
{
    let ghost rv = raw@;
    match &raw {
        Value::Array(values) => {
            let ghost vals = models_of(values@);
            assert(rv == ValueModel::Array(vals));
            proof {
                lemma_models_of_len(values@);
            }
            let mut bytes: Vec<u8> = Vec::with_capacity(values.len());
            let mut i: usize = 0;
            assert(vals.take(0) =~= Seq::<ValueModel>::empty());
            while i < values.len()
                invariant
                    i <= values@.len() == vals.len(),
                    vals == models_of(values@),
                    rv == ValueModel::Array(vals),
                    rv == raw@,
                    bytes_of(vals.take(i as int)) == Ok::<Seq<u8>, TransformError>(bytes@),
                decreases values@.len() - i,
            {
                proof {
                    lemma_models_of_index(values@, i as int);
                }
                assert(vals.take(i + 1).drop_last() == vals.take(i as int));
                assert(vals.take(i + 1).last() == vals[i as int]);
                match &values[i] {
                    Value::U64(x) => {
                        if *x > 255 {
                            proof {
                                lemma_bytes_of_err(vals, i + 1, TransformError::InvalidByteValue);
                            }
                            return Err(TransformError::InvalidByteValue);
                        }
                        bytes.push(*x as u8);
                    },
                    Value::I64(x) => {
                        if !(0 <= *x && *x <= 255) {
                            proof {
                                lemma_bytes_of_err(vals, i + 1, TransformError::InvalidByteValue);
                            }
                            return Err(TransformError::InvalidByteValue);
                        }
                        bytes.push(*x as u8);
                    },
                    _ => {
                        proof {
                            lemma_bytes_of_err(vals, i + 1, TransformError::InvalidType);
                        }
                        return Err(TransformError::InvalidType);
                    },
                }
                i += 1;
            }
            assert(vals.take(vals.len() as int) == vals);
            Ok(bytes)
        },
        _ => Err(TransformError::InvalidType),
    }
}

/// The map an optional enum map stands for.
pub open spec fn enum_map_view(m: Option<HashMap<i64, String>>) -> Option<Map<i64, String>> {
    match m {
        Some(h) => Some(h@),
        None => None,
    }
}

/// What enum mapping gives for `v`: without a map the value itself; with a
/// map the label of an integer (an unsigned value taken as the `i64` of the
/// same bits), an error for an integer without a label or for any other
/// value.
pub open spec fn enum_applied(v: ValueModel, m: Option<Map<i64, String>>) -> Result<ValueModel, TransformError> {
    match m {
        None => Ok(v),
        Some(m) => match v {
            ValueModel::I64(x) => if m.contains_key(x) {
                Ok(ValueModel::String(m[x]@))
            } else {
                Err(TransformError::InvalidEnumValue(x))
            },
            ValueModel::U64(x) => if m.contains_key(x as i64) {
                Ok(ValueModel::String(m[x as i64]@))
            } else {
                Err(TransformError::InvalidEnumValue(x as i64))
            },
            _ => Err(TransformError::InvalidType),
        },
    }
}

/// If `enum_map` is set, maps an integer value to its string label.
pub fn apply_enum(value: Value, enum_map: &Option<HashMap<i64, String>>) -> (r: Result<Value, TransformError>)
    ensures
        match r {
            Ok(v) => enum_applied(value@, enum_map_view(*enum_map)) == Ok::<ValueModel, TransformError>(v@),
            Err(e) => enum_applied(value@, enum_map_view(*enum_map)) == Err::<ValueModel, TransformError>(e),
        },
{
    match enum_map {
        Some(map) => match value {
            Value::I64(v) => match map.get(&v) {
                Some(s) => Ok(Value::String(s.clone())),
                None => Err(TransformError::InvalidEnumValue(v)),
            },
            Value::U64(v) => {
                let key = v as i64;
                match map.get(&key) {
                    Some(s) => Ok(Value::String(s.clone())),
                    None => Err(TransformError::InvalidEnumValue(key)),
                }
            },
            _ => Err(TransformError::InvalidType),
        },
        None => Ok(value),
    }
}


/// The characters of the Unicode `White_Space` property.
pub open spec fn is_white_space(c: char) -> bool {
    let u = c as u32;
    ||| 0x09 <= u <= 0x0D
    ||| u == 0x20
    ||| u == 0x85
    ||| u == 0xA0
    ||| u == 0x1680
    ||| 0x2000 <= u <= 0x200A
    ||| u == 0x2028
    ||| u == 0x2029
    ||| u == 0x202F
    ||| u == 0x205F
    ||| u == 0x3000
}

/// `s` without its leading white space.
pub open spec fn trim_start(s: Seq<char>) -> Seq<char>
    decreases s.len(),
{
    if s.len() > 0 && is_white_space(s[0]) {
        trim_start(s.drop_first())
    } else {
        s
    }
}

/// `s` without its trailing white space.
pub open spec fn trim_end(s: Seq<char>) -> Seq<char>
    decreases s.len(),
{
    if s.len() > 0 && is_white_space(s.last()) {
        trim_end(s.drop_last())
    } else {
        s
    }
}

/// `s` without its leading and trailing white space.
pub open spec fn trimmed(s: Seq<char>) -> Seq<char> {
    trim_end(trim_start(s))
}

/// The bytes before the first zero byte; all of them when there is none.
pub open spec fn until_zero(b: Seq<u8>) -> Seq<u8> {
    if exists|k: int| 0 <= k < b.len() && b[k] == 0 {
        b.take(choose|k: int| first_zero(b, k))
    } else {
        b
    }
}

/// Byte `k` is the first zero byte of `b`.
pub open spec fn first_zero(b: Seq<u8>, k: int) -> bool {
    &&& 0 <= k < b.len()
    &&& b[k] == 0
    &&& forall|j: int| 0 <= j < k ==> #[trigger] b[j] != 0
}

/// Every byte is ASCII.
pub open spec fn all_ascii(b: Seq<u8>) -> bool {
    forall|k: int| 0 <= k < b.len() ==> #[trigger] b[k] <= 0x7F
}

/// The string `b` decodes to with encoding `enc`, trimmed if asked; ASCII
/// refuses any byte above 0x7F, and the bytes must be valid UTF-8.
pub open spec fn decoded(b: Seq<u8>, enc: Encoding, trim: bool) -> Result<ValueModel, TransformError> {
    if enc == Encoding::Ascii && !all_ascii(b) {
        Err(TransformError::InvalidAsciiByteValue)
    } else if !valid_utf8(b) {
        Err(TransformError::InvalidEncoding)
    } else if trim {
        Ok(ValueModel::String(trimmed(decode_utf8(b))))
    } else {
        Ok(ValueModel::String(decode_utf8(b)))
    }
}

/// What string decoding gives for `v`: without an encoding the value
/// itself; with one, the decoded bytes of a byte value (cut at the first
/// zero byte when zero-terminated), an error for any other value.
pub open spec fn string_applied(
    v: ValueModel,
    encoding: Option<Encoding>,
    zero_terminated: Option<bool>,
    trim: Option<bool>,
) -> Result<ValueModel, TransformError> {
    match encoding {
        None => Ok(v),
        Some(enc) => match v {
            ValueModel::Bytes(b) => decoded(
                if zero_terminated == Some(true) { until_zero(b) } else { b },
                enc,
                trim == Some(true),
            ),
            _ => Err(TransformError::InvalidType),
        },
    }
}

/// `String::from_utf8`: the characters that `bytes` encode when they are
/// valid UTF-8, `None` when they are not.
#[verifier::external_body]
fn string_from_utf8(bytes: Vec<u8>) -> (r: Option<String>)
    ensures
        r is Some <==> valid_utf8(bytes@),
        r matches Some(s) ==> s@ == decode_utf8(bytes@),
{
    String::from_utf8(bytes).ok()
}

/// `str::trim`: `s` without its leading and trailing characters of the
/// Unicode `White_Space` property.
#[verifier::external_body]
fn trim_white_space<'a>(s: &'a str) -> (r: &'a str)
    ensures
        r@ == trimmed(s@),
{
    s.trim()
}

/// Position of the first zero byte of `bytes`, if any.
fn first_zero_position(bytes: &Vec<u8>) -> (r: Option<usize>)
    ensures
        match r {
            Some(k) => first_zero(bytes@, k as int),
            None => forall|k: int| 0 <= k < bytes@.len() ==> #[trigger] bytes@[k] != 0,
        },
{
    let mut k: usize = 0;
    while k < bytes.len()
        invariant
            k <= bytes@.len(),
            forall|j: int| 0 <= j < k ==> #[trigger] bytes@[j] != 0,
        decreases bytes@.len() - k,
    {
        if bytes[k] == 0 {
            return Some(k);
        }
        k += 1;
    }
    None
}

/// Whether every byte is ASCII.
fn is_all_ascii(bytes: &Vec<u8>) -> (r: bool)
    ensures
        r == all_ascii(bytes@),
{
    let mut k: usize = 0;
    while k < bytes.len()
        invariant
            k <= bytes@.len(),
            forall|j: int| 0 <= j < k ==> #[trigger] bytes@[j] <= 0x7F,
        decreases bytes@.len() - k,
    {
        if bytes[k] > 0x7F {
            return false;
        }
        k += 1;
    }
    true
}

/// If `encoding` is set, decodes bytes to a string (UTF-8 or ASCII),
/// optionally zero-terminated and trimmed.
pub fn apply_string(
    value: Value,
    encoding: &Option<Encoding>,
    zero_terminated: Option<bool>,
    trim: Option<bool>,
) -> (r: Result<Value, TransformError>)
    ensures
        match r {
            Ok(v) => string_applied(value@, *encoding, zero_terminated, trim) == Ok::<ValueModel, TransformError>(v@),
            Err(e) => string_applied(value@, *encoding, zero_terminated, trim) == Err::<ValueModel, TransformError>(e),
        },
{
    let encoding = match encoding {
        Some(e) => e,
        None => return Ok(value),
    };
    let ghost vv = value@;
    let mut bytes = match value {
        Value::Bytes(b) => b,
        _ => return Err(TransformError::InvalidType),
    };
    let ghost b0 = bytes@;
    assert(vv == ValueModel::Bytes(b0));
    if zero_terminated == Some(true) {
        if let Some(pos) = first_zero_position(&bytes) {
            bytes.truncate(pos);
            proof {
                let p = pos as int;
                assert(first_zero(b0, p));
                let c = choose|k: int| first_zero(b0, k);
                assert(first_zero(b0, c));
                if c < p {
                    assert(b0[c] != 0);
                } else if c > p {
                    assert(b0[p] != 0);
                }
                assert(bytes@ == until_zero(b0));
            }
        } else {
            assert(!exists|k: int| 0 <= k < b0.len() && b0[k] == 0);
            assert(bytes@ == until_zero(b0));
        }
    }
    let ghost cut = bytes@;
    if *encoding == Encoding::Ascii {
        if !is_all_ascii(&bytes) {
            return Err(TransformError::InvalidAsciiByteValue);
        }
    }
    let s = match string_from_utf8(bytes) {
        Some(s) => s,
        None => return Err(TransformError::InvalidEncoding),
    };
    if trim == Some(true) {
        let t = trim_white_space(s.as_str()).to_owned();
        Ok(Value::String(t))
    } else {
        Ok(Value::String(s))
    }
}

/// The byte path of a transform: the bytes an array value stands for,
/// decoded to a string if an encoding is set.
pub fn apply_bytes(
    raw: Value,
    encoding: &Option<Encoding>,
    zero_terminated: Option<bool>,
    trim: Option<bool>,
) -> (r: Result<Value, TransformError>)
    ensures
        match extracted_bytes(raw@) {
            Err(e) => r == Err::<Value, TransformError>(e),
            Ok(b) => match r {
                Ok(v) => string_applied(ValueModel::Bytes(b), *encoding, zero_terminated, trim)
                    == Ok::<ValueModel, TransformError>(v@),
                Err(e) => string_applied(ValueModel::Bytes(b), *encoding, zero_terminated, trim)
                    == Err::<ValueModel, TransformError>(e),
            },
        },
{
    let bytes = match extract_bytes(raw) {
        Ok(b) => b,
        Err(e) => return Err(e),
    };
    apply_string(Value::Bytes(bytes), encoding, zero_terminated, trim)
}

} // verus!
