//! Description of a schema's shape as it is read from JSON.
//!
//! These types describe the *shape* of the binary data to be parsed. They
//! are intended to be built from a schema document (for example a file
//! shipped with an application) and then converted into the core types.

use vstd::prelude::*;

use crate::assembly::{Assemble, BitOrder};
use crate::field::{ArraySpec, FieldKind};
use crate::fragment::Fragment;
use crate::schema::WriteConfig;
use crate::transform::{Base, Encoding};

verus! {

/// How individual fragments of bits are assembled into a numeric value.
#[derive(Debug, Clone, Copy, PartialEq, Eq, Structural)]
pub enum AssembleDef {
    /// Concatenate fragments most-significant-bit first.
    ConcatMsb,
    /// Concatenate fragments least-significant-bit first.
    ConcatLsb,
}

/// Bit order to use when reading a fragment.
#[derive(Debug, Clone, Copy, PartialEq, Eq, Structural)]
pub enum BitOrderDef {
    /// Most-significant bit first within the fragment.
    MsbFirst,
    /// Least-significant bit first within the fragment.
    LsbFirst,
}

impl Default for BitOrderDef {
    fn default() -> (r: Self)
        ensures
            r == BitOrderDef::MsbFirst,
    {
        BitOrderDef::MsbFirst
    }
}

/// How serialized bits are packed into bytes.
#[derive(Debug, Clone, Copy, PartialEq, Eq, Structural)]
pub struct WriteConfigDef {
    pub bit_order: BitOrderDef,
}

/// Kind of field in the schema.
#[derive(Debug, Clone, Copy, PartialEq, Eq, Structural)]
pub enum FieldKindDef {
    /// Single scalar value.
    Scalar,
    /// Fixed-size array of values laid out with a constant stride.
    Array {
        /// Number of elements in the array.
        count: usize,
        /// Distance in bits between consecutive elements.
        stride_bits: usize,
        /// Bit offset of the first element from the start of the payload.
        offset_bits: usize,
    },
}

/// Bit-level fragment that contributes to a field value.
#[derive(Debug, Clone, Copy, PartialEq, Eq, Structural)]
pub struct FragmentDef {
    /// Offset of the first bit of this fragment from the start of the payload.
    pub offset_bits: usize,
    /// Length of the fragment in bits.
    pub len_bits: usize,
    /// Optional bit order inside the fragment; defaults to MSB-first.
    pub bit_order: Option<BitOrderDef>,
}

/// Base type of the value before any transform is applied.
#[derive(Debug, Clone, Copy, PartialEq, Eq, Structural)]
pub enum BaseDef {
    /// Signed/unsigned integer value.
    Int,
    /// 32-bit floating-point value.
    Float32,
    /// 64-bit floating-point value.
    Float64,
    /// Raw bytes (often used together with [`EncodingDef`]).
    Bytes,
}

/// Text encoding to use when interpreting byte values as strings.
#[derive(Debug, Clone, Copy, PartialEq, Eq, Structural)]
pub enum EncodingDef {
    /// UTF-8 encoded string.
    Utf8,
    /// ASCII encoded string.
    Ascii,
}

/// The bit order a described bit order stands for.
pub open spec fn bit_order_of(d: BitOrderDef) -> BitOrder {
    match d {
        BitOrderDef::MsbFirst => BitOrder::MsbFirst,
        BitOrderDef::LsbFirst => BitOrder::LsbFirst,
    }
}

impl From<BitOrderDef> for BitOrder {
    fn from(value: BitOrderDef) -> (r: Self)
        ensures
            value == BitOrderDef::MsbFirst ==> r == BitOrder::MsbFirst,
            value == BitOrderDef::LsbFirst ==> r == BitOrder::LsbFirst,
    {
        match value {
            BitOrderDef::MsbFirst => BitOrder::MsbFirst,
            BitOrderDef::LsbFirst => BitOrder::LsbFirst,
        }
    }
}

impl vstd::std_specs::convert::FromSpecImpl<BitOrderDef> for BitOrder {
    open spec fn obeys_from_spec() -> bool {
        true
    }

    open spec fn from_spec(v: BitOrderDef) -> Self {
        bit_order_of(v)
    }
}

impl From<AssembleDef> for Assemble {
    fn from(value: AssembleDef) -> (r: Self)
        ensures
            value == AssembleDef::ConcatMsb ==> r == Assemble::Concat(BitOrder::MsbFirst),
            value == AssembleDef::ConcatLsb ==> r == Assemble::Concat(BitOrder::LsbFirst),
    {
        match value {
            AssembleDef::ConcatMsb => Assemble::Concat(BitOrder::MsbFirst),
            AssembleDef::ConcatLsb => Assemble::Concat(BitOrder::LsbFirst),
        }
    }
}

impl vstd::std_specs::convert::FromSpecImpl<AssembleDef> for Assemble {
    open spec fn obeys_from_spec() -> bool {
        true
    }

    open spec fn from_spec(v: AssembleDef) -> Self {
        match v {
            AssembleDef::ConcatMsb => Assemble::Concat(BitOrder::MsbFirst),
            AssembleDef::ConcatLsb => Assemble::Concat(BitOrder::LsbFirst),
        }
    }
}

impl From<WriteConfigDef> for WriteConfig {
    fn from(value: WriteConfigDef) -> (r: Self)
        ensures
            value.bit_order == BitOrderDef::MsbFirst ==> r.bit_order == BitOrder::MsbFirst,
            value.bit_order == BitOrderDef::LsbFirst ==> r.bit_order == BitOrder::LsbFirst,
    {
        WriteConfig { bit_order: BitOrder::from(value.bit_order) }
    }
}

impl vstd::std_specs::convert::FromSpecImpl<WriteConfigDef> for WriteConfig {
    open spec fn obeys_from_spec() -> bool {
        true
    }

    open spec fn from_spec(v: WriteConfigDef) -> Self {
        WriteConfig { bit_order: bit_order_of(v.bit_order) }
    }
}

impl From<FieldKindDef> for FieldKind {
    fn from(value: FieldKindDef) -> (r: Self)
        ensures
            value == FieldKindDef::Scalar ==> r == FieldKind::Scalar,
            value matches FieldKindDef::Array { count, stride_bits, offset_bits } ==> r == FieldKind::Array(
                ArraySpec { count, stride_bits, offset_bits },
            ),
    {
        match value {
            FieldKindDef::Scalar => FieldKind::Scalar,
            FieldKindDef::Array { count, stride_bits, offset_bits } => FieldKind::Array(
                ArraySpec { count, stride_bits, offset_bits },
            ),
        }
    }
}

impl vstd::std_specs::convert::FromSpecImpl<FieldKindDef> for FieldKind {
    open spec fn obeys_from_spec() -> bool {
        true
    }

    open spec fn from_spec(v: FieldKindDef) -> Self {
        match v {
            FieldKindDef::Scalar => FieldKind::Scalar,
            FieldKindDef::Array { count, stride_bits, offset_bits } => FieldKind::Array(
                ArraySpec { count, stride_bits, offset_bits },
            ),
        }
    }
}

impl From<FragmentDef> for Fragment {
    /// A fragment without a bit order is read most significant bit first.
    fn from(value: FragmentDef) -> (r: Self)
        ensures
            r.offset_bits == value.offset_bits,
            r.len_bits == value.len_bits,
            value.bit_order is None ==> r.bit_order == BitOrder::MsbFirst,
            value.bit_order == Some(BitOrderDef::MsbFirst) ==> r.bit_order == BitOrder::MsbFirst,
            value.bit_order == Some(BitOrderDef::LsbFirst) ==> r.bit_order == BitOrder::LsbFirst,
    {
        Fragment {
            offset_bits: value.offset_bits,
            len_bits: value.len_bits,
            bit_order: match value.bit_order {
                Some(order) => BitOrder::from(order),
                None => BitOrder::MsbFirst,
            },
        }
    }
}

impl vstd::std_specs::convert::FromSpecImpl<FragmentDef> for Fragment {
    open spec fn obeys_from_spec() -> bool {
        true
    }

    open spec fn from_spec(v: FragmentDef) -> Self {
        Fragment {
            offset_bits: v.offset_bits,
            len_bits: v.len_bits,
            bit_order: match v.bit_order {
                Some(order) => bit_order_of(order),
                None => BitOrder::MsbFirst,
            },
        }
    }
}

impl From<BaseDef> for Base {
    fn from(value: BaseDef) -> (r: Self)
        ensures
            value == BaseDef::Int ==> r == Base::Int,
            value == BaseDef::Float32 ==> r == Base::Float32,
            value == BaseDef::Float64 ==> r == Base::Float64,
            value == BaseDef::Bytes ==> r == Base::Bytes,
    {
        match value {
            BaseDef::Int => Base::Int,
            BaseDef::Float32 => Base::Float32,
            BaseDef::Float64 => Base::Float64,
            BaseDef::Bytes => Base::Bytes,
        }
    }
}

impl vstd::std_specs::convert::FromSpecImpl<BaseDef> for Base {
    open spec fn obeys_from_spec() -> bool {
        true
    }

    open spec fn from_spec(v: BaseDef) -> Self {
        match v {
            BaseDef::Int => Base::Int,
            BaseDef::Float32 => Base::Float32,
            BaseDef::Float64 => Base::Float64,
            BaseDef::Bytes => Base::Bytes,
        }
    }
}

impl From<EncodingDef> for Encoding {
    fn from(value: EncodingDef) -> (r: Self)
        ensures
            value == EncodingDef::Utf8 ==> r == Encoding::Utf8,
            value == EncodingDef::Ascii ==> r == Encoding::Ascii,
    {
        match value {
            EncodingDef::Utf8 => Encoding::Utf8,
            EncodingDef::Ascii => Encoding::Ascii,
        }
    }
}

impl vstd::std_specs::convert::FromSpecImpl<EncodingDef> for Encoding {
    open spec fn obeys_from_spec() -> bool {
        true
    }

    open spec fn from_spec(v: EncodingDef) -> Self {
        match v {
            EncodingDef::Utf8 => Encoding::Utf8,
            EncodingDef::Ascii => Encoding::Ascii,
        }
    }
}

} // verus!
