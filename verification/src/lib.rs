//! Runtime bit-level parser and serializer for binary data described by
//! declarative schemas.
//!
//! Bits are addressed MSB-first: bit 0 is the high bit of the first byte.

pub mod bitmath;
pub mod assembly;
pub mod bits;
pub mod errors;
pub mod value;
pub mod field;
pub mod fragment;
pub mod value_map;
pub mod compiled;
pub mod schema;
pub mod roundtrip;
pub mod transform;
pub mod wasm_error;
pub mod serde;
pub mod laws;
