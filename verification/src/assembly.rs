//! Assembly options for how multi-fragment fields are combined and how bits are ordered.

use vstd::prelude::*;

pub use crate::value::Value;

verus! {

/// Bit order when reading a single fragment from the byte stream.
#[derive(Debug, Clone, Copy, PartialEq, Eq, Structural)]
pub enum BitOrder {
    MsbFirst,
    LsbFirst,
}

/// How multiple [crate::fragment::Fragment]s are concatenated to form a single value.
#[derive(Debug, Clone, Copy, PartialEq, Eq, Structural)]
pub enum Assemble {
    Concat(BitOrder),
}

impl Default for BitOrder {
    fn default() -> (r: Self)
        ensures
            r == BitOrder::MsbFirst,
    {
        BitOrder::MsbFirst
    }
}

/// Number of elements in an array field.
#[derive(Debug, Clone, Copy, PartialEq, Eq, Structural)]
pub enum ArrayCount {
    Fixed(usize),
}

} // verus!
