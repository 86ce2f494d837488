//! Contiguous bit ranges, the building block every field is made of.

use vstd::prelude::*;

use crate::assembly::BitOrder;

verus! {

/// A contiguous bit range (`offset_bits`, `len_bits`) with its bit order.
#[derive(Debug, Clone, Copy, PartialEq, Eq, Structural)]
pub struct Fragment {
    /// Offset of the first bit from the start of the payload (or of the
    /// array element window).
    pub offset_bits: usize,
    /// Number of bits.
    pub len_bits: usize,
    /// Order of the bits inside the fragment.
    pub bit_order: BitOrder,
}

impl Fragment {
    /// A fragment of `len_bits` bits at `offset_bits`, read MSB-first.
    pub fn new(offset_bits: usize, len_bits: usize) -> (f: Self)
        ensures
            f == (Fragment { offset_bits, len_bits, bit_order: BitOrder::MsbFirst }),
    {
        Fragment { offset_bits, len_bits, bit_order: BitOrder::MsbFirst }
    }
}

impl Default for Fragment {
    fn default() -> (f: Self)
        ensures
            f == (Fragment { offset_bits: 0, len_bits: 0, bit_order: BitOrder::MsbFirst }),
    {
        Fragment { offset_bits: 0, len_bits: 0, bit_order: BitOrder::MsbFirst }
    }
}

} // verus!
