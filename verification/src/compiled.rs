//! Compiled (executable) representation of fields and fragments for fast parsing.

use vstd::prelude::*;

use crate::assembly::{ArrayCount, Assemble, BitOrder};
use vstd::arithmetic::power2::pow2;
use vstd::bits::lemma_u64_shr_is_div;
use crate::bitmath::{reversed_bits, value_bit};
use crate::bits::{read_bits_at, read_bits_spec, reverse_bits_n, sign_extend, signed_of_width};
use crate::errors::{CompileError, ReadError, WriteError};
use crate::value::{Value, ValueModel, models_of, lemma_models_of_index};
use crate::field::{Field, FieldKind};
use crate::fragment::Fragment;

verus! {

/// A fragment with precomputed shift for merging into the final scalar value.
#[derive(Debug, Clone, Copy, PartialEq, Eq, Structural)]
pub struct CompiledFragment {
    pub offset_bits: usize,
    pub len_bits: usize,
    pub bit_order: BitOrder,
    /// Shift to apply when OR-ing into the accumulator.
    pub shift: usize,
}

/// Compiled scalar: total size, signedness, and list of fragments with shifts.
#[derive(Debug, Clone)]
pub struct CompiledScalar {
    pub signed: bool,
    /// Total bit width (sum of fragment lengths, 1–64).
    pub total_bits: usize,
    /// Fragments with precomputed shift for assembly.
    pub fragments: Vec<CompiledFragment>,
}

/// Compiled array: element layout, count, stride, and start offset.
#[derive(Debug, Clone)]
pub struct CompiledArray {
    pub element: CompiledScalar,
    /// Number of elements.
    pub count: ArrayCount,
    /// Bits between the start of consecutive elements.
    /// Works like window size to read fragments from.
    /// Fragments will have offsets relative to the window start.
    pub stride_bits: usize,
    /// Bit offset where the first element starts.
    /// Global offset describes where first window should be read from.
    pub offset_bits: usize,
}

/// Compiled field: either a scalar or an array.
#[derive(Debug, Clone)]
pub enum CompiledFieldKind {
    Scalar(CompiledScalar),
    Array(CompiledArray),
}

/// A field after compilation: name and either scalar or array layout.
#[derive(Debug, Clone)]
pub struct CompiledField {
    pub name: String,
    pub kind: CompiledFieldKind,
}

// ---------------------------------------------------------------------------
// Compilation
// ---------------------------------------------------------------------------

/// Sum of the lengths of `frags`.
pub open spec fn len_sum(frags: Seq<Fragment>) -> nat
    decreases frags.len(),
{
    if frags.len() == 0 {
        0
    } else {
        len_sum(frags.drop_last()) + frags.last().len_bits as nat
    }
}

/// Why the fragments of `field` do not form a scalar, if they do not.
pub open spec fn scalar_compile_error(field: Field) -> Option<CompileError> {
    let total = len_sum(field.fragments@);
    if total == 0 || total > 64 {
        Some(CompileError::InvalidFieldSize)
    } else if exists|k: int| 0 <= k < field.fragments@.len() && #[trigger] field.fragments@[k].len_bits == 0 {
        Some(CompileError::InvalidFragment)
    } else {
        None
    }
}

/// Where fragment `k` of `field` lands in the assembled value: with
/// MSB-first concatenation the first fragment holds the highest bits, with
/// LSB-first concatenation the lowest.
pub open spec fn fragment_shift(field: Field, k: int) -> int {
    let before = len_sum(field.fragments@.take(k));
    match field.assemble {
        Assemble::Concat(BitOrder::MsbFirst) => len_sum(field.fragments@) - before - field.fragments@[k].len_bits,
        Assemble::Concat(BitOrder::LsbFirst) => before as int,
    }
}

/// `c` is the compiled form of fragment `f` placed at `shift`.
pub open spec fn compiles_fragment(c: CompiledFragment, f: Fragment, shift: int) -> bool {
    &&& c.offset_bits == f.offset_bits
    &&& c.len_bits == f.len_bits
    &&& c.bit_order == f.bit_order
    &&& c.shift == shift
}

/// `c` is the scalar compiled from `field`.
pub open spec fn scalar_compiled_from(c: CompiledScalar, field: Field) -> bool {
    &&& c.signed == field.signed
    &&& c.total_bits == len_sum(field.fragments@)
    &&& c.fragments@.len() == field.fragments@.len()
    &&& forall|k: int| 0 <= k < field.fragments@.len() ==>
        compiles_fragment(#[trigger] c.fragments@[k], field.fragments@[k], fragment_shift(field, k))
}

/// Why `field` does not compile, if it does not: an array whose element has
/// no fragments, else an invalid scalar layout, else an invalid array
/// stride or count.
pub open spec fn field_compile_error(field: Field) -> Option<CompileError> {
    if field.kind is Array && field.fragments@.len() == 0 {
        Some(CompileError::EmptyArrayElement)
    } else {
        match scalar_compile_error(field) {
            Some(e) => Some(e),
            None => match field.kind {
                FieldKind::Scalar => None,
                FieldKind::Array(spec) => if spec.stride_bits < len_sum(field.fragments@) {
                    Some(CompileError::InvalidArrayStride)
                } else if spec.count == 0 {
                    Some(CompileError::InvalidArrayCount)
                } else {
                    None
                },
            },
        }
    }
}

/// `c` is the field compiled from `field`.
pub open spec fn field_compiled_from(c: CompiledField, field: Field) -> bool {
    &&& c.name@ == field.name@
    &&& match (c.kind, field.kind) {
        (CompiledFieldKind::Scalar(s), FieldKind::Scalar) => scalar_compiled_from(s, field),
        (CompiledFieldKind::Array(a), FieldKind::Array(spec)) => {
            &&& scalar_compiled_from(a.element, field)
            &&& a.count == ArrayCount::Fixed(spec.count)
            &&& a.stride_bits == spec.stride_bits
            &&& a.offset_bits == spec.offset_bits
        },
        _ => false,
    }
}

/// One more fragment adds its length to the total.
pub proof fn lemma_len_sum_take_step(frags: Seq<Fragment>, i: int)
    requires
        0 <= i < frags.len(),
    ensures
        len_sum(frags.take(i + 1)) == len_sum(frags.take(i)) + frags[i].len_bits,
{
    assert(frags.take(i + 1).drop_last() == frags.take(i));
}

/// The fragments of a prefix are no longer in total than all of them.
pub proof fn lemma_len_sum_take_le(frags: Seq<Fragment>, i: int)
    requires
        0 <= i <= frags.len(),
    ensures
        len_sum(frags.take(i)) <= len_sum(frags),
    decreases frags.len() - i,
{
    if i < frags.len() {
        lemma_len_sum_take_step(frags, i);
        lemma_len_sum_take_le(frags, i + 1);
    } else {
        assert(frags.take(i) == frags);
    }
}

impl CompiledFragment {
    /// Compiles `fragment` with shift 0. Fails on a zero-length fragment.
    pub fn try_from(fragment: &Fragment) -> (r: Result<Self, CompileError>)
        ensures
            fragment.len_bits == 0 ==> r == Err::<Self, CompileError>(CompileError::InvalidFragment),
            fragment.len_bits != 0 ==> (r matches Ok(c) && compiles_fragment(c, *fragment, 0)),
    {
        if fragment.len_bits == 0 {
            return Err(CompileError::InvalidFragment);
        }

        Ok(CompiledFragment {
            offset_bits: fragment.offset_bits,
            len_bits: fragment.len_bits,
            bit_order: fragment.bit_order,
            shift: 0,
        })
    }
}

impl CompiledScalar {
    /// Compiles the fragments of `value` into a scalar layout.
    pub fn try_from(value: &Field) -> (r: Result<Self, CompileError>)
        requires
            len_sum(value.fragments@) <= usize::MAX,
        ensures
            match r {
                Ok(c) => scalar_compile_error(*value) is None && scalar_compiled_from(c, *value),
                Err(e) => scalar_compile_error(*value) == Some(e),
            },
    {
        let frags = &value.fragments;
        let mut total_bits: usize = 0;
        let mut i: usize = 0;
        while i < frags.len()
            invariant
                i <= frags@.len(),
                total_bits == len_sum(frags@.take(i as int)),
                len_sum(frags@) <= usize::MAX,
            decreases frags@.len() - i,
        {
            proof {
                lemma_len_sum_take_step(frags@, i as int);
                lemma_len_sum_take_le(frags@, i + 1);
            }
            total_bits = total_bits + frags[i].len_bits;
            i += 1;
        }
        assert(frags@.take(frags@.len() as int) == frags@);

        if total_bits == 0 || total_bits > 64 {
            return Err(CompileError::InvalidFieldSize);
        }

        let mut fragments: Vec<CompiledFragment> = Vec::with_capacity(frags.len());
        let ghost field = *value;

        match value.assemble {
            Assemble::Concat(BitOrder::MsbFirst) => {
                let mut remaining = total_bits;
                let mut i: usize = 0;
                while i < frags.len()
                    invariant
                        i <= frags@.len(),
                        field == *value,
                        frags@ == value.fragments@,
                        value.assemble == Assemble::Concat(BitOrder::MsbFirst),
                        total_bits == len_sum(frags@),
                        1 <= total_bits <= 64,
                        remaining == total_bits - len_sum(frags@.take(i as int)),
                        fragments@.len() == i,
                        forall|k: int| 0 <= k < i ==> #[trigger] frags@[k].len_bits != 0,
                        forall|k: int| 0 <= k < i ==>
                            compiles_fragment(#[trigger] fragments@[k], frags@[k], fragment_shift(field, k)),
                    decreases frags@.len() - i,
                {
                    proof {
                        lemma_len_sum_take_step(frags@, i as int);
                        lemma_len_sum_take_le(frags@, i + 1);
                    }
                    let fragment = &frags[i];
                    remaining = remaining - fragment.len_bits;
                    let mut compiled_fragment = match CompiledFragment::try_from(fragment) {
                        Ok(c) => c,
                        Err(e) => {
                            assert(frags@[i as int].len_bits == 0);
                            return Err(e);
                        },
                    };
                    compiled_fragment.shift = remaining;
                    fragments.push(compiled_fragment);
                    i += 1;
                }
            },
            Assemble::Concat(BitOrder::LsbFirst) => {
                let mut shift: usize = 0;
                let mut i: usize = 0;
                while i < frags.len()
                    invariant
                        i <= frags@.len(),
                        field == *value,
                        frags@ == value.fragments@,
                        value.assemble == Assemble::Concat(BitOrder::LsbFirst),
                        total_bits == len_sum(frags@),
                        1 <= total_bits <= 64,
                        shift == len_sum(frags@.take(i as int)),
                        fragments@.len() == i,
                        forall|k: int| 0 <= k < i ==> #[trigger] frags@[k].len_bits != 0,
                        forall|k: int| 0 <= k < i ==>
                            compiles_fragment(#[trigger] fragments@[k], frags@[k], fragment_shift(field, k)),
                    decreases frags@.len() - i,
                {
                    proof {
                        lemma_len_sum_take_step(frags@, i as int);
                        lemma_len_sum_take_le(frags@, i + 1);
                    }
                    let fragment = &frags[i];
                    let mut compiled_fragment = match CompiledFragment::try_from(fragment) {
                        Ok(c) => c,
                        Err(e) => {
                            assert(frags@[i as int].len_bits == 0);
                            return Err(e);
                        },
                    };
                    compiled_fragment.shift = shift;
                    fragments.push(compiled_fragment);
                    shift = shift + fragment.len_bits;
                    i += 1;
                }
            },
        }

        Ok(CompiledScalar { signed: value.signed, total_bits, fragments })
    }
}

impl CompiledField {
    /// Compiles `value` into a scalar or array layout.
    pub fn try_from(value: &Field) -> (r: Result<Self, CompileError>)
        requires
            len_sum(value.fragments@) <= usize::MAX,
        ensures
            match r {
                Ok(c) => field_compile_error(*value) is None && field_compiled_from(c, *value),
                Err(e) => field_compile_error(*value) == Some(e),
            },
    {
        if let FieldKind::Array(_) = &value.kind {
            if value.fragments.len() == 0 {
                return Err(CompileError::EmptyArrayElement);
            }
        }
        let compiled_scalar = match CompiledScalar::try_from(value) {
            Ok(c) => c,
            Err(e) => return Err(e),
        };
        match &value.kind {
            FieldKind::Scalar => Ok(CompiledField {
                name: value.name.clone(),
                kind: CompiledFieldKind::Scalar(compiled_scalar),
            }),
            FieldKind::Array(spec) => {
                if spec.stride_bits < compiled_scalar.total_bits {
                    return Err(CompileError::InvalidArrayStride);
                } else if spec.count == 0 {
                    return Err(CompileError::InvalidArrayCount);
                }

                Ok(CompiledField {
                    name: value.name.clone(),
                    kind: CompiledFieldKind::Array(CompiledArray {
                        element: compiled_scalar,
                        count: ArrayCount::Fixed(spec.count),
                        stride_bits: spec.stride_bits,
                        offset_bits: spec.offset_bits,
                    }),
                })
            },
        }
    }
}

// ---------------------------------------------------------------------------
// Assembly (parsing)
// ---------------------------------------------------------------------------

/// The bits read for fragment `f`, put back in MSB-first order: reversed
/// when the fragment is stored LSB-first.
pub open spec fn oriented_part(part: u64, f: CompiledFragment) -> u64 {
    if f.bit_order == BitOrder::LsbFirst {
        reversed_bits(part as nat, f.len_bits as nat) as u64
    } else {
        part
    }
}

/// Reads `frags` from `data` with all offsets moved by `base`, OR-ing each
/// oriented part at its shift; the first failed read decides the error.
pub open spec fn assemble_raw(frags: Seq<CompiledFragment>, data: Seq<u8>, base: int) -> Result<u64, ReadError>
    decreases frags.len(),
{
    if frags.len() == 0 {
        Ok(0)
    } else {
        match assemble_raw(frags.drop_last(), data, base) {
            Err(e) => Err(e),
            Ok(acc) => {
                let f = frags.last();
                match read_bits_spec(data, f.offset_bits + base, f.len_bits as int) {
                    Err(e) => Err(e),
                    Ok(part) => Ok(acc | (oriented_part(part, f) << f.shift)),
                }
            },
        }
    }
}

/// The value a scalar assembles to from the raw bits: unsigned as is,
/// signed as the two's-complement value of its `total_bits` bits.
pub open spec fn scalar_of_raw(c: CompiledScalar, raw: u64) -> ValueModel {
    if c.signed {
        ValueModel::I64(signed_of_width(raw as nat % pow2(c.total_bits as nat), c.total_bits as nat) as i64)
    } else {
        ValueModel::U64(raw)
    }
}

/// Result of assembling scalar `c` from `data` at bit offset `base`.
pub open spec fn scalar_result(c: CompiledScalar, data: Seq<u8>, base: int) -> Result<ValueModel, ReadError> {
    match assemble_raw(c.fragments@, data, base) {
        Err(e) => Err(e),
        Ok(raw) => Ok(scalar_of_raw(c, raw)),
    }
}

/// Assembling `c` at `base` stays within machine arithmetic: positions fit
/// in `usize`, shifts are below 64, a signed width is 1 to 64 bits.
pub open spec fn scalar_readable(c: CompiledScalar, base: int) -> bool {
    &&& forall|k: int| 0 <= k < c.fragments@.len() ==> #[trigger] c.fragments@[k].offset_bits + base <= usize::MAX
    &&& forall|k: int| 0 <= k < c.fragments@.len() ==> #[trigger] c.fragments@[k].shift < 64
    &&& c.signed ==> 1 <= c.total_bits <= 64
}

proof fn lemma_assemble_raw_err(frags: Seq<CompiledFragment>, data: Seq<u8>, base: int, i: int, e: ReadError)
    requires
        0 <= i <= frags.len(),
        assemble_raw(frags.take(i), data, base) == Err::<u64, ReadError>(e),
    ensures
        assemble_raw(frags, data, base) == Err::<u64, ReadError>(e),
    decreases frags.len() - i,
{
    if i < frags.len() {
        assert(frags.take(i + 1).drop_last() == frags.take(i));
        lemma_assemble_raw_err(frags, data, base, i + 1, e);
    } else {
        assert(frags.take(i) == frags);
    }
}

/// Number of elements of an array.
pub open spec fn array_count(a: CompiledArray) -> nat {
    match a.count {
        ArrayCount::Fixed(n) => n as nat,
    }
}

/// Bit offset of element `i` of an array.
pub open spec fn element_base(a: CompiledArray, i: int) -> int {
    a.offset_bits + i * a.stride_bits
}

/// Results of assembling the first `n` elements of `a`; the first failing
/// element decides the error.
pub open spec fn array_elements(a: CompiledArray, data: Seq<u8>, n: nat) -> Result<Seq<ValueModel>, ReadError>
    decreases n,
{
    if n == 0 {
        Ok(Seq::empty())
    } else {
        match array_elements(a, data, (n - 1) as nat) {
            Err(e) => Err(e),
            Ok(vs) => match scalar_result(a.element, data, element_base(a, n - 1)) {
                Err(e) => Err(e),
                Ok(v) => Ok(vs.push(v)),
            },
        }
    }
}

/// Result of assembling array `a` from `data`.
pub open spec fn array_result(a: CompiledArray, data: Seq<u8>) -> Result<ValueModel, ReadError> {
    match array_elements(a, data, array_count(a)) {
        Err(e) => Err(e),
        Ok(vs) => Ok(ValueModel::Array(vs)),
    }
}

/// Every element of `a` can be assembled within machine arithmetic.
pub open spec fn array_readable(a: CompiledArray) -> bool {
    forall|i: int| 0 <= i < array_count(a) ==>
        #[trigger] element_base(a, i) <= usize::MAX && scalar_readable(a.element, element_base(a, i))
}

proof fn lemma_array_elements_err(a: CompiledArray, data: Seq<u8>, i: nat, n: nat, e: ReadError)
    requires
        i <= n,
        array_elements(a, data, i) == Err::<Seq<ValueModel>, ReadError>(e),
    ensures
        array_elements(a, data, n) == Err::<Seq<ValueModel>, ReadError>(e),
    decreases n - i,
{
    if i < n {
        lemma_array_elements_err(a, data, i + 1, n, e);
    }
}

impl CompiledScalar {
    /// Assembles the scalar from `data` starting at bit 0.
    pub fn assemble(&self, data: &[u8]) -> (r: Result<Value, ReadError>)
        requires
            data@.len() * 8 <= usize::MAX,
            scalar_readable(*self, 0),
        ensures
            match scalar_result(*self, data@, 0) {
                Ok(m) => r matches Ok(v) && v@ == m,
                Err(e) => r == Err::<Value, ReadError>(e),
            },
    {
        self.assemble_at(data, 0)
    }

    /// Assembles the scalar from `data` starting at `offset_bits`.
    pub fn assemble_at(&self, data: &[u8], offset_bits: usize) -> (r: Result<Value, ReadError>)
        requires
            data@.len() * 8 <= usize::MAX,
            scalar_readable(*self, offset_bits as int),
        ensures
            match scalar_result(*self, data@, offset_bits as int) {
                Ok(m) => r matches Ok(v) && v@ == m,
                Err(e) => r == Err::<Value, ReadError>(e),
            },
    {
        let mut value = 0u64;
        let mut i: usize = 0;
        assert(self.fragments@.take(0) =~= Seq::<CompiledFragment>::empty());
        while i < self.fragments.len()
            invariant
                i <= self.fragments@.len(),
                data@.len() * 8 <= usize::MAX,
                scalar_readable(*self, offset_bits as int),
                assemble_raw(self.fragments@.take(i as int), data@, offset_bits as int) == Ok::<u64, ReadError>(value),
            decreases self.fragments@.len() - i,
        {
            let fragment = self.fragments[i];
            assert(self.fragments@.take(i + 1).drop_last() == self.fragments@.take(i as int));
            assert(self.fragments@.take(i + 1).last() == fragment);
            let mut part = match read_bits_at(data, fragment.offset_bits + offset_bits, fragment.len_bits) {
                Ok(p) => p,
                Err(e) => {
                    proof {
                        lemma_assemble_raw_err(self.fragments@, data@, offset_bits as int, i + 1, e);
                    }
                    return Err(e);
                },
            };

            if fragment.bit_order == BitOrder::LsbFirst {
                part = reverse_bits_n(part, fragment.len_bits);
            }

            value = value | (part << fragment.shift);
            i += 1;
        }
        assert(self.fragments@.take(self.fragments@.len() as int) == self.fragments@);

        if self.signed {
            Ok(Value::I64(sign_extend(value, self.total_bits)))
        } else {
            Ok(Value::U64(value))
        }
    }
}

impl CompiledArray {
    /// Assembles the array from `data` into a [Value::Array].
    pub fn assemble(&self, data: &[u8]) -> (r: Result<Value, ReadError>)
        requires
            data@.len() * 8 <= usize::MAX,
            array_readable(*self),
        ensures
            match array_result(*self, data@) {
                Ok(m) => r matches Ok(v) && v@ == m,
                Err(e) => r == Err::<Value, ReadError>(e),
            },
    {
        let count = match self.count {
            ArrayCount::Fixed(count) => count,
        };

        let mut values = Vec::<Value>::with_capacity(count);
        let mut i: usize = 0;
        while i < count
            invariant
                i <= count == array_count(*self),
                data@.len() * 8 <= usize::MAX,
                array_readable(*self),
                array_elements(*self, data@, i as nat) == Ok::<Seq<ValueModel>, ReadError>(models_of(values@)),
            decreases count - i,
        {
            assert(element_base(*self, i as int) <= usize::MAX && scalar_readable(self.element, element_base(*self, i as int)));
            assert(i * self.stride_bits <= element_base(*self, i as int)) by (nonlinear_arith)
                requires
                    element_base(*self, i as int) == self.offset_bits + i * self.stride_bits,
            ;
            let offset = self.offset_bits + i * self.stride_bits;
            let v = match self.element.assemble_at(data, offset) {
                Ok(v) => v,
                Err(e) => {
                    proof {
                        lemma_array_elements_err(*self, data@, (i + 1) as nat, count as nat, e);
                    }
                    return Err(e);
                },
            };
            let ghost before = values@;
            values.push(v);
            assert(values@.drop_last() == before);
            i += 1;
        }

        Ok(Value::Array(values))
    }
}

// ---------------------------------------------------------------------------
// Disassembly (serialization)
// ---------------------------------------------------------------------------

/// The bits written for fragment `f` of the word `word`: its part of the
/// word, oriented, as `len_bits` bits most significant first.
pub open spec fn fragment_bits(f: CompiledFragment, word: u64) -> Seq<u8> {
    let part = oriented_part(word >> f.shift, f);
    Seq::new(f.len_bits as nat, |i: int| value_bit(part as nat, f.len_bits as nat, i) as u8)
}

/// The bits written for a scalar: those of each fragment, in order.
pub open spec fn scalar_bits(frags: Seq<CompiledFragment>, word: u64) -> Seq<u8>
    decreases frags.len(),
{
    if frags.len() == 0 {
        Seq::empty()
    } else {
        scalar_bits(frags.drop_last(), word) + fragment_bits(frags.last(), word)
    }
}

/// The 64-bit word a value is written as: unsigned as is, signed in two's
/// complement; other variants have none.
pub open spec fn scalar_word(v: ValueModel) -> Option<u64> {
    match v {
        ValueModel::U64(x) => Some(x),
        ValueModel::I64(x) => Some(x as u64),
        _ => None,
    }
}

/// The bits written for array elements, each a scalar word (an element
/// without one contributes nothing).
pub open spec fn elements_bits(frags: Seq<CompiledFragment>, vals: Seq<ValueModel>) -> Seq<u8>
    decreases vals.len(),
{
    if vals.len() == 0 {
        Seq::empty()
    } else {
        elements_bits(frags, vals.drop_last()) + match scalar_word(vals.last()) {
            Some(w) => scalar_bits(frags, w),
            None => Seq::empty(),
        }
    }
}

/// Element `k` is the first one of `vals` without a scalar word.
pub open spec fn first_non_word(vals: Seq<ValueModel>, k: int) -> bool {
    &&& 0 <= k < vals.len()
    &&& scalar_word(vals[k]) is None
    &&& forall|j: int| 0 <= j < k ==> #[trigger] scalar_word(vals[j]) is Some
}

/// All elements of `vals` have a scalar word.
pub open spec fn all_words(vals: Seq<ValueModel>) -> bool {
    forall|j: int| 0 <= j < vals.len() ==> #[trigger] scalar_word(vals[j]) is Some
}

/// Disassembling `c` stays within machine arithmetic: shifts below 64,
/// fragments of at most 64 bits.
pub open spec fn scalar_writable(c: CompiledScalar) -> bool {
    forall|k: int| 0 <= k < c.fragments@.len() ==>
        #[trigger] c.fragments@[k].shift < 64 && c.fragments@[k].len_bits <= 64
}

impl CompiledScalar {
    /// Appends the bits of `value` to `buf`, fragment by fragment, each
    /// most significant bit first.
    pub fn disassemble(&self, value: &Value, buf: &mut Vec<u8>) -> (r: Result<(), WriteError>)
        requires
            scalar_writable(*self),
        ensures
            match scalar_word(value@) {
                Some(w) => r is Ok && final(buf)@ == old(buf)@ + scalar_bits(self.fragments@, w),
                None => r == Err::<(), WriteError>(WriteError::InvalidValue) && final(buf)@ == old(buf)@,
            },
    {
        let value = match value {
            Value::I64(v) => *v as u64,
            Value::U64(v) => *v,
            _ => return Err(WriteError::InvalidValue),
        };
        let ghost start = buf@;

        let mut k: usize = 0;
        assert(self.fragments@.take(0) =~= Seq::<CompiledFragment>::empty());
        while k < self.fragments.len()
            invariant
                k <= self.fragments@.len(),
                scalar_writable(*self),
                buf@ == start + scalar_bits(self.fragments@.take(k as int), value),
            decreases self.fragments@.len() - k,
        {
            let fragment = self.fragments[k];
            assert(fragment.shift < 64 && fragment.len_bits <= 64);
            let mut part = value >> fragment.shift;
            if fragment.bit_order == BitOrder::LsbFirst {
                part = reverse_bits_n(part, fragment.len_bits);
            }
            let ghost fb = fragment_bits(fragment, value);
            assert(part == oriented_part(value >> fragment.shift, fragment));
            let ghost mid = buf@;

            let mut i: usize = 0;
            while i < fragment.len_bits
                invariant
                    i <= fragment.len_bits <= 64,
                    fb == fragment_bits(fragment, value),
                    part == oriented_part(value >> fragment.shift, fragment),
                    buf@ == mid + fb.take(i as int),
                decreases fragment.len_bits - i,
            {
                let sh = fragment.len_bits - 1 - i;
                let bit = (part >> sh) & 1;
                proof {
                    lemma_u64_shr_is_div(part, sh as u64);
                    let y = part >> (sh as u64);
                    assert(y & 1 == y % 2) by (bit_vector);
                    assert(fb.take(i + 1) == fb.take(i as int).push(fb[i as int]));
                }
                buf.push(bit as u8);
                i += 1;
            }
            assert(fb.take(fragment.len_bits as int) == fb);
            assert(self.fragments@.take(k + 1).drop_last() == self.fragments@.take(k as int));
            assert(self.fragments@.take(k + 1).last() == fragment);
            k += 1;
        }
        assert(self.fragments@.take(self.fragments@.len() as int) == self.fragments@);

        Ok(())
    }
}

impl CompiledArray {
    /// Appends the bits of every element of the array `value` to `buf`.
    /// Refuses an array whose length is not the field's count, and stops at
    /// the first element that is not an integer.
    pub fn disassemble(&self, value: &Value, buf: &mut Vec<u8>) -> (r: Result<(), WriteError>)
        requires
            scalar_writable(self.element),
        ensures
            match value@ {
                ValueModel::Array(vals) => if vals.len() != array_count(*self) {
                    r == Err::<(), WriteError>(WriteError::InvalidValue) && final(buf)@ == old(buf)@
                } else if all_words(vals) {
                    r is Ok && final(buf)@ == old(buf)@ + elements_bits(self.element.fragments@, vals)
                } else {
                    r == Err::<(), WriteError>(WriteError::InvalidValue) && exists|k: int|
                        first_non_word(vals, k) && final(buf)@ == old(buf)@ + elements_bits(self.element.fragments@, vals.take(k))
                },
                _ => r == Err::<(), WriteError>(WriteError::InvalidValue) && final(buf)@ == old(buf)@,
            },
    {
        match value {
            Value::Array(values) => {
                let count = match self.count {
                    ArrayCount::Fixed(count) => count,
                };
                proof {
                    crate::value::lemma_models_of_len(values@);
                }
                if values.len() != count {
                    return Err(WriteError::InvalidValue);
                }
                let ghost start = buf@;
                assert(start == old(buf)@);
                let ghost vals = models_of(values@);
                assert(vals.len() == array_count(*self));
                let mut i: usize = 0;
                assert(vals.take(0) =~= Seq::<ValueModel>::empty());
                assert(value@ == ValueModel::Array(vals));
                while i < values.len()
                    invariant
                        i <= values@.len(),
                        value@ == ValueModel::Array(vals),
                        vals.len() == array_count(*self),
                        start == old(buf)@,
                        vals == models_of(values@),
                        scalar_writable(self.element),
                        forall|j: int| 0 <= j < i ==> #[trigger] scalar_word(vals[j]) is Some,
                        buf@ == start + elements_bits(self.element.fragments@, vals.take(i as int)),
                    decreases values@.len() - i,
                {
                    proof {
                        lemma_models_of_index(values@, i as int);
                    }
                    assert(vals.take(i + 1).drop_last() == vals.take(i as int));
                    assert(vals.take(i + 1).last() == vals[i as int]);
                    match self.element.disassemble(&values[i], buf) {
                        Ok(()) => {},
                        Err(e) => {
                            assert(first_non_word(vals, i as int));
                            return Err(e);
                        },
                    }
                    i += 1;
                }
                proof {
                    crate::value::lemma_models_of_len(values@);
                }
                assert(vals.take(values@.len() as int) == vals);
            },
            _ => return Err(WriteError::InvalidValue),
        }

        Ok(())
    }
}


impl CompiledScalar {
    /// Whether assembling at bit offset `base` stays within machine
    /// arithmetic (see [`scalar_readable`]).
    pub fn is_readable_at(&self, base: usize) -> (r: bool)
        ensures
            r == scalar_readable(*self, base as int),
    {
        let mut k: usize = 0;
        while k < self.fragments.len()
            invariant
                k <= self.fragments@.len(),
                forall|j: int| 0 <= j < k ==> #[trigger] self.fragments@[j].offset_bits + base <= usize::MAX,
                forall|j: int| 0 <= j < k ==> #[trigger] self.fragments@[j].shift < 64,
            decreases self.fragments@.len() - k,
        {
            let f = &self.fragments[k];
            if f.offset_bits > usize::MAX - base || f.shift >= 64 {
                return false;
            }
            k += 1;
        }
        !self.signed || (1 <= self.total_bits && self.total_bits <= 64)
    }
}

impl CompiledArray {
    /// Whether assembling every element stays within machine arithmetic
    /// (see [`array_readable`]).
    pub fn is_readable(&self) -> (r: bool)
        ensures
            r == array_readable(*self),
    {
        let count = match self.count {
            ArrayCount::Fixed(count) => count,
        };
        if count == 0 {
            return true;
        }
        let last = count - 1;
        let base = match last.checked_mul(self.stride_bits) {
            Some(x) => match x.checked_add(self.offset_bits) {
                Some(b) => b,
                None => {
                    assert(!(element_base(*self, last as int) <= usize::MAX));
                    return false;
                },
            },
            None => {
                assert(last * self.stride_bits <= element_base(*self, last as int));
                assert(!(element_base(*self, last as int) <= usize::MAX));
                return false;
            },
        };
        assert(base == element_base(*self, last as int));
        let ok = self.element.is_readable_at(base);
        proof {
            if ok {
                assert forall|i: int| 0 <= i < array_count(*self) implies
                    #[trigger] element_base(*self, i) <= usize::MAX && scalar_readable(self.element, element_base(*self, i))
                by {
                    assert(i * self.stride_bits <= last * self.stride_bits) by (nonlinear_arith)
                        requires
                            0 <= i <= last,
                    ;
                    assert(0 <= i * self.stride_bits) by (nonlinear_arith)
                        requires
                            0 <= i,
                    ;
                }
            } else {
                assert(!scalar_readable(self.element, element_base(*self, last as int)));
            }
        }
        ok
    }
}

} // verus!
