//! Schema: compiled set of fields used to parse byte slices into named values.

use vstd::prelude::*;

use crate::assembly::{ArrayCount, BitOrder};
use crate::compiled::{
    CompiledField, CompiledFieldKind, len_sum, field_compile_error, field_compiled_from,
};
use crate::bits::{bits_to_bytes, packed_byte};
use crate::compiled::{scalar_result, array_result, scalar_readable, array_readable, array_count};
use crate::compiled::{scalar_word, scalar_bits, elements_bits, all_words, first_non_word, scalar_writable};
use crate::errors::{CompileError, ReadError, WriteError, WriteErrorModel};
use crate::value::{Value, ValueModel, models_of, lemma_models_of_index, lemma_models_of_len};
use crate::value_map::ValueMap;
use crate::field::{Field, FieldKind};
use crate::fragment::Fragment;

verus! {

/// How serialized bits are packed into bytes.
#[derive(Debug, Clone, Copy, PartialEq, Eq, Structural)]
pub struct WriteConfig {
    pub bit_order: BitOrder,
}

impl Default for WriteConfig {
    fn default() -> (c: Self)
        ensures
            c.bit_order == BitOrder::MsbFirst,
    {
        WriteConfig { bit_order: BitOrder::MsbFirst }
    }
}

/// A compiled schema: list of [CompiledField]s and total bit length. Use
/// [Schema::compile] to build from [Field]s, then [Schema::parse] to parse bytes.
#[derive(Debug, Clone)]
pub struct Schema {
    total_bits: usize,
    /// Compiled fields in definition order.
    pub fields: Vec<CompiledField>,
    pub write_config: Option<WriteConfig>,
}

/// The name of field `i` is empty or taken by an earlier field.
pub open spec fn name_refused(fields: Seq<Field>, i: int) -> bool {
    ||| fields[i].name@.len() == 0
    ||| exists|j: int| 0 <= j < i && #[trigger] fields[j].name@ == fields[i].name@
}

/// Why field `i` of `fields` does not compile, if it does not: a refused
/// name, else an invalid layout.
pub open spec fn field_error_at(fields: Seq<Field>, i: int) -> Option<CompileError> {
    if name_refused(fields, i) {
        Some(CompileError::InvalidFieldName)
    } else {
        field_compile_error(fields[i])
    }
}

/// The error of the first field of `fields` that does not compile, if any.
pub open spec fn first_compile_error(fields: Seq<Field>) -> Option<CompileError>
    decreases fields.len(),
{
    if fields.len() == 0 {
        None
    } else {
        match first_compile_error(fields.drop_last()) {
            Some(e) => Some(e),
            None => field_error_at(fields, fields.len() - 1),
        }
    }
}

/// Whether the name of field `i` is empty or taken by an earlier field.
fn name_is_refused(fields: &[Field], i: usize) -> (r: bool)
    requires
        i < fields@.len(),
    ensures
        r == name_refused(fields@, i as int),
{
    if fields[i].name.as_str().is_empty() {
        return true;
    }
    let mut j: usize = 0;
    while j < i
        invariant
            j <= i < fields@.len(),
            forall|k: int| 0 <= k < j ==> #[trigger] fields@[k].name@ != fields@[i as int].name@,
        decreases i - j,
    {
        if fields[j].name == fields[i].name {
            return true;
        }
        j += 1;
    }
    false
}

/// One past the last bit covered by `frags`.
pub open spec fn fragments_extent(frags: Seq<Fragment>) -> nat
    decreases frags.len(),
{
    if frags.len() == 0 {
        0
    } else {
        let rest = fragments_extent(frags.drop_last());
        let end = (frags.last().offset_bits + frags.last().len_bits) as nat;
        if rest >= end { rest } else { end }
    }
}

/// One past the last bit a field covers: the end of its furthest fragment
/// for a scalar; the end of the last element for an array.
pub open spec fn field_extent(field: Field) -> nat {
    match field.kind {
        FieldKind::Scalar => fragments_extent(field.fragments@),
        FieldKind::Array(spec) => (spec.offset_bits + len_sum(field.fragments@)
            + spec.stride_bits * (spec.count - 1)) as nat,
    }
}

/// One past the last bit any of `fields` covers.
pub open spec fn fields_extent(fields: Seq<Field>) -> nat
    decreases fields.len(),
{
    if fields.len() == 0 {
        0
    } else {
        let rest = fields_extent(fields.drop_last());
        let end = field_extent(fields.last());
        if rest >= end { rest } else { end }
    }
}

/// Compiling `field` stays within `usize` arithmetic.
pub open spec fn field_fits(field: Field) -> bool {
    &&& len_sum(field.fragments@) <= usize::MAX
    &&& field_compile_error(field) is None ==> match field.kind {
        FieldKind::Scalar => forall|k: int| 0 <= k < field.fragments@.len() ==>
            #[trigger] field.fragments@[k].offset_bits + field.fragments@[k].len_bits <= usize::MAX,
        FieldKind::Array(spec) => spec.offset_bits + len_sum(field.fragments@)
            + spec.stride_bits * (spec.count - 1) <= usize::MAX,
    }
}

/// Compiling `fields` stays within `usize` arithmetic: every field whose
/// layout compilation reaches fits.
pub open spec fn compile_fits(fields: Seq<Field>) -> bool {
    forall|i: int| 0 <= i < fields.len() && first_compile_error(#[trigger] fields.take(i)) is None
        && !name_refused(fields, i) ==> field_fits(fields[i])
}

/// Taking a prefix that holds field `i` does not change why it fails.
pub proof fn lemma_field_error_at_prefix(fields: Seq<Field>, n: int, i: int)
    requires
        0 <= i < n <= fields.len(),
    ensures
        field_error_at(fields.take(n), i) == field_error_at(fields, i),
        name_refused(fields.take(n), i) == name_refused(fields, i),
{
    let p = fields.take(n);
    assert(p[i] == fields[i]);
    if exists|j: int| 0 <= j < i && #[trigger] fields[j].name@ == fields[i].name@ {
        let j = choose|j: int| 0 <= j < i && #[trigger] fields[j].name@ == fields[i].name@;
        assert(p[j] == fields[j]);
    }
    if exists|j: int| 0 <= j < i && #[trigger] p[j].name@ == p[i].name@ {
        let j = choose|j: int| 0 <= j < i && #[trigger] p[j].name@ == p[i].name@;
        assert(p[j] == fields[j]);
    }
}

proof fn lemma_first_error_prefix(fields: Seq<Field>, i: int, e: CompileError)
    requires
        0 <= i <= fields.len(),
        first_compile_error(fields.take(i)) == Some(e),
    ensures
        first_compile_error(fields) == Some(e),
    decreases fields.len() - i,
{
    if i < fields.len() {
        assert(fields.take(i + 1).drop_last() == fields.take(i));
        lemma_first_error_prefix(fields, i + 1, e);
    } else {
        assert(fields.take(i) == fields);
    }
}

/// The total length of `frags`, when it fits in `usize`.
fn fragments_total(frags: &Vec<Fragment>) -> (r: Option<usize>)
    ensures
        r is Some <==> len_sum(frags@) <= usize::MAX,
        r matches Some(t) ==> t == len_sum(frags@),
{
    let mut total: usize = 0;
    let mut k: usize = 0;
    assert(frags@.take(0) =~= Seq::<Fragment>::empty());
    while k < frags.len()
        invariant
            k <= frags@.len(),
            total == len_sum(frags@.take(k as int)),
        decreases frags@.len() - k,
    {
        proof {
            crate::compiled::lemma_len_sum_take_step(frags@, k as int);
        }
        match total.checked_add(frags[k].len_bits) {
            Some(t) => total = t,
            None => {
                proof {
                    crate::compiled::lemma_len_sum_take_le(frags@, k + 1);
                }
                return None;
            },
        }
        k += 1;
    }
    assert(frags@.take(frags@.len() as int) == frags@);
    Some(total)
}

/// Whether compiling `fields` stays within `usize` arithmetic (see
/// [`compile_fits`]); [`Schema::compile`] asks for it.
pub fn compile_in_range(fields: &[Field]) -> (r: bool)
    ensures
        r == compile_fits(fields@),
{
    let mut i: usize = 0;
    assert(fields@.take(0) =~= Seq::<Field>::empty());
    while i < fields.len()
        invariant
            i <= fields@.len(),
            first_compile_error(fields@.take(i as int)) is None,
            forall|j: int| 0 <= j < i ==> field_fits(#[trigger] fields@[j]),
        decreases fields@.len() - i,
    {
        let field = &fields[i];
        assert(fields@.take(i + 1).drop_last() == fields@.take(i as int));
        assert(fields@.take(i + 1).last() == *field);
        assert(fields@.take(i as int + 1).take(i as int) == fields@.take(i as int));
        proof {
            lemma_field_error_at_prefix(fields@, i + 1, i as int);
        }
        if name_is_refused(fields, i) {
            proof {
                assert forall|j: int| 0 <= j < fields@.len() && first_compile_error(#[trigger] fields@.take(j)) is None
                    && !name_refused(fields@, j) implies field_fits(fields@[j])
                by {
                    if j > i {
                        assert(fields@.take(j).take(i + 1) == fields@.take(i + 1));
                        lemma_first_error_prefix(fields@.take(j), i + 1, CompileError::InvalidFieldName);
                    }
                }
            }
            return true;
        }
        let total = match fragments_total(&field.fragments) {
            Some(t) => t,
            None => {
                assert(!field_fits(fields@[i as int]));
                assert(first_compile_error(fields@.take(i as int)) is None);
                return false;
            },
        };
        match CompiledField::try_from(field) {
            Err(e) => {
                proof {
                    assert forall|j: int| 0 <= j < fields@.len() && first_compile_error(#[trigger] fields@.take(j)) is None
                        && !name_refused(fields@, j) implies field_fits(fields@[j])
                    by {
                        if j > i {
                            assert(fields@.take(j).take(i + 1) == fields@.take(i + 1));
                            lemma_first_error_prefix(fields@.take(j), i + 1, e);
                        }
                    }
                }
                return true;
            },
            Ok(_) => {},
        }
        let ok = match &field.kind {
            FieldKind::Scalar => {
                let mut k: usize = 0;
                let mut fits = true;
                while k < field.fragments.len()
                    invariant
                        k <= field.fragments@.len(),
                        fits ==> forall|j: int| 0 <= j < k ==>
                            #[trigger] field.fragments@[j].offset_bits + field.fragments@[j].len_bits <= usize::MAX,
                        !fits ==> exists|j: int| 0 <= j < field.fragments@.len() &&
                            #[trigger] field.fragments@[j].offset_bits + field.fragments@[j].len_bits > usize::MAX,
                    decreases field.fragments@.len() - k,
                {
                    let f = &field.fragments[k];
                    if f.offset_bits > usize::MAX - f.len_bits {
                        fits = false;
                    }
                    k += 1;
                }
                fits
            },
            FieldKind::Array(spec) => {
                if spec.count == 0 {
                    true
                } else {
                    match spec.stride_bits.checked_mul(spec.count - 1) {
                        Some(span) => match spec.offset_bits.checked_add(total) {
                            Some(x) => x.checked_add(span).is_some(),
                            None => false,
                        },
                        None => {
                            assert(spec.stride_bits * (spec.count - 1) <= spec.offset_bits + total
                                + spec.stride_bits * (spec.count - 1));
                            false
                        },
                    }
                }
            },
        };
        if !ok {
            assert(!field_fits(fields@[i as int]));
            return false;
        }
        assert(field_fits(fields@[i as int]));
        i += 1;
    }
    true
}

/// Result of assembling one compiled field from `data`.
pub open spec fn field_result(f: CompiledField, data: Seq<u8>) -> Result<ValueModel, ReadError> {
    match f.kind {
        CompiledFieldKind::Scalar(s) => scalar_result(s, data, 0),
        CompiledFieldKind::Array(a) => array_result(a, data),
    }
}

/// Assembling `f` stays within machine arithmetic.
pub open spec fn field_readable(f: CompiledField) -> bool {
    match f.kind {
        CompiledFieldKind::Scalar(s) => scalar_readable(s, 0),
        CompiledFieldKind::Array(a) => array_readable(a),
    }
}

/// The map of names to values that parsing `fields` from `data` builds,
/// in field order (a later field with the same name overrides an earlier
/// one); the first failing field decides the error.
pub open spec fn parsed_fields(fields: Seq<CompiledField>, data: Seq<u8>) -> Result<Map<Seq<char>, ValueModel>, ReadError>
    decreases fields.len(),
{
    if fields.len() == 0 {
        Ok(Map::empty())
    } else {
        match parsed_fields(fields.drop_last(), data) {
            Err(e) => Err(e),
            Ok(m) => match field_result(fields.last(), data) {
                Err(e) => Err(e),
                Ok(v) => Ok(m.insert(fields.last().name@, v)),
            },
        }
    }
}

proof fn lemma_parsed_fields_err(fields: Seq<CompiledField>, data: Seq<u8>, i: int, e: ReadError)
    requires
        0 <= i <= fields.len(),
        parsed_fields(fields.take(i), data) == Err::<Map<Seq<char>, ValueModel>, ReadError>(e),
    ensures
        parsed_fields(fields, data) == Err::<Map<Seq<char>, ValueModel>, ReadError>(e),
    decreases fields.len() - i,
{
    if i < fields.len() {
        assert(fields.take(i + 1).drop_last() == fields.take(i));
        lemma_parsed_fields_err(fields, data, i + 1, e);
    } else {
        assert(fields.take(i) == fields);
    }
}

/// Name of the variant of a value.
pub open spec fn variant_name(v: ValueModel) -> Seq<char> {
    match v {
        ValueModel::U64(_) => "U64"@,
        ValueModel::I64(_) => "I64"@,
        ValueModel::F32(_) => "F32"@,
        ValueModel::F64(_) => "F64"@,
        ValueModel::Bytes(_) => "Bytes"@,
        ValueModel::String(_) => "String"@,
        ValueModel::Array(_) => "Array"@,
    }
}

/// Serialization has no encoding for the variant of `v`.
pub open spec fn unsupported(v: ValueModel) -> bool {
    v is F32 || v is F64 || v is Bytes || v is String
}

/// Error for value `v` that field `name` cannot take: unsupported for a
/// variant serialization has no encoding for, invalid otherwise (an array
/// for a scalar, an integer for an array, an array of the wrong length).
pub open spec fn value_error(name: Seq<char>, v: ValueModel) -> WriteErrorModel {
    if unsupported(v) {
        WriteErrorModel::UnsupportedValue { field: name, variant: variant_name(v) }
    } else {
        WriteErrorModel::InvalidValue
    }
}

/// Index of the first element of `vals` without a scalar word.
pub open spec fn first_non_word_index(vals: Seq<ValueModel>) -> int {
    choose|k: int| first_non_word(vals, k)
}

proof fn lemma_first_non_word_unique(vals: Seq<ValueModel>, k: int)
    requires
        first_non_word(vals, k),
    ensures
        first_non_word_index(vals) == k,
{
    let c = first_non_word_index(vals);
    assert(first_non_word(vals, c));
    if c < k {
        assert(scalar_word(vals[c]) is Some);
    } else if c > k {
        assert(scalar_word(vals[k]) is Some);
    }
}

/// Bits serialization writes for field `f`, or why it cannot.
pub open spec fn field_bits(f: CompiledField, obj: Map<Seq<char>, ValueModel>) -> Result<Seq<u8>, WriteErrorModel> {
    if !obj.contains_key(f.name@) {
        Err(WriteErrorModel::MissingField(f.name@))
    } else {
        let v = obj[f.name@];
        match f.kind {
            CompiledFieldKind::Scalar(s) => match scalar_word(v) {
                Some(w) => Ok(scalar_bits(s.fragments@, w)),
                None => Err(value_error(f.name@, v)),
            },
            CompiledFieldKind::Array(a) => match v {
                ValueModel::Array(vals) => if vals.len() != array_count(a) {
                    Err(WriteErrorModel::InvalidValue)
                } else if all_words(vals) {
                    Ok(elements_bits(a.element.fragments@, vals))
                } else {
                    Err(value_error(f.name@, vals[first_non_word_index(vals)]))
                },
                _ => Err(value_error(f.name@, v)),
            },
        }
    }
}

/// Bits serialization writes for `fields`, one field after the other; the
/// first failing field decides the error.
pub open spec fn serialized_bits(fields: Seq<CompiledField>, obj: Map<Seq<char>, ValueModel>) -> Result<Seq<u8>, WriteErrorModel>
    decreases fields.len(),
{
    if fields.len() == 0 {
        Ok(Seq::empty())
    } else {
        match serialized_bits(fields.drop_last(), obj) {
            Err(e) => Err(e),
            Ok(bits) => match field_bits(fields.last(), obj) {
                Err(e) => Err(e),
                Ok(b) => Ok(bits + b),
            },
        }
    }
}

/// Disassembling `f` stays within machine arithmetic.
pub open spec fn field_writable(f: CompiledField) -> bool {
    match f.kind {
        CompiledFieldKind::Scalar(s) => scalar_writable(s),
        CompiledFieldKind::Array(a) => scalar_writable(a.element),
    }
}

proof fn lemma_serialized_bits_err(fields: Seq<CompiledField>, obj: Map<Seq<char>, ValueModel>, i: int, e: WriteErrorModel)
    requires
        0 <= i <= fields.len(),
        serialized_bits(fields.take(i), obj) == Err::<Seq<u8>, WriteErrorModel>(e),
    ensures
        serialized_bits(fields, obj) == Err::<Seq<u8>, WriteErrorModel>(e),
    decreases fields.len() - i,
{
    if i < fields.len() {
        assert(fields.take(i + 1).drop_last() == fields.take(i));
        lemma_serialized_bits_err(fields, obj, i + 1, e);
    } else {
        assert(fields.take(i) == fields);
    }
}

/// Index of the first element of `values` that is not an integer, if any.
fn first_non_word_position(values: &Vec<Value>) -> (r: Option<usize>)
    ensures
        match r {
            Some(j) => j < values@.len() && first_non_word(models_of(values@), j as int),
            None => all_words(models_of(values@)),
        },
{
    let ghost vals = models_of(values@);
    proof {
        lemma_models_of_len(values@);
    }
    let mut j: usize = 0;
    while j < values.len()
        invariant
            j <= values@.len() == vals.len(),
            vals == models_of(values@),
            forall|k: int| 0 <= k < j ==> #[trigger] scalar_word(vals[k]) is Some,
        decreases values@.len() - j,
    {
        proof {
            lemma_models_of_index(values@, j as int);
        }
        match &values[j] {
            Value::U64(_) | Value::I64(_) => {},
            _ => return Some(j),
        }
        j += 1;
    }
    None
}

/// The variant name of `v` when serialization does not support it.
fn unsupported_variant(v: &Value) -> (r: Option<&'static str>)
    ensures
        match v@ {
            ValueModel::F32(_) | ValueModel::F64(_) | ValueModel::Bytes(_) | ValueModel::String(_) =>
                r matches Some(s) && s@ == variant_name(v@),
            _ => r is None,
        },
{
    match v {
        Value::F32(_) => Some("F32"),
        Value::F64(_) => Some("F64"),
        Value::Bytes(_) => Some("Bytes"),
        Value::String(_) => Some("String"),
        _ => None,
    }
}

impl Schema {
    /// Number of bits the schema covers; shorter input is refused by [Schema::parse].
    pub closed spec fn spec_total_bits(self) -> nat {
        self.total_bits as nat
    }

    /// Number of bits the schema covers.
    pub fn total_bits(&self) -> (r: usize)
        ensures
            r == self.spec_total_bits(),
    {
        self.total_bits
    }

    /// The compiled fields, in definition order.
    pub fn fields(&self) -> (r: &Vec<CompiledField>)
        ensures
            r@ == self.spec_fields(),
    {
        &self.fields
    }

    /// How serialized bits are packed.
    pub fn write_config(&self) -> (r: Option<WriteConfig>)
        ensures
            r == self.spec_write_config(),
    {
        self.write_config
    }

    /// The compiled fields, in definition order.
    pub closed spec fn spec_fields(self) -> Seq<CompiledField> {
        self.fields@
    }

    /// How serialized bits are packed.
    pub closed spec fn spec_write_config(self) -> Option<WriteConfig> {
        self.write_config
    }

    /// Every field can be assembled within machine arithmetic.
    pub open spec fn readable(self) -> bool {
        forall|k: int| 0 <= k < self.spec_fields().len() ==> field_readable(#[trigger] self.spec_fields()[k])
    }

    /// Parses `data` according to this schema. Returns a map of field names
    /// to [crate::value::Value]s. Fails if `data` is too short.
    pub fn parse(&self, data: &[u8]) -> (r: Result<ValueMap, ReadError>)
        requires
            data@.len() * 8 <= usize::MAX,
            self.readable(),
        ensures
            data@.len() * 8 < self.spec_total_bits() ==> r == Err::<ValueMap, ReadError>(ReadError::PacketTooShort),
            data@.len() * 8 >= self.spec_total_bits() ==> match parsed_fields(self.spec_fields(), data@) {
                Ok(m) => r matches Ok(map) && map@ == m,
                Err(e) => r == Err::<ValueMap, ReadError>(e),
            },
    {
        if data.len() * 8 < self.total_bits {
            return Err(ReadError::PacketTooShort);
        }

        let mut map = ValueMap::new();

        let mut i: usize = 0;
        assert(self.fields@.take(0) =~= Seq::<CompiledField>::empty());
        while i < self.fields.len()
            invariant
                i <= self.fields@.len(),
                data@.len() * 8 <= usize::MAX,
                data@.len() * 8 >= self.spec_total_bits(),
                self.readable(),
                parsed_fields(self.fields@.take(i as int), data@) == Ok::<Map<Seq<char>, ValueModel>, ReadError>(map@),
            decreases self.fields@.len() - i,
        {
            let field = &self.fields[i];
            assert(self.fields@.take(i + 1).drop_last() == self.fields@.take(i as int));
            assert(self.fields@.take(i + 1).last() == *field);
            assert(field_readable(self.spec_fields()[i as int]));
            let value = match &field.kind {
                CompiledFieldKind::Scalar(scalar) => scalar.assemble(data),
                CompiledFieldKind::Array(array) => array.assemble(data),
            };
            match value {
                Ok(v) => {
                    map.insert(field.name.clone(), v);
                },
                Err(e) => {
                    proof {
                        lemma_parsed_fields_err(self.fields@, data@, i + 1, e);
                    }
                    return Err(e);
                },
            }
            i += 1;
        }
        assert(self.fields@.take(self.fields@.len() as int) == self.fields@);

        Ok(map)
    }

    /// Whether every field can be assembled within machine arithmetic
    /// (see [`Schema::readable`]).
    pub fn is_readable(&self) -> (r: bool)
        ensures
            r == self.readable(),
    {
        let mut k: usize = 0;
        while k < self.fields.len()
            invariant
                k <= self.fields@.len(),
                forall|j: int| 0 <= j < k ==> field_readable(#[trigger] self.spec_fields()[j]),
            decreases self.fields@.len() - k,
        {
            let ok = match &self.fields[k].kind {
                CompiledFieldKind::Scalar(scalar) => scalar.is_readable_at(0),
                CompiledFieldKind::Array(array) => array.is_readable(),
            };
            if !ok {
                assert(!field_readable(self.spec_fields()[k as int]));
                return false;
            }
            k += 1;
        }
        true
    }

    /// Bit order used to pack serialized bits into bytes.
    pub open spec fn write_order(self) -> BitOrder {
        match self.spec_write_config() {
            Some(c) => c.bit_order,
            None => BitOrder::MsbFirst,
        }
    }

    /// Every field can be disassembled within machine arithmetic.
    pub open spec fn writable(self) -> bool {
        forall|k: int| 0 <= k < self.spec_fields().len() ==> field_writable(#[trigger] self.spec_fields()[k])
    }

    /// Serializes the values of `obj`, field by field in schema order, each
    /// field's fragments written one after the other, then packs the bits
    /// into bytes (the last byte padded with zero bits).
    pub fn serialize(&self, obj: &ValueMap) -> (r: Result<Vec<u8>, WriteError>)
        requires
            self.writable(),
        ensures
            match serialized_bits(self.spec_fields(), obj@) {
                Ok(bits) => r matches Ok(bytes) && bytes@.len() == (bits.len() + 7) / 8 && forall|k: int|
                    0 <= k < bytes@.len() ==> #[trigger] bytes@[k] == packed_byte(bits, k, self.write_order(), 8),
                Err(e) => r matches Err(we) && we@ == e,
            },
    {
        let mut bits: Vec<u8> = Vec::new();

        let mut i: usize = 0;
        assert(self.fields@.take(0) =~= Seq::<CompiledField>::empty());
        while i < self.fields.len()
            invariant
                i <= self.fields@.len(),
                self.writable(),
                serialized_bits(self.fields@.take(i as int), obj@) == Ok::<Seq<u8>, WriteErrorModel>(bits@),
            decreases self.fields@.len() - i,
        {
            let field = &self.fields[i];
            assert(self.fields@.take(i + 1).drop_last() == self.fields@.take(i as int));
            assert(self.fields@.take(i + 1).last() == *field);
            assert(field_writable(self.spec_fields()[i as int]));
            let value = match obj.get(field.name.as_str()) {
                Some(v) => v,
                None => {
                    let e = WriteError::MissingField(field.name.clone());
                    proof {
                        lemma_serialized_bits_err(self.fields@, obj@, i + 1, e@);
                    }
                    return Err(e);
                },
            };

            let ghost before = bits@;
            let res = match &field.kind {
                CompiledFieldKind::Scalar(scalar) => {
                    if let Some(variant) = unsupported_variant(value) {
                        let e = WriteError::UnsupportedValue { field: field.name.clone(), variant };
                        proof {
                            lemma_serialized_bits_err(self.fields@, obj@, i + 1, e@);
                        }
                        return Err(e);
                    }
                    scalar.disassemble(value, &mut bits)
                },
                CompiledFieldKind::Array(array) => {
                    match value {
                        Value::Array(values) => {
                            let count = match array.count {
                                ArrayCount::Fixed(count) => count,
                            };
                            proof {
                                lemma_models_of_len(values@);
                            }
                            if values.len() != count {
                                array.disassemble(value, &mut bits)
                            } else {
                            match first_non_word_position(values) {
                                Some(j) => {
                                    proof {
                                        lemma_models_of_len(values@);
                                        lemma_models_of_index(values@, j as int);
                                        lemma_first_non_word_unique(models_of(values@), j as int);
                                    }
                                    if let Some(variant) = unsupported_variant(&values[j]) {
                                        let e = WriteError::UnsupportedValue { field: field.name.clone(), variant };
                                        proof {
                                            lemma_serialized_bits_err(self.fields@, obj@, i + 1, e@);
                                        }
                                        return Err(e);
                                    }
                                    array.disassemble(value, &mut bits)
                                },
                                None => array.disassemble(value, &mut bits),
                            }
                            }
                        },
                        _ => {
                            if let Some(variant) = unsupported_variant(value) {
                                let e = WriteError::UnsupportedValue { field: field.name.clone(), variant };
                                proof {
                                    lemma_serialized_bits_err(self.fields@, obj@, i + 1, e@);
                                }
                                return Err(e);
                            }
                            array.disassemble(value, &mut bits)
                        },
                    }
                },
            };
            match res {
                Ok(()) => {},
                Err(e) => {
                    proof {
                        lemma_serialized_bits_err(self.fields@, obj@, i + 1, e@);
                    }
                    return Err(e);
                },
            }
            i += 1;
        }
        assert(self.fields@.take(self.fields@.len() as int) == self.fields@);

        let order = match &self.write_config {
            Some(config) => config.bit_order,
            None => BitOrder::MsbFirst,
        };
        Ok(bits_to_bytes(bits.as_slice(), order))
    }

    /// This schema is what [Schema::compile] builds from `fields`: each field
    /// compiled in order, the total bit length the furthest extent.
    pub open spec fn compiled_from(self, fields: Seq<Field>) -> bool {
        &&& first_compile_error(fields) is None
        &&& self.spec_fields().len() == fields.len()
        &&& forall|k: int| 0 <= k < fields.len() ==> field_compiled_from(#[trigger] self.spec_fields()[k], fields[k])
        &&& self.spec_total_bits() == fields_extent(fields)
    }

    /// Compiles a slice of [Field]s into a schema. Fails if any field is invalid.
    pub fn compile(fields: &[Field], write_config: Option<WriteConfig>) -> (r: Result<Self, CompileError>)
        requires
            compile_fits(fields@),
        ensures
            match r {
                Ok(s) => s.compiled_from(fields@) && s.spec_write_config() == write_config && s.writable(),
                Err(e) => first_compile_error(fields@) == Some(e),
            },
    {
        let mut compiled_fields: Vec<CompiledField> = Vec::with_capacity(fields.len());
        let mut total_bits: usize = 0;

        let mut i: usize = 0;
        assert(fields@.take(0) =~= Seq::<Field>::empty());
        while i < fields.len()
            invariant
                i <= fields@.len(),
                compile_fits(fields@),
                compiled_fields@.len() == i,
                forall|k: int| 0 <= k < i ==> field_compiled_from(#[trigger] compiled_fields@[k], fields@[k]),
                first_compile_error(fields@.take(i as int)) is None,
                total_bits == fields_extent(fields@.take(i as int)),
            decreases fields@.len() - i,
        {
            let field = &fields[i];
            assert(fields@.take(i + 1).drop_last() == fields@.take(i as int));
            assert(fields@.take(i + 1).last() == *field);
            proof {
                lemma_field_error_at_prefix(fields@, i + 1, i as int);
            }
            if name_is_refused(fields, i) {
                proof {
                    lemma_first_error_prefix(fields@, i + 1, CompileError::InvalidFieldName);
                }
                return Err(CompileError::InvalidFieldName);
            }
            assert(field_fits(fields@[i as int]));
            let compiled_field = match CompiledField::try_from(field) {
                Ok(c) => c,
                Err(e) => {
                    proof {
                        lemma_first_error_prefix(fields@, i + 1, e);
                    }
                    return Err(e);
                },
            };

            match &compiled_field.kind {
                CompiledFieldKind::Scalar(scalar) => {
                    let ghost start = total_bits;
                    let mut j: usize = 0;
                    assert(field.fragments@.take(0) =~= Seq::<Fragment>::empty());
                    while j < scalar.fragments.len()
                        invariant
                            j <= scalar.fragments@.len() == field.fragments@.len(),
                            field_fits(*field),
                            field_compile_error(*field) is None,
                            field.kind == FieldKind::Scalar,
                            forall|k: int| 0 <= k < field.fragments@.len() ==>
                                (#[trigger] scalar.fragments@[k]).offset_bits == field.fragments@[k].offset_bits
                                && scalar.fragments@[k].len_bits == field.fragments@[k].len_bits,
                            total_bits == if start >= fragments_extent(field.fragments@.take(j as int)) {
                                start as nat
                            } else {
                                fragments_extent(field.fragments@.take(j as int))
                            },
                        decreases scalar.fragments@.len() - j,
                    {
                        let frag = &scalar.fragments[j];
                        assert(field.fragments@.take(j + 1).drop_last() == field.fragments@.take(j as int));
                        assert(field.fragments@.take(j + 1).last() == field.fragments@[j as int]);
                        let end = frag.offset_bits + frag.len_bits;
                        total_bits = if total_bits >= end { total_bits } else { end };
                        j += 1;
                    }
                    assert(field.fragments@.take(field.fragments@.len() as int) == field.fragments@);
                },
                CompiledFieldKind::Array(array) => {
                    let count = match array.count {
                        ArrayCount::Fixed(count) => count,
                    };
                    assert(array.element.total_bits == len_sum(field.fragments@));
                    assert(array.stride_bits * (count - 1) <= usize::MAX) by (nonlinear_arith)
                        requires
                            array.offset_bits + array.element.total_bits + array.stride_bits * (count - 1) <= usize::MAX,
                    ;
                    let end = array.offset_bits + array.element.total_bits + array.stride_bits * (count - 1);
                    total_bits = if total_bits >= end { total_bits } else { end };
                },
            }

            compiled_fields.push(compiled_field);
            i += 1;
        }
        assert(fields@.take(fields@.len() as int) == fields@);

        let schema = Schema { fields: compiled_fields, total_bits, write_config };
        proof {
            crate::roundtrip::lemma_compiled_schema_writable(schema, fields@);
        }
        Ok(schema)
    }
}

} // verus!
