//! What serialization and parsing promise together: for a densely laid out
//! schema, parsing the serialized bytes gives back the values written.

use vstd::prelude::*;
use vstd::arithmetic::power2::{pow2, lemma_pow2_pos, lemma_pow2_adds, lemma2_to64};
use vstd::bits::{lemma_u64_shr_is_div, lemma_u64_shl_is_mul, lemma_u64_low_bits_mask_is_mod, low_bits_mask};

use crate::bitmath::{
    bit_at, bits_value, value_bit, reversed_bits, bit_field, lemma_bit_field_concat, lemma_bit_field_low,
    lemma_bit_field_bounds, lemma_bits_value_of_written, lemma_bits_value_bound, lemma_pow2_le,
    lemma_reversed_bits_bound, lemma_reversed_bits_involution,
};
use crate::bits::read_bits_spec;
use crate::compiled::{
    CompiledFragment, CompiledScalar, CompiledArray, CompiledField, CompiledFieldKind, assemble_raw,
    oriented_part, fragment_bits, scalar_bits, scalar_word, scalar_of_raw, scalar_result, elements_bits,
    array_count, element_base, array_elements, array_result, all_words,
};
use crate::bits::signed_of_width;
use crate::value::ValueModel;
use crate::assembly::BitOrder;
use crate::errors::{ReadError, WriteErrorModel};
use crate::schema::{
    Schema, field_result, parsed_fields, field_bits, serialized_bits, fields_extent, fragments_extent, field_extent,
    field_readable, field_writable, first_compile_error, name_refused,
};
use crate::bits::{packed_byte, lemma_packed_msb_bit};
use crate::compiled::{
    len_sum, fragment_shift, field_compiled_from, field_compile_error, scalar_compiled_from, scalar_compile_error,
    lemma_len_sum_take_step, lemma_len_sum_take_le, scalar_readable, scalar_writable, array_readable,
};
use crate::field::{Field, FieldKind};
use crate::fragment::Fragment;
use crate::assembly::{ArrayCount, Assemble};

verus! {

/// Sum of the lengths of the first `k` compiled fragments.
pub open spec fn cprefix(frags: Seq<CompiledFragment>, k: int) -> nat
    decreases k,
{
    if k <= 0 {
        0
    } else {
        cprefix(frags, k - 1) + frags[k - 1].len_bits as nat
    }
}

/// The fragments' shifts tile the `total` bits of the value: with `msb`
/// the first fragment holds the highest bits, otherwise the lowest.
pub open spec fn shifts_tile(frags: Seq<CompiledFragment>, total: nat, msb: bool) -> bool {
    &&& cprefix(frags, frags.len() as int) == total
    &&& total <= 64
    &&& forall|k: int| 0 <= k < frags.len() ==> #[trigger] frags[k].shift == if msb {
        total - cprefix(frags, k + 1)
    } else {
        cprefix(frags, k) as int
    }
}

/// Longer prefixes hold at least as many bits.
pub proof fn lemma_cprefix_mono(frags: Seq<CompiledFragment>, a: int, b: int)
    requires
        0 <= a <= b <= frags.len(),
    ensures
        cprefix(frags, a) <= cprefix(frags, b),
    decreases b - a,
{
    if a < b {
        lemma_cprefix_mono(frags, a, b - 1);
    }
}

proof fn lemma_cprefix_drop_last(frags: Seq<CompiledFragment>, k: int)
    requires
        0 <= k < frags.len(),
    ensures
        cprefix(frags.drop_last(), k) == cprefix(frags, k),
    decreases k,
{
    if k > 0 {
        lemma_cprefix_drop_last(frags, k - 1);
    }
}

/// Where the bits of each fragment sit in the bits written for a scalar.
pub proof fn lemma_scalar_bits_layout(frags: Seq<CompiledFragment>, w: u64, k: int, j: int)
    requires
        0 <= k < frags.len(),
        0 <= j < frags[k].len_bits,
    ensures
        scalar_bits(frags, w).len() == cprefix(frags, frags.len() as int),
        scalar_bits(frags, w)[cprefix(frags, k) + j] == fragment_bits(frags[k], w)[j],
    decreases frags.len(),
{
    lemma_scalar_bits_len(frags, w);
    let n = frags.len() - 1;
    let rest = frags.drop_last();
    lemma_scalar_bits_len(rest, w);
    if k < n {
        lemma_scalar_bits_layout(rest, w, k, j);
        lemma_cprefix_drop_last(frags, k);
        lemma_cprefix_drop_last(frags, k + 1);
        lemma_cprefix_mono(frags, k + 1, n);
        assert(rest[k] == frags[k]);
    } else {
        lemma_cprefix_drop_last(frags, n);
    }
}

/// A scalar writes as many bits as its fragments hold.
pub proof fn lemma_scalar_bits_len(frags: Seq<CompiledFragment>, w: u64)
    ensures
        scalar_bits(frags, w).len() == cprefix(frags, frags.len() as int),
    decreases frags.len(),
{
    if frags.len() > 0 {
        lemma_scalar_bits_len(frags.drop_last(), w);
        lemma_cprefix_drop_last(frags, frags.len() - 1);
    }
}

/// Every bit written is 0 or 1.
pub proof fn lemma_scalar_bits_binary(frags: Seq<CompiledFragment>, w: u64, i: int)
    requires
        0 <= i < scalar_bits(frags, w).len(),
    ensures
        scalar_bits(frags, w)[i] <= 1,
    decreases frags.len(),
{
    if frags.len() > 0 {
        let rest = scalar_bits(frags.drop_last(), w);
        if i < rest.len() {
            lemma_scalar_bits_binary(frags.drop_last(), w, i);
        } else {
            let f = frags.last();
            let part = oriented_part(w >> f.shift, f);
            let j = i - rest.len();
            assert(value_bit(part as nat, f.len_bits as nat, j) <= 1);
        }
    }
}

/// OR-ing a multiple of `2^m` with a value below `2^m` adds them.
proof fn lemma_or_disjoint(a: u64, x: u64, m: nat)
    requires
        m <= 64,
        a as nat % pow2(m) == 0,
        (x as nat) < pow2(m),
    ensures
        a | x == a + x,
{
    lemma2_to64();
    if m == 64 {
        vstd::arithmetic::div_mod::lemma_small_mod(a as nat, pow2(64));
        assert(a == 0);
        assert(0u64 | x == x) by (bit_vector);
    } else {
        let mk = low_bits_mask(m) as u64;
        lemma_u64_low_bits_mask_is_mod(a, m);
        lemma_u64_low_bits_mask_is_mod(x, m);
        vstd::bits::lemma_u64_pow2_no_overflow(m);
        vstd::arithmetic::div_mod::lemma_small_mod(x as nat, pow2(m));
        assert(a & mk == 0);
        assert(x & mk == x);
        assert(a | x == a + x) by (bit_vector)
            requires
                a & mk == 0,
                x & mk == x,
        ;
    }
}

/// The part of `w` that a fragment at `shift` with `len` bits reads back,
/// once put back in MSB-first order, is bits `shift..shift + len` of `w`.
proof fn lemma_fragment_read_back(f: CompiledFragment, w: u64, data: Seq<u8>, pos: int)
    requires
        1 <= f.len_bits,
        f.shift + f.len_bits <= 64,
        pos + f.len_bits <= data.len() * 8,
        forall|j: int| 0 <= j < f.len_bits ==> #[trigger] bit_at(data, pos + j) == fragment_bits(f, w)[j],
    ensures
        read_bits_spec(data, pos, f.len_bits as int) matches Ok(part)
            && (oriented_part(part, f) as nat) == (w as nat / pow2(f.shift as nat)) % pow2(f.len_bits as nat),
{
    let n = f.len_bits as nat;
    let q = oriented_part(w >> f.shift, f);
    assert forall|j: int| 0 <= j < n implies #[trigger] bit_at(data, pos + j) == value_bit(q as nat, n, j) by {
        assert(fragment_bits(f, w)[j] == value_bit(q as nat, n, j) as u8);
        assert(value_bit(q as nat, n, j) <= 1);
    }
    lemma_bits_value_of_written(data, pos, n, q as nat, n);
    lemma2_to64();
    assert((n - n) as nat == 0);
    assert(pow2(0) == 1);
    let qq = q as nat;
    assert(qq / pow2(0) == qq / 1);
    vstd::arithmetic::div_mod::lemma_div_basics(qq as int);
    let v = bits_value(data, pos, n);
    lemma_bits_value_bound(data, pos, n);
    lemma_pow2_le(n, 64);
    let part = v as u64;
    assert(part as nat == q as nat % pow2(n));
    lemma_u64_shr_is_div(w, f.shift as u64);
    let s = w >> f.shift;
    if f.bit_order == BitOrder::LsbFirst {
        lemma_reversed_bits_bound(s as nat, n);
        vstd::arithmetic::div_mod::lemma_small_mod(q as nat, pow2(n));
        assert(part == q);
        lemma_reversed_bits_involution(s as nat, n);
    }
}

/// What the first `k` fragments of a tiling scalar contribute: the top
/// `cprefix(k)` bits of `w` with MSB-first concatenation, the bottom ones
/// with LSB-first concatenation.
pub open spec fn tiled_prefix(frags: Seq<CompiledFragment>, total: nat, msb: bool, w: u64, k: int) -> nat {
    if msb {
        bit_field(w as nat, (total - cprefix(frags, k)) as nat, total)
    } else {
        bit_field(w as nat, 0, cprefix(frags, k))
    }
}

/// The conditions under which a scalar reads back the bits written for `w`.
pub open spec fn scalar_laid_out(frags: Seq<CompiledFragment>, total: nat, msb: bool, w: u64, data: Seq<u8>, base: int) -> bool {
    &&& shifts_tile(frags, total, msb)
    &&& forall|k: int| 0 <= k < frags.len() ==> #[trigger] frags[k].len_bits >= 1
    &&& forall|k: int| 0 <= k < frags.len() ==> #[trigger] frags[k].offset_bits + base + frags[k].len_bits <= data.len() * 8
    &&& forall|k: int, j: int| 0 <= k < frags.len() && 0 <= j < frags[k].len_bits ==>
        #[trigger] bit_at(data, frags[k].offset_bits + base + j) == #[trigger] fragment_bits(frags[k], w)[j]
}

proof fn lemma_scalar_read_prefix(frags: Seq<CompiledFragment>, total: nat, msb: bool, w: u64, data: Seq<u8>, base: int, k: int)
    requires
        scalar_laid_out(frags, total, msb, w, data, base),
        0 <= k <= frags.len(),
    ensures
        assemble_raw(frags.take(k), data, base) == Ok::<u64, ReadError>(tiled_prefix(frags, total, msb, w, k) as u64),
    decreases k,
{
    let n = frags.len() as int;
    lemma2_to64();
    if k == 0 {
        assert(frags.take(0) =~= Seq::<CompiledFragment>::empty());
        if msb {
            lemma_pow2_pos(total);
            assert((total - total) as nat == 0);
            assert(pow2(0) == 1);
            let y = w as nat / pow2(total);
            assert(y % pow2(0) == y % 1);
            vstd::arithmetic::div_mod::lemma_fundamental_div_mod_converse(y as int, 1, y as int, 0);
            assert(y % 1 == 0);
            assert(0 * pow2(total) == 0);
            assert(bit_field(w as nat, total, total) == 0);
        } else {
            lemma_bit_field_low(w as nat, 0);
        }
    } else {
        let i = k - 1;
        lemma_scalar_read_prefix(frags, total, msb, w, data, base, i);
        let f = frags[i];
        lemma_cprefix_mono(frags, k, n);
        lemma_cprefix_mono(frags, 0, i);
        let pk = cprefix(frags, i);
        let pk1 = cprefix(frags, k);
        assert(f.shift + f.len_bits <= total);
        assert forall|j: int| 0 <= j < f.len_bits implies
            #[trigger] bit_at(data, f.offset_bits + base + j) == fragment_bits(f, w)[j]
        by {
            assert(bit_at(data, frags[i].offset_bits + base + j) == fragment_bits(frags[i], w)[j]);
        }
        lemma_fragment_read_back(f, w, data, f.offset_bits + base);
        let part = match read_bits_spec(data, f.offset_bits + base, f.len_bits as int) {
            Ok(p) => p,
            Err(_) => 0,
        };
        let chunk = oriented_part(part, f);
        let sh = f.shift as nat;
        let len = f.len_bits as nat;
        lemma_pow2_pos(sh);
        lemma_pow2_pos(len);
        lemma_pow2_adds(len, sh);
        lemma_pow2_le(len + sh, 64);
        assert((chunk as nat) < pow2(len)) by {
            vstd::arithmetic::div_mod::lemma_mod_bound((w as nat / pow2(sh)) as int, pow2(len) as int);
        }
        assert(chunk * pow2(sh) < pow2(len) * pow2(sh)) by (nonlinear_arith)
            requires
                (chunk as nat) < pow2(len),
                pow2(sh) > 0,
        ;
        lemma_u64_shl_is_mul(chunk, f.shift as u64);
        let field = chunk << f.shift;
        assert(field as nat == bit_field(w as nat, sh, sh + len));
        assert(frags.take(k).drop_last() == frags.take(i));
        assert(frags.take(k).last() == f);
        let acc_old = tiled_prefix(frags, total, msb, w, i);
        if msb {
            assert(sh + len == total - pk);
            assert(sh == total - pk1);
            lemma_bit_field_bounds(w as nat, (total - pk) as nat, total);
            lemma_pow2_le(total, 64);
            lemma_or_disjoint(acc_old as u64, field, (total - pk) as nat);
            lemma_bit_field_concat(w as nat, sh, (total - pk) as nat, total);
        } else {
            assert(sh == pk);
            assert(sh + len == pk1);
            lemma_bit_field_bounds(w as nat, 0, pk);
            lemma_bit_field_bounds(w as nat, sh, sh + len);
            lemma_pow2_le(pk, 64);
            lemma_or_disjoint(field, acc_old as u64, pk);
            let a = acc_old as u64;
            assert(a | field == field | a) by (bit_vector);
            lemma_bit_field_concat(w as nat, 0, pk, pk1);
        }
    }
}

/// Assembling a scalar whose fragments tile its bits, from data holding the
/// bits written for `w`, gives back `w` modulo `2^total`.
pub proof fn lemma_scalar_read_back(frags: Seq<CompiledFragment>, total: nat, msb: bool, w: u64, data: Seq<u8>, base: int)
    requires
        scalar_laid_out(frags, total, msb, w, data, base),
    ensures
        assemble_raw(frags, data, base) == Ok::<u64, ReadError>((w as nat % pow2(total)) as u64),
{
    let n = frags.len() as int;
    lemma_scalar_read_prefix(frags, total, msb, w, data, base, n);
    assert(frags.take(n) == frags);
    lemma_bit_field_low(w as nat, total);
    assert((total - total) as nat == 0);
}

/// The word written for `v` fits scalar `c`: an unsigned value below
/// `2^total_bits`, or a signed value in the two's-complement range of
/// `total_bits` bits.
pub open spec fn word_fits(signed: bool, total: nat, v: ValueModel) -> bool {
    if signed {
        v matches ValueModel::I64(x) && -pow2((total - 1) as nat) <= x < pow2((total - 1) as nat)
    } else {
        v matches ValueModel::U64(x) && x < pow2(total)
    }
}

/// A value that fits is read back from its word modulo `2^total`.
pub proof fn lemma_word_read_back(c: CompiledScalar, v: ValueModel)
    requires
        1 <= c.total_bits <= 64,
        word_fits(c.signed, c.total_bits as nat, v),
    ensures
        scalar_word(v) matches Some(w) && scalar_of_raw(c, (w as nat % pow2(c.total_bits as nat)) as u64) == v,
{
    let t = c.total_bits as nat;
    lemma2_to64();
    lemma_pow2_pos(t);
    lemma_pow2_le(t, 64);
    let w = scalar_word(v)->0;
    if c.signed {
        let x = v->I64_0;
        crate::bits::lemma_sign_extend_inverts(x, t);
        let raw = w as nat % pow2(t);
        assert(raw < pow2(t)) by {
            vstd::arithmetic::div_mod::lemma_mod_bound(w as int, pow2(t) as int);
        }
        vstd::arithmetic::div_mod::lemma_small_mod(raw, pow2(t));
    } else {
        vstd::arithmetic::div_mod::lemma_small_mod(w as nat, pow2(t));
    }
}

/// The fragments of a scalar lie back to back from `start`.
pub open spec fn scalar_dense(c: CompiledScalar, start: int) -> bool {
    forall|k: int| 0 <= k < c.fragments@.len() ==> #[trigger] c.fragments@[k].offset_bits == start + cprefix(c.fragments@, k)
}

/// A scalar whose fragments tile its 1 to 64 bits.
pub open spec fn scalar_tiles(c: CompiledScalar) -> bool {
    &&& 1 <= c.total_bits <= 64
    &&& forall|k: int| 0 <= k < c.fragments@.len() ==> #[trigger] c.fragments@[k].len_bits >= 1
    &&& (shifts_tile(c.fragments@, c.total_bits as nat, true) || shifts_tile(c.fragments@, c.total_bits as nat, false))
}

/// Reading back a dense tiling scalar at `start` from data holding, from
/// `start` on, the bits written for `v`.
proof fn lemma_dense_scalar_read_back(c: CompiledScalar, v: ValueModel, data: Seq<u8>, start: int, base: int)
    requires
        scalar_tiles(c),
        scalar_dense(c, start - base),
        word_fits(c.signed, c.total_bits as nat, v),
        scalar_word(v) is Some,
        0 <= start,
        start + c.total_bits <= data.len() * 8,
        forall|q: int| 0 <= q < c.total_bits ==>
            #[trigger] bit_at(data, start + q) == scalar_bits(c.fragments@, scalar_word(v)->0)[q],
    ensures
        scalar_result(c, data, base) == Ok::<ValueModel, ReadError>(v),
{
    let frags = c.fragments@;
    let w = scalar_word(v)->0;
    let msb = shifts_tile(frags, c.total_bits as nat, true);
    let n = frags.len() as int;
    assert forall|k: int| 0 <= k < n implies #[trigger] frags[k].offset_bits + base + frags[k].len_bits <= data.len() * 8 by {
        lemma_cprefix_mono(frags, k + 1, n);
    }
    assert forall|k: int, j: int| 0 <= k < n && 0 <= j < frags[k].len_bits implies
        #[trigger] bit_at(data, frags[k].offset_bits + base + j) == #[trigger] fragment_bits(frags[k], w)[j]
    by {
        lemma_cprefix_mono(frags, k + 1, n);
        lemma_scalar_bits_layout(frags, w, k, j);
        assert(frags[k].offset_bits + base + j == start + (cprefix(frags, k) + j));
        assert(bit_at(data, start + (cprefix(frags, k) + j)) == scalar_bits(frags, w)[cprefix(frags, k) + j]);
    }
    lemma_scalar_read_back(frags, c.total_bits as nat, msb, w, data, base);
    lemma_word_read_back(c, v);
}

/// Number of bits serialization writes for a compiled field.
pub open spec fn cfield_width(f: CompiledField) -> nat {
    match f.kind {
        CompiledFieldKind::Scalar(s) => s.total_bits as nat,
        CompiledFieldKind::Array(a) => array_count(a) * (a.element.total_bits as nat),
    }
}

/// Number of bits serialization writes for the first `i` compiled fields.
pub open spec fn cfields_width(fields: Seq<CompiledField>, i: int) -> nat
    decreases i,
{
    if i <= 0 {
        0
    } else {
        cfields_width(fields, i - 1) + cfield_width(fields[i - 1])
    }
}

/// A compiled field lies back to back from `start`: a scalar's fragments in
/// order, an array's elements one after the other with no gap.
pub open spec fn cfield_dense(f: CompiledField, start: int) -> bool {
    match f.kind {
        CompiledFieldKind::Scalar(s) => scalar_dense(s, start),
        CompiledFieldKind::Array(a) => {
            &&& a.offset_bits == start
            &&& a.stride_bits == a.element.total_bits
            &&& scalar_dense(a.element, 0)
        },
    }
}

/// The scalar layout of a compiled field tiles its bits.
pub open spec fn cfield_tiles(f: CompiledField) -> bool {
    match f.kind {
        CompiledFieldKind::Scalar(s) => scalar_tiles(s),
        CompiledFieldKind::Array(a) => scalar_tiles(a.element),
    }
}

/// `v` fits compiled field `f`: a fitting word for a scalar, an array of
/// exactly `count` fitting words for an array.
pub open spec fn cvalue_fits(f: CompiledField, v: ValueModel) -> bool {
    match f.kind {
        CompiledFieldKind::Scalar(s) => word_fits(s.signed, s.total_bits as nat, v),
        CompiledFieldKind::Array(a) => v matches ValueModel::Array(vals) && vals.len() == array_count(a)
            && forall|e: int| 0 <= e < vals.len() ==> #[trigger] word_fits(a.element.signed, a.element.total_bits as nat, vals[e]),
    }
}

proof fn lemma_fits_has_word(signed: bool, total: nat, v: ValueModel)
    requires
        word_fits(signed, total, v),
    ensures
        scalar_word(v) is Some,
{
}

/// Where each element's bits sit among the bits written for an array.
proof fn lemma_elements_bits_layout(frags: Seq<CompiledFragment>, vals: Seq<ValueModel>, e: int, q: int)
    requires
        all_words(vals),
        0 <= e < vals.len(),
        0 <= q < cprefix(frags, frags.len() as int),
    ensures
        elements_bits(frags, vals).len() == vals.len() * cprefix(frags, frags.len() as int),
        elements_bits(frags, vals)[e * cprefix(frags, frags.len() as int) + q] == scalar_bits(frags, scalar_word(vals[e])->0)[q],
    decreases vals.len(),
{
    let l = cprefix(frags, frags.len() as int);
    lemma_elements_bits_len(frags, vals);
    let rest = vals.drop_last();
    assert(all_words(rest)) by {
        assert forall|j: int| 0 <= j < rest.len() implies #[trigger] scalar_word(rest[j]) is Some by {
            assert(rest[j] == vals[j]);
            assert(scalar_word(vals[j]) is Some);
        }
    }
    lemma_elements_bits_len(frags, rest);
    assert(scalar_word(vals[vals.len() - 1]) is Some);
    lemma_scalar_bits_len(frags, scalar_word(vals.last())->0);
    if e < vals.len() - 1 {
        lemma_elements_bits_layout(frags, rest, e, q);
        assert(rest[e] == vals[e]);
        assert(e * l + q < rest.len() * l) by (nonlinear_arith)
            requires
                e < rest.len(),
                q < l,
        ;
    } else {
        assert(e * l == rest.len() * l);
    }
}

proof fn lemma_elements_bits_len(frags: Seq<CompiledFragment>, vals: Seq<ValueModel>)
    requires
        all_words(vals),
    ensures
        elements_bits(frags, vals).len() == vals.len() * cprefix(frags, frags.len() as int),
    decreases vals.len(),
{
    if vals.len() > 0 {
        let rest = vals.drop_last();
        assert(all_words(rest)) by {
            assert forall|j: int| 0 <= j < rest.len() implies #[trigger] scalar_word(rest[j]) is Some by {
                assert(rest[j] == vals[j]);
                assert(scalar_word(vals[j]) is Some);
            }
        }
        lemma_elements_bits_len(frags, rest);
        assert(scalar_word(vals[vals.len() - 1]) is Some);
        lemma_scalar_bits_len(frags, scalar_word(vals.last())->0);
        let l = cprefix(frags, frags.len() as int);
        assert(rest.len() * l + l == vals.len() * l) by (nonlinear_arith)
            requires
                rest.len() + 1 == vals.len(),
        ;
    }
}

proof fn lemma_array_read_back(a: CompiledArray, vals: Seq<ValueModel>, data: Seq<u8>, start: int, m: nat)
    requires
        scalar_tiles(a.element),
        a.offset_bits == start,
        a.stride_bits == a.element.total_bits,
        scalar_dense(a.element, 0),
        vals.len() == array_count(a),
        forall|e: int| 0 <= e < vals.len() ==> #[trigger] word_fits(a.element.signed, a.element.total_bits as nat, vals[e]),
        0 <= start,
        start + array_count(a) * a.element.total_bits <= data.len() * 8,
        all_words(vals),
        forall|q: int| 0 <= q < array_count(a) * a.element.total_bits ==>
            #[trigger] bit_at(data, start + q) == elements_bits(a.element.fragments@, vals)[q],
        m <= array_count(a),
    ensures
        array_elements(a, data, m) == Ok::<Seq<ValueModel>, ReadError>(vals.take(m as int)),
    decreases m,
{
    if m == 0 {
        assert(vals.take(0) =~= Seq::<ValueModel>::empty());
    } else {
        lemma_array_read_back(a, vals, data, start, (m - 1) as nat);
        let e = m - 1;
        let el = a.element;
        let l = el.total_bits as int;
        let frags = el.fragments@;
        assert(cprefix(frags, frags.len() as int) == l);
        let base = element_base(a, e);
        assert(base == start + e * l);
        assert(e * l + l <= array_count(a) * l) by (nonlinear_arith)
            requires
                e + 1 <= array_count(a),
                l >= 0,
        ;
        let w = scalar_word(vals[e])->0;
        assert forall|q: int| 0 <= q < l implies #[trigger] bit_at(data, base + q) == scalar_bits(frags, w)[q] by {
            lemma_elements_bits_layout(frags, vals, e, q);
            assert(base + q == start + (e * l + q));
            assert(0 <= e * l) by (nonlinear_arith)
                requires
                    e >= 0,
                    l >= 0,
            ;
        }
        assert(scalar_dense(el, base - base));
        lemma_dense_scalar_read_back(el, vals[e], data, base, base);
        assert(vals.take(m as int) == vals.take(e).push(vals[e]));
    }
}

/// Bits serialization writes for a value that fits field `f`.
pub open spec fn value_bits(f: CompiledField, v: ValueModel) -> Seq<u8> {
    match f.kind {
        CompiledFieldKind::Scalar(s) => scalar_bits(s.fragments@, scalar_word(v)->0),
        CompiledFieldKind::Array(a) => elements_bits(a.element.fragments@, v->Array_0),
    }
}

proof fn lemma_fits_all_words(a: CompiledArray, v: ValueModel)
    requires
        v matches ValueModel::Array(vals) && forall|e: int| 0 <= e < vals.len() ==>
            #[trigger] word_fits(a.element.signed, a.element.total_bits as nat, vals[e]),
    ensures
        all_words(v->Array_0),
{
    let vals = v->Array_0;
    assert forall|j: int| 0 <= j < vals.len() implies #[trigger] scalar_word(vals[j]) is Some by {
        lemma_fits_has_word(a.element.signed, a.element.total_bits as nat, vals[j]);
    }
}

/// The bits written for a fitting value: as many as the field's width.
proof fn lemma_value_bits_len(f: CompiledField, v: ValueModel)
    requires
        cfield_tiles(f),
        cvalue_fits(f, v),
    ensures
        value_bits(f, v).len() == cfield_width(f),
        forall|q: int| 0 <= q < value_bits(f, v).len() ==> #[trigger] value_bits(f, v)[q] <= 1,
{
    match f.kind {
        CompiledFieldKind::Scalar(s) => {
            lemma_fits_has_word(s.signed, s.total_bits as nat, v);
            lemma_scalar_bits_len(s.fragments@, scalar_word(v)->0);
            assert forall|q: int| 0 <= q < value_bits(f, v).len() implies #[trigger] value_bits(f, v)[q] <= 1 by {
                lemma_scalar_bits_binary(s.fragments@, scalar_word(v)->0, q);
            }
        },
        CompiledFieldKind::Array(a) => {
            lemma_fits_all_words(a, v);
            lemma_elements_bits_len(a.element.fragments@, v->Array_0);
            assert forall|q: int| 0 <= q < value_bits(f, v).len() implies #[trigger] value_bits(f, v)[q] <= 1 by {
                lemma_elements_bits_binary(a.element.fragments@, v->Array_0, q);
            }
        },
    }
}

proof fn lemma_elements_bits_binary(frags: Seq<CompiledFragment>, vals: Seq<ValueModel>, q: int)
    requires
        0 <= q < elements_bits(frags, vals).len(),
    ensures
        elements_bits(frags, vals)[q] <= 1,
    decreases vals.len(),
{
    if vals.len() > 0 {
        let rest = elements_bits(frags, vals.drop_last());
        if q < rest.len() {
            lemma_elements_bits_binary(frags, vals.drop_last(), q);
        } else {
            match scalar_word(vals.last()) {
                Some(w) => lemma_scalar_bits_binary(frags, w, q - rest.len()),
                None => {},
            }
        }
    }
}

/// A dense tiling field reads back a fitting value from data holding its bits.
proof fn lemma_field_read_back(f: CompiledField, v: ValueModel, data: Seq<u8>, start: int)
    requires
        cfield_tiles(f),
        cfield_dense(f, start),
        cvalue_fits(f, v),
        0 <= start,
        start + cfield_width(f) <= data.len() * 8,
        forall|q: int| 0 <= q < cfield_width(f) ==> #[trigger] bit_at(data, start + q) == value_bits(f, v)[q],
    ensures
        field_result(f, data) == Ok::<ValueModel, ReadError>(v),
{
    match f.kind {
        CompiledFieldKind::Scalar(s) => {
            lemma_fits_has_word(s.signed, s.total_bits as nat, v);
            assert(scalar_dense(s, start - 0));
            lemma_dense_scalar_read_back(s, v, data, start, 0);
        },
        CompiledFieldKind::Array(a) => {
            let vals = v->Array_0;
            lemma_fits_all_words(a, v);
            lemma_array_read_back(a, vals, data, start, array_count(a));
            assert(vals.take(vals.len() as int) == vals);
        },
    }
}

/// A field with a fitting value in `obj` serializes to the value's bits.
proof fn lemma_field_bits_fit(f: CompiledField, obj: Map<Seq<char>, ValueModel>)
    requires
        obj.contains_key(f.name@),
        cfield_tiles(f),
        cvalue_fits(f, obj[f.name@]),
    ensures
        field_bits(f, obj) == Ok::<Seq<u8>, WriteErrorModel>(value_bits(f, obj[f.name@])),
{
    let v = obj[f.name@];
    match f.kind {
        CompiledFieldKind::Scalar(s) => {
            lemma_fits_has_word(s.signed, s.total_bits as nat, v);
        },
        CompiledFieldKind::Array(a) => {
            lemma_fits_all_words(a, v);
        },
    }
}

/// Every field of `fields` has a fitting value in `obj`.
pub open spec fn cfields_fit(fields: Seq<CompiledField>, obj: Map<Seq<char>, ValueModel>) -> bool {
    forall|j: int| 0 <= j < fields.len() ==> {
        &&& obj.contains_key(#[trigger] fields[j].name@)
        &&& cfield_tiles(fields[j])
        &&& cvalue_fits(fields[j], obj[fields[j].name@])
    }
}

/// Where the bits of each field sit in the serialized bits.
proof fn lemma_serialized_layout(fields: Seq<CompiledField>, obj: Map<Seq<char>, ValueModel>, i: int)
    requires
        cfields_fit(fields, obj),
        0 <= i <= fields.len(),
    ensures
        serialized_bits(fields.take(i), obj) matches Ok(b) && {
            &&& b.len() == cfields_width(fields, i)
            &&& forall|p: int| 0 <= p < b.len() ==> #[trigger] b[p] <= 1
            &&& forall|j: int, q: int| 0 <= j < i && 0 <= q < cfield_width(fields[j]) ==>
                b[cfields_width(fields, j) + q] == #[trigger] value_bits(fields[j], obj[fields[j].name@])[q]
        },
    decreases i,
{
    if i == 0 {
        assert(fields.take(0) =~= Seq::<CompiledField>::empty());
    } else {
        lemma_serialized_layout(fields, obj, i - 1);
        let f = fields[i - 1];
        assert(fields.take(i).drop_last() == fields.take(i - 1));
        assert(fields.take(i).last() == f);
        lemma_field_bits_fit(f, obj);
        lemma_value_bits_len(f, obj[f.name@]);
        let prev = serialized_bits(fields.take(i - 1), obj)->Ok_0;
        let fb = value_bits(f, obj[f.name@]);
        let b = prev + fb;
        assert forall|j: int, q: int| 0 <= j < i && 0 <= q < cfield_width(fields[j]) implies
            b[cfields_width(fields, j) + q] == #[trigger] value_bits(fields[j], obj[fields[j].name@])[q]
        by {
            if j < i - 1 {
                lemma_cfields_width_mono(fields, j + 1, i - 1);
                assert(prev[cfields_width(fields, j) + q] == value_bits(fields[j], obj[fields[j].name@])[q]);
            }
        }
    }
}

proof fn lemma_cfields_width_mono(fields: Seq<CompiledField>, a: int, b: int)
    requires
        0 <= a <= b,
    ensures
        cfields_width(fields, a) <= cfields_width(fields, b),
    decreases b - a,
{
    if a < b {
        lemma_cfields_width_mono(fields, a, b - 1);
    }
}

/// The map of each of the first `i` fields' names to its value in `obj`.
pub open spec fn names_map(fields: Seq<CompiledField>, obj: Map<Seq<char>, ValueModel>, i: int) -> Map<Seq<char>, ValueModel>
    decreases i,
{
    if i <= 0 {
        Map::empty()
    } else {
        names_map(fields, obj, i - 1).insert(fields[i - 1].name@, obj[fields[i - 1].name@])
    }
}

proof fn lemma_names_map(fields: Seq<CompiledField>, obj: Map<Seq<char>, ValueModel>, i: int, k: Seq<char>)
    requires
        0 <= i <= fields.len(),
    ensures
        names_map(fields, obj, i).contains_key(k) <==> exists|j: int| 0 <= j < i && #[trigger] fields[j].name@ == k,
        names_map(fields, obj, i).contains_key(k) ==> names_map(fields, obj, i)[k] == obj[k],
    decreases i,
{
    if i > 0 {
        lemma_names_map(fields, obj, i - 1, k);
        if fields[i - 1].name@ == k {
            assert(exists|j: int| 0 <= j < i && #[trigger] fields[j].name@ == k);
        } else if exists|j: int| 0 <= j < i && #[trigger] fields[j].name@ == k {
            let j = choose|j: int| 0 <= j < i && #[trigger] fields[j].name@ == k;
            assert(j < i - 1);
        }
    }
}

proof fn lemma_parsed_prefix(fields: Seq<CompiledField>, obj: Map<Seq<char>, ValueModel>, data: Seq<u8>, i: int)
    requires
        0 <= i <= fields.len(),
        forall|j: int| 0 <= j < fields.len() ==>
            field_result(#[trigger] fields[j], data) == Ok::<ValueModel, ReadError>(obj[fields[j].name@]),
    ensures
        parsed_fields(fields.take(i), data) == Ok::<Map<Seq<char>, ValueModel>, ReadError>(names_map(fields, obj, i)),
    decreases i,
{
    if i == 0 {
        assert(fields.take(0) =~= Seq::<CompiledField>::empty());
    } else {
        lemma_parsed_prefix(fields, obj, data, i - 1);
        assert(fields.take(i).drop_last() == fields.take(i - 1));
        assert(fields.take(i).last() == fields[i - 1]);
    }
}

proof fn lemma_roundtrip_compiled(fields: Seq<CompiledField>, obj: Map<Seq<char>, ValueModel>, bytes: Seq<u8>)
    requires
        cfields_fit(fields, obj),
        forall|j: int| 0 <= j < fields.len() ==> cfield_dense(#[trigger] fields[j], cfields_width(fields, j) as int),
        forall|k: Seq<char>| obj.contains_key(k) ==> exists|j: int| 0 <= j < fields.len() && #[trigger] fields[j].name@ == k,
        serialized_bits(fields, obj) matches Ok(bits) && bytes.len() == (bits.len() + 7) / 8
            && forall|k: int| 0 <= k < bytes.len() ==> #[trigger] bytes[k] == packed_byte(bits, k, BitOrder::MsbFirst, 8),
    ensures
        parsed_fields(fields, bytes) == Ok::<Map<Seq<char>, ValueModel>, ReadError>(obj),
{
    let n = fields.len() as int;
    lemma_serialized_layout(fields, obj, n);
    assert(fields.take(n) == fields);
    let bits = serialized_bits(fields, obj)->Ok_0;
    assert forall|j: int| 0 <= j < n implies
        field_result(#[trigger] fields[j], bytes) == Ok::<ValueModel, ReadError>(obj[fields[j].name@])
    by {
        let f = fields[j];
        let v = obj[f.name@];
        let start = cfields_width(fields, j);
        lemma_cfields_width_mono(fields, j + 1, n);
        lemma_value_bits_len(f, v);
        assert forall|q: int| 0 <= q < cfield_width(f) implies #[trigger] bit_at(bytes, start + q) == value_bits(f, v)[q] by {
            lemma_packed_msb_bit(bits, bytes, start + q);
            assert(bits[cfields_width(fields, j) + q] == value_bits(fields[j], obj[fields[j].name@])[q]);
        }
        lemma_field_read_back(f, v, bytes, start as int);
    }
    lemma_parsed_prefix(fields, obj, bytes, n);
    assert forall|k: Seq<char>| #[trigger] obj.contains_key(k) <==> names_map(fields, obj, n).contains_key(k) by {
        lemma_names_map(fields, obj, n, k);
        if names_map(fields, obj, n).contains_key(k) {
            let j = choose|j: int| 0 <= j < n && #[trigger] fields[j].name@ == k;
            assert(obj.contains_key(fields[j].name@));
        }
    }
    assert forall|k: Seq<char>| #[trigger] obj.contains_key(k) implies names_map(fields, obj, n)[k] == obj[k] by {
        lemma_names_map(fields, obj, n, k);
    }
    assert(names_map(fields, obj, n) =~= obj);
}

// ---------------------------------------------------------------------------
// The law, over the fields a schema is compiled from
// ---------------------------------------------------------------------------

/// The fragments lie back to back from `start`, in order.
pub open spec fn fragments_dense(frags: Seq<Fragment>, start: int) -> bool {
    forall|k: int| 0 <= k < frags.len() ==> #[trigger] frags[k].offset_bits == start + len_sum(frags.take(k))
}

/// Number of bits serialization writes for a field.
pub open spec fn field_width(f: Field) -> nat {
    match f.kind {
        FieldKind::Scalar => len_sum(f.fragments@),
        FieldKind::Array(spec) => (spec.count as nat) * len_sum(f.fragments@),
    }
}

/// Number of bits serialization writes for the first `i` fields.
pub open spec fn fields_width(fields: Seq<Field>, i: int) -> nat
    decreases i,
{
    if i <= 0 {
        0
    } else {
        fields_width(fields, i - 1) + field_width(fields[i - 1])
    }
}

/// A field lies back to back from `start`: a scalar's fragments in order;
/// an array's elements one after the other (stride equal to the element
/// size, first element at `start`), each element's fragments in order.
pub open spec fn field_dense(f: Field, start: int) -> bool {
    match f.kind {
        FieldKind::Scalar => fragments_dense(f.fragments@, start),
        FieldKind::Array(spec) => {
            &&& spec.offset_bits == start
            &&& spec.stride_bits == len_sum(f.fragments@)
            &&& fragments_dense(f.fragments@, 0)
        },
    }
}

/// The fields lie back to back from bit 0, in the order serialization
/// writes them.
pub open spec fn layout_dense(fields: Seq<Field>) -> bool {
    forall|i: int| 0 <= i < fields.len() ==> field_dense(#[trigger] fields[i], fields_width(fields, i) as int)
}

/// `v` fits field `f`: an integer of the field's signedness within its
/// width, or for an array exactly `count` such integers.
pub open spec fn value_fits(f: Field, v: ValueModel) -> bool {
    match f.kind {
        FieldKind::Scalar => word_fits(f.signed, len_sum(f.fragments@), v),
        FieldKind::Array(spec) => v matches ValueModel::Array(vals) && vals.len() == spec.count
            && forall|e: int| 0 <= e < vals.len() ==> #[trigger] word_fits(f.signed, len_sum(f.fragments@), vals[e]),
    }
}

/// `obj` holds exactly the fields' names, each with a fitting value.
pub open spec fn obj_fits(fields: Seq<Field>, obj: Map<Seq<char>, ValueModel>) -> bool {
    &&& forall|i: int| 0 <= i < fields.len() ==> obj.contains_key(#[trigger] fields[i].name@)
        && value_fits(fields[i], obj[fields[i].name@])
    &&& forall|k: Seq<char>| obj.contains_key(k) ==> exists|i: int| 0 <= i < fields.len() && #[trigger] fields[i].name@ == k
}

proof fn lemma_cprefix_len_sum(c: CompiledScalar, f: Field, k: int)
    requires
        scalar_compiled_from(c, f),
        0 <= k <= f.fragments@.len(),
    ensures
        cprefix(c.fragments@, k) == len_sum(f.fragments@.take(k)),
    decreases k,
{
    if k == 0 {
        assert(f.fragments@.take(0) =~= Seq::<Fragment>::empty());
    } else {
        lemma_cprefix_len_sum(c, f, k - 1);
        lemma_len_sum_take_step(f.fragments@, k - 1);
        assert(c.fragments@[k - 1].len_bits == f.fragments@[k - 1].len_bits);
    }
}

/// A scalar compiled without error tiles its bits, and is dense wherever
/// its source fragments are.
pub proof fn lemma_compiled_scalar_tiles(c: CompiledScalar, f: Field, start: int)
    requires
        scalar_compiled_from(c, f),
        scalar_compile_error(f) is None,
    ensures
        scalar_tiles(c),
        scalar_readable(c, 0),
        scalar_writable(c),
        fragments_dense(f.fragments@, start) ==> scalar_dense(c, start),
{
    let frags = c.fragments@;
    let n = frags.len() as int;
    lemma_cprefix_len_sum(c, f, n);
    assert(f.fragments@.take(n) == f.fragments@);
    let total = c.total_bits as nat;
    assert forall|k: int| 0 <= k < n implies #[trigger] frags[k].len_bits >= 1 by {
        assert(f.fragments@[k].len_bits != 0);
    }
    let msb = f.assemble == Assemble::Concat(BitOrder::MsbFirst);
    assert forall|k: int| 0 <= k < n implies #[trigger] frags[k].shift == if msb {
        total - cprefix(frags, k + 1)
    } else {
        cprefix(frags, k) as int
    } by {
        lemma_cprefix_len_sum(c, f, k);
        lemma_cprefix_len_sum(c, f, k + 1);
        lemma_len_sum_take_step(f.fragments@, k);
        assert(frags[k].shift == fragment_shift(f, k));
    }
    assert(shifts_tile(frags, total, msb));
    assert forall|k: int| 0 <= k < n implies #[trigger] frags[k].shift < 64 && frags[k].len_bits <= 64 by {
        lemma_cprefix_mono(frags, k, k + 1);
        lemma_cprefix_mono(frags, k + 1, n);
        lemma_cprefix_mono(frags, 0, k);
    }
    if fragments_dense(f.fragments@, start) {
        assert forall|k: int| 0 <= k < n implies #[trigger] frags[k].offset_bits == start + cprefix(frags, k) by {
            lemma_cprefix_len_sum(c, f, k);
        }
    }
}


/// Every field of a list that compiles has a valid layout and a name that is
/// neither empty nor taken by an earlier field.
pub proof fn lemma_no_compile_error_each(fields: Seq<Field>, k: int)
    requires
        first_compile_error(fields) is None,
        0 <= k < fields.len(),
    ensures
        field_compile_error(fields[k]) is None,
        !name_refused(fields, k),
    decreases fields.len(),
{
    if k < fields.len() - 1 {
        lemma_no_compile_error_each(fields.drop_last(), k);
        assert(fields.drop_last()[k] == fields[k]);
        assert(fields.drop_last() == fields.take(fields.len() - 1));
        crate::schema::lemma_field_error_at_prefix(fields, fields.len() - 1, k);
    }
}

/// A field compiled without error, laid out densely from `start`, compiles
/// to a dense tiling field of the same width, and a value fitting the field
/// fits its compiled form.
proof fn lemma_compiled_field_dense(c: CompiledField, f: Field, start: int, v: ValueModel)
    requires
        field_compiled_from(c, f),
        field_compile_error(f) is None,
        field_dense(f, start),
    ensures
        cfield_tiles(c),
        cfield_dense(c, start),
        cfield_width(c) == field_width(f),
        field_writable(c),
        value_fits(f, v) ==> cvalue_fits(c, v),
{
    match (c.kind, f.kind) {
        (CompiledFieldKind::Scalar(s), FieldKind::Scalar) => {
            lemma_compiled_scalar_tiles(s, f, start);
        },
        (CompiledFieldKind::Array(a), FieldKind::Array(spec)) => {
            lemma_compiled_scalar_tiles(a.element, f, 0);
        },
        _ => {},
    }
}

/// A field laid out densely from `start` covers no bit at or past
/// `start + field_width(f)`.
proof fn lemma_field_extent_dense(f: Field, start: int)
    requires
        field_compile_error(f) is None,
        field_dense(f, start),
        0 <= start,
    ensures
        field_extent(f) <= start + field_width(f),
{
    match f.kind {
        FieldKind::Scalar => {
            lemma_fragments_extent_dense(f.fragments@, start, f.fragments@.len() as int);
            assert(f.fragments@.take(f.fragments@.len() as int) == f.fragments@);
        },
        FieldKind::Array(spec) => {
            let l = len_sum(f.fragments@);
            assert(l + spec.stride_bits * (spec.count - 1) == (spec.count as nat) * l) by (nonlinear_arith)
                requires
                    spec.stride_bits == l,
                    spec.count >= 1,
            ;
        },
    }
}

proof fn lemma_fragments_extent_dense(frags: Seq<Fragment>, start: int, i: int)
    requires
        fragments_dense(frags, start),
        0 <= start,
        0 <= i <= frags.len(),
    ensures
        fragments_extent(frags.take(i)) <= start + len_sum(frags.take(i)),
    decreases i,
{
    if i > 0 {
        lemma_fragments_extent_dense(frags, start, i - 1);
        assert(frags.take(i).drop_last() == frags.take(i - 1));
        assert(frags.take(i).last() == frags[i - 1]);
        lemma_len_sum_take_step(frags, i - 1);
    } else {
        assert(frags.take(0) =~= Seq::<Fragment>::empty());
    }
}

proof fn lemma_fields_extent_dense(fields: Seq<Field>, i: int)
    requires
        first_compile_error(fields) is None,
        layout_dense(fields),
        0 <= i <= fields.len(),
    ensures
        fields_extent(fields.take(i)) <= fields_width(fields, i),
    decreases i,
{
    if i > 0 {
        lemma_fields_extent_dense(fields, i - 1);
        assert(fields.take(i).drop_last() == fields.take(i - 1));
        assert(fields.take(i).last() == fields[i - 1]);
        lemma_no_compile_error_each(fields, i - 1);
        lemma_field_extent_dense(fields[i - 1], fields_width(fields, i - 1) as int);
    } else {
        assert(fields.take(0) =~= Seq::<Field>::empty());
    }
}

proof fn lemma_widths_agree(schema: Schema, fields: Seq<Field>, i: int)
    requires
        schema.compiled_from(fields),
        layout_dense(fields),
        0 <= i <= fields.len(),
    ensures
        cfields_width(schema.spec_fields(), i) == fields_width(fields, i),
    decreases i,
{
    if i > 0 {
        lemma_widths_agree(schema, fields, i - 1);
        lemma_no_compile_error_each(fields, i - 1);
        lemma_compiled_field_dense(schema.spec_fields()[i - 1], fields[i - 1],
            fields_width(fields, i - 1) as int, ValueModel::U64(0));
    }
}

/// Serializing a value for every field of a densely laid out schema
/// succeeds, with exactly as many bits as the fields are wide, and the
/// schema can be serialized within machine arithmetic.
pub proof fn lemma_dense_serialize_succeeds(schema: Schema, fields: Seq<Field>, obj: Map<Seq<char>, ValueModel>)
    requires
        schema.compiled_from(fields),
        layout_dense(fields),
        obj_fits(fields, obj),
    ensures
        schema.writable(),
        serialized_bits(schema.spec_fields(), obj) matches Ok(bits)
            && bits.len() == fields_width(fields, fields.len() as int),
        schema.spec_total_bits() <= fields_width(fields, fields.len() as int),
        fields_width(fields, fields.len() as int) <= usize::MAX ==> schema.readable(),
{
    let cf = schema.spec_fields();
    let n = fields.len() as int;
    assert forall|j: int| 0 <= j < n implies {
        &&& obj.contains_key(#[trigger] cf[j].name@)
        &&& cfield_tiles(cf[j])
        &&& cvalue_fits(cf[j], obj[cf[j].name@])
    } by {
        lemma_no_compile_error_each(fields, j);
        assert(field_compiled_from(cf[j], fields[j]));
        assert(obj.contains_key(fields[j].name@));
        lemma_compiled_field_dense(cf[j], fields[j], fields_width(fields, j) as int, obj[fields[j].name@]);
    }
    assert(cfields_fit(cf, obj));
    assert forall|j: int| 0 <= j < n implies field_writable(#[trigger] cf[j]) by {
        lemma_no_compile_error_each(fields, j);
        lemma_compiled_field_dense(cf[j], fields[j], fields_width(fields, j) as int, ValueModel::U64(0));
    }
    lemma_serialized_layout(cf, obj, n);
    assert(cf.take(n) == cf);
    lemma_widths_agree(schema, fields, n);
    lemma_fields_extent_dense(fields, n);
    assert(fields.take(n) == fields);
    if fields_width(fields, n) <= usize::MAX {
        assert forall|j: int| 0 <= j < n implies field_readable(#[trigger] cf[j]) by {
            lemma_no_compile_error_each(fields, j);
            lemma_fields_width_mono(fields, j + 1, n);
            lemma_compiled_field_readable(cf[j], fields[j], fields_width(fields, j) as int);
        }
    }
}

proof fn lemma_fields_width_mono(fields: Seq<Field>, a: int, b: int)
    requires
        0 <= a <= b,
    ensures
        fields_width(fields, a) <= fields_width(fields, b),
    decreases b - a,
{
    if a < b {
        lemma_fields_width_mono(fields, a, b - 1);
    }
}

/// Parsing the bytes that serialization of a densely laid out schema
/// produces (bits packed most significant first) gives back exactly the
/// values written, when each value fits its field and the object holds
/// nothing but the schema's fields.
pub proof fn lemma_serialize_parse_roundtrip(schema: Schema, fields: Seq<Field>, obj: Map<Seq<char>, ValueModel>, bytes: Seq<u8>)
    requires
        schema.compiled_from(fields),
        schema.write_order() == BitOrder::MsbFirst,
        layout_dense(fields),
        obj_fits(fields, obj),
        serialized_bits(schema.spec_fields(), obj) matches Ok(bits) && bytes.len() == (bits.len() + 7) / 8
            && forall|k: int| 0 <= k < bytes.len() ==> #[trigger] bytes[k] == packed_byte(bits, k, BitOrder::MsbFirst, 8),
    ensures
        bytes.len() * 8 >= schema.spec_total_bits(),
        parsed_fields(schema.spec_fields(), bytes) == Ok::<Map<Seq<char>, ValueModel>, ReadError>(obj),
        fields_width(fields, fields.len() as int) + 7 <= usize::MAX ==> schema.readable() && bytes.len() * 8
            <= usize::MAX,
{
    let cf = schema.spec_fields();
    let n = fields.len() as int;
    lemma_dense_serialize_succeeds(schema, fields, obj);
    assert forall|j: int| 0 <= j < n implies {
        &&& obj.contains_key(#[trigger] cf[j].name@)
        &&& cfield_tiles(cf[j])
        &&& cvalue_fits(cf[j], obj[cf[j].name@])
    } by {
        lemma_no_compile_error_each(fields, j);
        assert(field_compiled_from(cf[j], fields[j]));
        assert(obj.contains_key(fields[j].name@));
        lemma_compiled_field_dense(cf[j], fields[j], fields_width(fields, j) as int, obj[fields[j].name@]);
    }
    assert forall|j: int| 0 <= j < n implies cfield_dense(#[trigger] cf[j], cfields_width(cf, j) as int) by {
        lemma_no_compile_error_each(fields, j);
        lemma_widths_agree(schema, fields, j);
        lemma_compiled_field_dense(cf[j], fields[j], fields_width(fields, j) as int, ValueModel::U64(0));
    }
    assert forall|k: Seq<char>| obj.contains_key(k) implies exists|j: int| 0 <= j < n && #[trigger] cf[j].name@ == k by {
        let i = choose|i: int| 0 <= i < n && #[trigger] fields[i].name@ == k;
        assert(field_compiled_from(cf[i], fields[i]));
        assert(cf[i].name@ == k);
    }
    lemma_roundtrip_compiled(cf, obj, bytes);
    let bits = serialized_bits(cf, obj)->Ok_0;
    assert(bytes.len() * 8 <= bits.len() + 7);
}


/// A dense field that ends within `usize` can be assembled within machine
/// arithmetic.
proof fn lemma_compiled_field_readable(c: CompiledField, f: Field, start: int)
    requires
        field_compiled_from(c, f),
        field_compile_error(f) is None,
        field_dense(f, start),
        0 <= start,
        start + field_width(f) <= usize::MAX,
    ensures
        field_readable(c),
{
    match (c.kind, f.kind) {
        (CompiledFieldKind::Scalar(s), FieldKind::Scalar) => {
            lemma_compiled_scalar_tiles(s, f, start);
        },
        (CompiledFieldKind::Array(a), FieldKind::Array(spec)) => {
            let el = a.element;
            lemma_compiled_scalar_tiles(el, f, 0);
            let l = el.total_bits as int;
            let cnt = array_count(a) as int;
            let frags = el.fragments@;
            assert forall|i: int| 0 <= i < cnt implies
                #[trigger] element_base(a, i) <= usize::MAX && scalar_readable(el, element_base(a, i))
            by {
                assert(i * l + l <= cnt * l) by (nonlinear_arith)
                    requires
                        i + 1 <= cnt,
                        l >= 0,
                ;
                assert(0 <= i * l) by (nonlinear_arith)
                    requires
                        i >= 0,
                        l >= 0,
                ;
                assert(element_base(a, i) == start + i * l);
                assert forall|k: int| 0 <= k < frags.len() implies
                    #[trigger] frags[k].offset_bits + element_base(a, i) <= usize::MAX
                by {
                    lemma_cprefix_mono(frags, k + 1, frags.len() as int);
                }
            }
        },
        _ => {},
    }
}


/// A compiled schema can be serialized within machine arithmetic: every
/// compiled scalar has shifts below 64 and fragments of at most 64 bits.
pub proof fn lemma_compiled_schema_writable(schema: Schema, fields: Seq<Field>)
    requires
        schema.compiled_from(fields),
    ensures
        schema.writable(),
{
    let cf = schema.spec_fields();
    assert forall|j: int| 0 <= j < cf.len() implies field_writable(#[trigger] cf[j]) by {
        lemma_no_compile_error_each(fields, j);
        assert(field_compiled_from(cf[j], fields[j]));
        match (cf[j].kind, fields[j].kind) {
            (CompiledFieldKind::Scalar(s), FieldKind::Scalar) => {
                lemma_compiled_scalar_tiles(s, fields[j], 0);
            },
            (CompiledFieldKind::Array(a), FieldKind::Array(spec)) => {
                lemma_compiled_scalar_tiles(a.element, fields[j], 0);
            },
            _ => {},
        }
    }
}


/// The fields of a compiled schema have non-empty names, no two the same,
/// so parsing gives one entry per field.
pub proof fn lemma_compiled_names_distinct(schema: Schema, fields: Seq<Field>)
    requires
        schema.compiled_from(fields),
    ensures
        forall|i: int| 0 <= i < schema.spec_fields().len() ==> #[trigger] schema.spec_fields()[i].name@.len() > 0,
        forall|i: int, j: int| 0 <= i < j < schema.spec_fields().len() ==>
            #[trigger] schema.spec_fields()[i].name@ != #[trigger] schema.spec_fields()[j].name@,
{
    let cf = schema.spec_fields();
    assert forall|i: int| 0 <= i < cf.len() implies #[trigger] cf[i].name@.len() > 0 by {
        lemma_no_compile_error_each(fields, i);
        assert(field_compiled_from(cf[i], fields[i]));
    }
    assert forall|i: int, j: int| 0 <= i < j < cf.len() implies #[trigger] cf[i].name@ != #[trigger] cf[j].name@ by {
        lemma_no_compile_error_each(fields, j);
        assert(field_compiled_from(cf[i], fields[i]));
        assert(field_compiled_from(cf[j], fields[j]));
        if cf[i].name@ == cf[j].name@ {
            assert(fields[i].name@ == fields[j].name@);
            assert(name_refused(fields, j));
        }
    }
}


/// Every bit serialization writes is 0 or 1.
pub proof fn lemma_serialized_bits_binary(fields: Seq<CompiledField>, obj: Map<Seq<char>, ValueModel>)
    ensures
        serialized_bits(fields, obj) matches Ok(bits) ==> forall|i: int| 0 <= i < bits.len() ==> #[trigger] bits[i] <= 1,
    decreases fields.len(),
{
    if fields.len() > 0 {
        lemma_serialized_bits_binary(fields.drop_last(), obj);
        if let Ok(bits) = serialized_bits(fields, obj) {
            let prev = serialized_bits(fields.drop_last(), obj)->Ok_0;
            let fb = field_bits(fields.last(), obj)->Ok_0;
            assert forall|i: int| 0 <= i < bits.len() implies #[trigger] bits[i] <= 1 by {
                if i >= prev.len() {
                    let q = i - prev.len();
                    let f = fields.last();
                    let v = obj[f.name@];
                    match f.kind {
                        CompiledFieldKind::Scalar(sc) => {
                            lemma_scalar_bits_binary(sc.fragments@, scalar_word(v)->0, q);
                        },
                        CompiledFieldKind::Array(a) => {
                            lemma_elements_bits_binary(a.element.fragments@, v->Array_0, q);
                        },
                    }
                }
            }
        }
    }
}

/// Two compilations of the same field write the same bits for any value.
proof fn lemma_field_bits_same(c0: CompiledField, c1: CompiledField, f: Field, obj: Map<Seq<char>, ValueModel>)
    requires
        field_compiled_from(c0, f),
        field_compiled_from(c1, f),
    ensures
        field_bits(c0, obj) == field_bits(c1, obj),
{
    match (c0.kind, c1.kind) {
        (CompiledFieldKind::Scalar(a), CompiledFieldKind::Scalar(b)) => {
            assert(a.fragments@ =~= b.fragments@);
        },
        (CompiledFieldKind::Array(a), CompiledFieldKind::Array(b)) => {
            assert(a.element.fragments@ =~= b.element.fragments@);
        },
        _ => {},
    }
}

/// Two compilations of the same fields write the same bits for any object.
proof fn lemma_serialized_bits_same(f0: Seq<CompiledField>, f1: Seq<CompiledField>, fields: Seq<Field>,
    obj: Map<Seq<char>, ValueModel>)
    requires
        f0.len() == fields.len(),
        f1.len() == fields.len(),
        forall|k: int| 0 <= k < fields.len() ==> field_compiled_from(#[trigger] f0[k], fields[k]),
        forall|k: int| 0 <= k < fields.len() ==> field_compiled_from(#[trigger] f1[k], fields[k]),
    ensures
        serialized_bits(f0, obj) == serialized_bits(f1, obj),
    decreases fields.len(),
{
    let n = fields.len() as int;
    if n > 0 {
        let d = fields.drop_last();
        assert forall|k: int| 0 <= k < d.len() implies field_compiled_from(#[trigger] f0.drop_last()[k], d[k]) by {
            assert(f0[k] == f0.drop_last()[k]);
        }
        assert forall|k: int| 0 <= k < d.len() implies field_compiled_from(#[trigger] f1.drop_last()[k], d[k]) by {
            assert(f1[k] == f1.drop_last()[k]);
        }
        lemma_serialized_bits_same(f0.drop_last(), f1.drop_last(), d, obj);
        assert(field_compiled_from(f0[n - 1], fields[n - 1]));
        assert(field_compiled_from(f1[n - 1], fields[n - 1]));
        lemma_field_bits_same(f0.last(), f1.last(), fields.last(), obj);
    }
}

/// Compiling the same fields with MSB-first and with LSB-first packing, the
/// two schemas serialize an object to the same bits or the same error, and
/// each LSB-first byte holds the bits of the MSB-first byte in reverse order.
pub proof fn lemma_write_orders_mirror(s0: Schema, s1: Schema, fields: Seq<Field>, obj: Map<Seq<char>, ValueModel>)
    requires
        s0.compiled_from(fields),
        s1.compiled_from(fields),
        s0.write_order() == BitOrder::MsbFirst,
        s1.write_order() == BitOrder::LsbFirst,
    ensures
        serialized_bits(s1.spec_fields(), obj) == serialized_bits(s0.spec_fields(), obj),
        serialized_bits(s0.spec_fields(), obj) matches Ok(bits) ==> forall|k: int, j: u8| 0 <= k && j < 8 ==>
            #[trigger] ((packed_byte(bits, k, s1.write_order(), 8) >> j) & 1)
                == (packed_byte(bits, k, s0.write_order(), 8) >> (7 - j) as u8) & 1,
{
    lemma_serialized_bits_same(s0.spec_fields(), s1.spec_fields(), fields, obj);
    lemma_serialized_bits_binary(s0.spec_fields(), obj);
    if let Ok(bits) = serialized_bits(s0.spec_fields(), obj) {
        assert forall|k: int, j: u8| 0 <= k && j < 8 implies
            #[trigger] ((packed_byte(bits, k, s1.write_order(), 8) >> j) & 1)
                == (packed_byte(bits, k, s0.write_order(), 8) >> (7 - j) as u8) & 1
        by {
            crate::bits::lemma_packed_orders_mirror(bits, k);
        }
    }
}

} // verus!
