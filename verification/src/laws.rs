//! Laws that say what the operations do in terms of their inputs and data
//! bits: where array elements are read, which bit of the data each bit of
//! a parsed value comes from and which bit of a value each serialized bit
//! is, where compilation places fragments, which widths compile, when data
//! is long enough to parse, where zero termination cuts a string, and what
//! trimming removes.

use vstd::prelude::*;
use vstd::arithmetic::power2::pow2;

use crate::assembly::{ArrayCount, Assemble, BitOrder};
use crate::bitmath::{
    reversed_bits, lemma_reversed_bits_bit, lemma_reversed_bits_bound, lemma_pow2_le, bit_at, bits_value,
    lemma_bits_value_bound, lemma_bit_at_bound, lemma_bit_of_low_part,
};
use crate::bits::read_bits_spec;
use crate::compiled::{assemble_raw, oriented_part};
use crate::roundtrip::{cprefix, lemma_scalar_bits_layout, lemma_compiled_scalar_tiles, lemma_cprefix_mono};
use crate::compiled::{
    CompiledArray, CompiledFragment, CompiledScalar, fragment_bits, scalar_bits, array_result, array_elements, scalar_result, element_base, scalar_compile_error, field_compile_error,
    len_sum, scalar_compiled_from, field_compiled_from, CompiledField, CompiledFieldKind, lemma_len_sum_take_step,
    lemma_len_sum_take_le,
};
use crate::schema::{Schema, parsed_fields, field_result, fields_extent, field_extent, fragments_extent};
use crate::fragment::Fragment;
use crate::errors::{CompileError, ReadError};
use crate::field::{Field, FieldKind};
use crate::transform::{Encoding, string_applied, is_white_space, trim_start, trim_end, trimmed};
use crate::value::ValueModel;

verus! {

proof fn lemma_array_prefix(a: CompiledArray, data: Seq<u8>, m: nat)
    ensures
        array_elements(a, data, m) matches Ok(vs) ==> vs.len() == m && forall|i: int| 0 <= i < m ==>
            scalar_result(a.element, data, a.offset_bits + i * a.stride_bits)
                == Ok::<ValueModel, ReadError>(#[trigger] vs[i]),
        array_elements(a, data, m) is Err <==> exists|i: int| 0 <= i < m
            && (#[trigger] scalar_result(a.element, data, a.offset_bits + i * a.stride_bits)) is Err,
    decreases m,
{
    if m > 0 {
        lemma_array_prefix(a, data, (m - 1) as nat);
        let last = m - 1;
        assert(element_base(a, last) == a.offset_bits + last * a.stride_bits);
        if array_elements(a, data, (m - 1) as nat) is Err {
            let i = choose|i: int| 0 <= i < m - 1
                && (#[trigger] scalar_result(a.element, data, a.offset_bits + i * a.stride_bits)) is Err;
            assert(0 <= i < m);
        } else if scalar_result(a.element, data, a.offset_bits + last * a.stride_bits) is Err {
            assert(exists|i: int| 0 <= i < m
                && (#[trigger] scalar_result(a.element, data, a.offset_bits + i * a.stride_bits)) is Err);
        } else {
            let vs = array_elements(a, data, (m - 1) as nat)->Ok_0;
            let v = scalar_result(a.element, data, a.offset_bits + last * a.stride_bits)->Ok_0;
            assert forall|i: int| 0 <= i < m implies
                scalar_result(a.element, data, a.offset_bits + i * a.stride_bits)
                    == Ok::<ValueModel, ReadError>(#[trigger] vs.push(v)[i])
            by {
                if i < m - 1 {
                    assert(vs.push(v)[i] == vs[i]);
                }
            }
            if exists|i: int| 0 <= i < m
                && (#[trigger] scalar_result(a.element, data, a.offset_bits + i * a.stride_bits)) is Err {
                let i = choose|i: int| 0 <= i < m
                    && (#[trigger] scalar_result(a.element, data, a.offset_bits + i * a.stride_bits)) is Err;
                if i < m - 1 {
                    assert(scalar_result(a.element, data, a.offset_bits + i * a.stride_bits)
                        == Ok::<ValueModel, ReadError>(vs[i]));
                }
            }
        }
    }
}

/// Parsing an array reads element `i` as the element scalar assembled at
/// bit offset `offset_bits + i * stride_bits`, whatever the stride: the
/// array holds exactly `count` such elements, and it fails exactly when
/// one of them does.
pub proof fn lemma_array_elements_at_stride(a: CompiledArray, data: Seq<u8>)
    ensures
        array_result(a, data) matches Ok(v) ==> v matches ValueModel::Array(vs)
            && vs.len() == (match a.count { ArrayCount::Fixed(n) => n })
            && forall|i: int| 0 <= i < vs.len() ==>
                scalar_result(a.element, data, a.offset_bits + i * a.stride_bits)
                    == Ok::<ValueModel, ReadError>(#[trigger] vs[i]),
        array_result(a, data) is Err <==> exists|i: int| 0 <= i < (match a.count { ArrayCount::Fixed(n) => n })
            && (#[trigger] scalar_result(a.element, data, a.offset_bits + i * a.stride_bits)) is Err,
{
    let n = match a.count {
        ArrayCount::Fixed(n) => n,
    };
    lemma_array_prefix(a, data, n as nat);
}

/// A field whose fragments are all non-empty and hold 1 to 64 bits in
/// total, 64 included, has a valid scalar layout; any other total, or an
/// empty fragment, is refused.
pub proof fn lemma_scalar_widths(f: Field)
    ensures
        scalar_compile_error(f) is None <==> 1 <= len_sum(f.fragments@) <= 64
            && forall|k: int| 0 <= k < f.fragments@.len() ==> #[trigger] f.fragments@[k].len_bits > 0,
        !(1 <= len_sum(f.fragments@) <= 64) ==> scalar_compile_error(f) == Some(CompileError::InvalidFieldSize),
{
}

/// A scalar field of 1 to 64 bits made of non-empty fragments compiles.
pub proof fn lemma_scalar_field_compiles(f: Field)
    requires
        f.kind == FieldKind::Scalar,
        1 <= len_sum(f.fragments@) <= 64,
        forall|k: int| 0 <= k < f.fragments@.len() ==> #[trigger] f.fragments@[k].len_bits > 0,
    ensures
        field_compile_error(f) is None,
{
}

/// With zero termination, a byte string is decoded from the bytes before
/// its first zero byte, as if they were the whole string; without a zero
/// byte, zero termination changes nothing.
pub proof fn lemma_zero_termination(b: Seq<u8>, enc: Encoding, trim: Option<bool>, k: int)
    requires
        0 <= k < b.len(),
        b[k] == 0,
        forall|j: int| 0 <= j < k ==> #[trigger] b[j] != 0,
    ensures
        string_applied(ValueModel::Bytes(b), Some(enc), Some(true), trim)
            == string_applied(ValueModel::Bytes(b.take(k)), Some(enc), None, trim),
{
    assert(crate::transform::first_zero(b, k));
    let c = choose|q: int| crate::transform::first_zero(b, q);
    assert(crate::transform::first_zero(b, c));
    if c < k {
        assert(b[c] != 0);
    } else if c > k {
        assert(b[k] != 0);
    }
}

/// Zero termination of a byte string without a zero byte changes nothing.
pub proof fn lemma_zero_termination_no_zero(b: Seq<u8>, enc: Encoding, trim: Option<bool>)
    requires
        forall|j: int| 0 <= j < b.len() ==> #[trigger] b[j] != 0,
    ensures
        string_applied(ValueModel::Bytes(b), Some(enc), Some(true), trim)
            == string_applied(ValueModel::Bytes(b), Some(enc), None, trim),
{
}


/// Bit `i` of the reversal of the low `n` bits of `x` (the result of
/// `reverse_bits_n(x, n)`) is bit `n - 1 - i` of `x`, and the reversal has
/// no bit at or above `n`, for a width of at most 64 bits.
pub proof fn lemma_reverse_bits_n_bits(x: u64, n: nat, i: nat)
    requires
        n <= 64,
        i < n,
    ensures
        reversed_bits(x as nat, n) < pow2(n),
        (reversed_bits(x as nat, n) / pow2(i)) % 2 == (x as nat / pow2((n - 1 - i) as nat)) % 2,
{
    lemma_reversed_bits_bound(x as nat, n);
    lemma_reversed_bits_bit(x as nat, n, i);
}

/// The `j`-th bit written for a fragment placed at `shift` in word `w`:
/// with LSB-first storage it is bit `shift + j` of `w` (the fragment's
/// part written from its least significant end), with MSB-first storage
/// bit `shift + len_bits - 1 - j` (written from its most significant end).
pub proof fn lemma_fragment_bits_of_word(f: CompiledFragment, w: u64, j: int)
    requires
        f.shift + f.len_bits <= 64,
        0 <= j < f.len_bits,
    ensures
        fragment_bits(f, w).len() == f.len_bits,
        fragment_bits(f, w)[j] as nat == if f.bit_order == BitOrder::LsbFirst {
            (w as nat / pow2((f.shift + j) as nat)) % 2
        } else {
            (w as nat / pow2((f.shift + f.len_bits - 1 - j) as nat)) % 2
        },
{
    let s = f.shift;
    let n = f.len_bits as nat;
    vstd::arithmetic::power2::lemma2_to64();
    vstd::bits::lemma_u64_shr_is_div(w, s as u64);
    let x = w >> s;
    assert(x as nat == w as nat / pow2(s as nat));
    let e = (n - 1 - j) as nat;
    vstd::arithmetic::power2::lemma_pow2_pos(s as nat);
    vstd::arithmetic::power2::lemma_pow2_pos(e);
    if f.bit_order == BitOrder::LsbFirst {
        lemma_reversed_bits_bound(x as nat, n);
        lemma_pow2_le(n, 64);
        let rv = reversed_bits(x as nat, n);
        assert((rv as u64) as nat == rv);
        lemma_reversed_bits_bit(x as nat, n, e);
        assert((n - 1 - e) as nat == j);
        vstd::arithmetic::power2::lemma_pow2_pos(j as nat);
        vstd::arithmetic::div_mod::lemma_div_denominator(w as int, pow2(s as nat) as int, pow2(j as nat) as int);
        vstd::arithmetic::power2::lemma_pow2_adds(s as nat, j as nat);
        assert(fragment_bits(f, w)[j] as nat == ((rv / pow2(e)) % 2));
    } else {
        vstd::arithmetic::div_mod::lemma_div_denominator(w as int, pow2(s as nat) as int, pow2(e) as int);
        vstd::arithmetic::power2::lemma_pow2_adds(s as nat, e);
        assert(fragment_bits(f, w)[j] as nat == ((x as nat / pow2(e)) % 2));
    }
}

/// Where each bit written for a scalar comes from: the bits of fragment
/// `k` follow those of the fragments before it, and its `j`-th bit is the
/// bit of the word that [`lemma_fragment_bits_of_word`] names.
pub proof fn lemma_scalar_written_bits(c: CompiledScalar, w: u64, k: int, j: int)
    requires
        0 <= k < c.fragments@.len(),
        0 <= j < c.fragments@[k].len_bits,
        c.fragments@[k].shift + c.fragments@[k].len_bits <= 64,
    ensures
        scalar_bits(c.fragments@, w)[cprefix(c.fragments@, k) + j] as nat == if c.fragments@[k].bit_order
            == BitOrder::LsbFirst {
            (w as nat / pow2((c.fragments@[k].shift + j) as nat)) % 2
        } else {
            (w as nat / pow2((c.fragments@[k].shift + c.fragments@[k].len_bits - 1 - j) as nat)) % 2
        },
{
    lemma_scalar_bits_layout(c.fragments@, w, k, j);
    lemma_fragment_bits_of_word(c.fragments@[k], w, j);
}


/// Bit `q` of a 64-bit word, as a number.
proof fn lemma_word_bit(x: u64, q: nat)
    requires
        q < 64,
    ensures
        ((x >> (q as u64)) & 1) as nat == (x as nat / pow2(q)) % 2,
{
    vstd::bits::lemma_u64_shr_is_div(x, q as u64);
    let y = x >> (q as u64);
    assert(y & 1 == y % 2) by (bit_vector);
}

/// Bit `t` of the value of `n` bits read MSB-first at `pos` is the bit
/// `n - 1 - t` places after `pos`.
proof fn lemma_bits_value_bit(data: Seq<u8>, pos: int, n: nat, t: nat)
    requires
        t < n,
    ensures
        (bits_value(data, pos, n) / pow2(t)) % 2 == bit_at(data, pos + n - 1 - t),
    decreases n,
{
    let m = (n - 1) as nat;
    let b = bit_at(data, pos + n - 1);
    let h = bits_value(data, pos, m);
    lemma_bit_at_bound(data, pos + n - 1);
    vstd::arithmetic::power2::lemma2_to64();
    if t == 0 {
        assert(bits_value(data, pos, n) == 2 * h + b);
        assert(bits_value(data, pos, n) / 1 == bits_value(data, pos, n));
        vstd::arithmetic::div_mod::lemma_fundamental_div_mod_converse((2 * h + b) as int, 2, h as int, b as int);
    } else {
        let t1 = (t - 1) as nat;
        lemma_bits_value_bit(data, pos, m, t1);
        vstd::arithmetic::power2::lemma_pow2_unfold(t);
        vstd::arithmetic::power2::lemma_pow2_pos(t1);
        vstd::arithmetic::div_mod::lemma_fundamental_div_mod_converse((2 * h + b) as int, 2, h as int, b as int);
        vstd::arithmetic::div_mod::lemma_div_denominator((2 * h + b) as int, 2, pow2(t1) as int);
        assert(pos + m - 1 - t1 == pos + n - 1 - t);
    }
}

/// OR-ing a part of `len` bits in at `sh` adds the part's bits to bits
/// `sh..sh + len` and leaves the others.
proof fn lemma_or_shifted_bit(acc: u64, op: u64, sh: u64, len: u64, q: u64)
    requires
        1 <= len,
        sh + len <= 64,
        q < 64,
        len == 64 || op < (1u64 << len),
    ensures
        ((acc | (op << sh)) >> q) & 1 == if sh <= q && q < sh + len { ((acc >> q) & 1) | ((op >> (q - sh) as u64) & 1) } else { (acc >> q) & 1 },
{
    assert(((acc | (op << sh)) >> q) & 1 == if sh <= q && q < sh + len { ((acc >> q) & 1) | ((op >> (q - sh) as u64) & 1) } else { (acc >> q) & 1 })
        by (bit_vector)
        requires
            1 <= len,
            sh + len <= 64,
            q < 64,
            len == 64 || op < (1u64 << len),
    ;
}


/// Bit `q` of `x`.
spec fn word_bit(x: u64, q: int) -> nat {
    (x as nat / pow2(q as nat)) % 2
}

/// The data bit that fragment `f`, read at offset `base`, puts at its
/// `j`-th place from the least significant end: the `j`-th stored bit when
/// stored LSB-first, the `j`-th from the end when stored MSB-first.
spec fn stored_bit(f: CompiledFragment, data: Seq<u8>, base: int, j: int) -> nat {
    if f.bit_order == BitOrder::LsbFirst {
        bit_at(data, f.offset_bits + base + j)
    } else {
        bit_at(data, f.offset_bits + base + f.len_bits - 1 - j)
    }
}

/// The fragments have 1 to 64 bits, lie within a 64-bit word at their
/// shifts, and no two of them share a bit of the word.
pub open spec fn fragments_disjoint(frags: Seq<CompiledFragment>) -> bool {
    &&& forall|k: int| 0 <= k < frags.len() ==> 1 <= #[trigger] frags[k].len_bits && frags[k].shift + frags[k].len_bits <= 64
    &&& forall|k1: int, k2: int| 0 <= k1 < k2 < frags.len() ==>
        #[trigger] frags[k1].shift + frags[k1].len_bits <= #[trigger] frags[k2].shift
        || frags[k2].shift + frags[k2].len_bits <= frags[k1].shift
}

proof fn lemma_part_bit(f: CompiledFragment, data: Seq<u8>, base: int, part: u64, j: int)
    requires
        1 <= f.len_bits <= 64,
        read_bits_spec(data, f.offset_bits + base, f.len_bits as int) == Ok::<u64, ReadError>(part),
        0 <= j < f.len_bits,
    ensures
        word_bit(oriented_part(part, f), j) == stored_bit(f, data, base, j),
        f.len_bits == 64 || oriented_part(part, f) < (1u64 << (f.len_bits as u64)),
{
    let n = f.len_bits as nat;
    let pos = f.offset_bits + base;
    lemma_bits_value_bound(data, pos, n);
    lemma_pow2_le(n, 64);
    vstd::arithmetic::power2::lemma2_to64();
    assert(part as nat == bits_value(data, pos, n));
    let op = oriented_part(part, f);
    if n < 64 {
        lemma_pow2_le(n, 63);
        vstd::arithmetic::power2::lemma2_to64_rest();
        vstd::arithmetic::power2::lemma_pow2_pos(n);
        vstd::bits::lemma_u64_shl_is_mul(1, n as u64);
    }
    if f.bit_order == BitOrder::LsbFirst {
        lemma_reversed_bits_bound(part as nat, n);
        lemma_reversed_bits_bit(part as nat, n, j as nat);
        lemma_bits_value_bit(data, pos, n, (n - 1 - j) as nat);
        assert(pos + n - 1 - (n - 1 - j) == pos + j);
    } else {
        lemma_bits_value_bit(data, pos, n, j as nat);
    }
}

#[verifier::spinoff_prover]
#[verifier::rlimit(40)]
proof fn lemma_raw_prefix_bits(frags: Seq<CompiledFragment>, data: Seq<u8>, base: int, i: int)
    requires
        fragments_disjoint(frags),
        0 <= i <= frags.len(),
    ensures
        assemble_raw(frags.take(i), data, base) matches Ok(acc) ==> {
            &&& forall|k: int, j: int| 0 <= k < i && 0 <= j < frags[k].len_bits ==>
                #[trigger] word_bit(acc, frags[k].shift + j) == stored_bit(frags[k], data, base, j)
            &&& forall|q: int| 0 <= q < 64 && (forall|k: int| #![trigger frags[k]] 0 <= k < i ==>
                !(frags[k].shift <= q < frags[k].shift + frags[k].len_bits)) ==> #[trigger] word_bit(acc, q) == 0
        },
    decreases i,
{
    if i == 0 {
        assert(frags.take(0) =~= Seq::<CompiledFragment>::empty());
        assert forall|q: int| 0 <= q < 64 implies #[trigger] word_bit(0u64, q) == 0 by {
            vstd::arithmetic::power2::lemma_pow2_pos(q as nat);
            vstd::arithmetic::div_mod::lemma_small_div_converse(0, pow2(q as nat) as int);
        }
    } else {
        lemma_raw_prefix_bits(frags, data, base, i - 1);
        let t = frags.take(i);
        assert(t.drop_last() == frags.take(i - 1));
        let f = frags[i - 1];
        assert(t.last() == f);
        if let Ok(acc) = assemble_raw(t, data, base) {
            let prev = assemble_raw(frags.take(i - 1), data, base)->Ok_0;
            let part = read_bits_spec(data, f.offset_bits + base, f.len_bits as int)->Ok_0;
            let op = oriented_part(part, f);
            let sh = f.shift as u64;
            let len = f.len_bits as u64;
            assert(acc == prev | (op << sh));
            lemma_part_bit(f, data, base, part, 0);
            assert forall|q: int| 0 <= q < 64 implies #[trigger] word_bit(acc, q) == if f.shift <= q < f.shift + f.len_bits {
                word_bit(prev, q) + word_bit(op, q - f.shift) - word_bit(prev, q) * word_bit(op, q - f.shift)
            } else {
                word_bit(prev, q) as int
            } by {
                lemma_or_shifted_bit(prev, op, sh, len, q as u64);
                lemma_word_bit(acc, q as nat);
                lemma_word_bit(prev, q as nat);
                if f.shift <= q < f.shift + f.len_bits {
                    lemma_word_bit(op, (q - f.shift) as nat);
                    let a = (prev >> (q as u64)) & 1;
                    let b = (op >> ((q - f.shift) as u64)) & 1;
                    assert(a | b == a + b - a * b) by (bit_vector)
                        requires
                            a <= 1,
                            b <= 1,
                    ;
                }
            }
            assert forall|k: int, j: int| 0 <= k < i && 0 <= j < frags[k].len_bits implies
                #[trigger] word_bit(acc, frags[k].shift + j) == stored_bit(frags[k], data, base, j)
            by {
                let q = frags[k].shift + j;
                assert(word_bit(acc, q) == if f.shift <= q < f.shift + f.len_bits {
                    word_bit(prev, q) + word_bit(op, q - f.shift) - word_bit(prev, q) * word_bit(op, q - f.shift)
                } else {
                    word_bit(prev, q) as int
                });
                if k == i - 1 {
                    assert forall|k2: int| #![trigger frags[k2]] 0 <= k2 < i - 1 implies
                        !(frags[k2].shift <= q < frags[k2].shift + frags[k2].len_bits)
                    by {
                        assert(frags[k2].shift + frags[k2].len_bits <= frags[i - 1].shift
                            || frags[i - 1].shift + frags[i - 1].len_bits <= frags[k2].shift);
                    }
                    assert(word_bit(prev, q) == 0);
                    lemma_part_bit(f, data, base, part, j);
                } else {
                    assert(frags[k].shift + frags[k].len_bits <= frags[i - 1].shift
                        || frags[i - 1].shift + frags[i - 1].len_bits <= frags[k].shift);
                    assert(word_bit(acc, q) == word_bit(prev, q));
                }
            }
            assert forall|q: int| 0 <= q < 64 && (forall|k: int| #![trigger frags[k]] 0 <= k < i ==>
                !(frags[k].shift <= q < frags[k].shift + frags[k].len_bits)) implies #[trigger] word_bit(acc, q) == 0
            by {
                assert(!(frags[i - 1].shift <= q < frags[i - 1].shift + frags[i - 1].len_bits));
                assert(forall|k: int| #![trigger frags[k]] 0 <= k < i - 1 ==> !(frags[k].shift <= q < frags[k].shift + frags[k].len_bits));
            }
        }
    }
}

/// Parsing an unsigned scalar whose fragments occupy separate bits of the
/// value: bit `shift + j` of the value is the `j`-th bit stored for the
/// fragment when it is stored LSB-first, the `j`-th bit from the end of
/// its bits when stored MSB-first; every bit no fragment occupies is zero.
pub proof fn lemma_assembled_bits(c: CompiledScalar, data: Seq<u8>, base: int)
    requires
        fragments_disjoint(c.fragments@),
        !c.signed,
    ensures
        scalar_result(c, data, base) matches Ok(v) ==> v matches ValueModel::U64(x) && {
            &&& forall|k: int, j: int| 0 <= k < c.fragments@.len() && 0 <= j < c.fragments@[k].len_bits ==>
                #[trigger] ((x as nat / pow2((c.fragments@[k].shift + j) as nat)) % 2) == if c.fragments@[k].bit_order
                    == BitOrder::LsbFirst {
                    bit_at(data, c.fragments@[k].offset_bits + base + j)
                } else {
                    bit_at(data, c.fragments@[k].offset_bits + base + c.fragments@[k].len_bits - 1 - j)
                }
            &&& forall|q: nat| q < 64 && (forall|k: int| #![trigger c.fragments@[k]] 0 <= k < c.fragments@.len() ==>
                !(c.fragments@[k].shift <= q < c.fragments@[k].shift + c.fragments@[k].len_bits))
                ==> #[trigger] ((x as nat / pow2(q)) % 2) == 0
        },
{
    let frags = c.fragments@;
    let n = frags.len() as int;
    lemma_raw_prefix_bits(frags, data, base, n);
    assert(frags.take(n) == frags);
    if let Ok(v) = scalar_result(c, data, base) {
        let x = assemble_raw(frags, data, base)->Ok_0;
        assert forall|k: int, j: int| 0 <= k < n && 0 <= j < frags[k].len_bits implies
            #[trigger] ((x as nat / pow2((frags[k].shift + j) as nat)) % 2) == stored_bit(frags[k], data, base, j)
        by {
            assert(word_bit(x, frags[k].shift + j) == stored_bit(frags[k], data, base, j));
        }
        assert forall|q: nat| q < 64 && (forall|k: int| #![trigger frags[k]] 0 <= k < n ==>
            !(frags[k].shift <= q < frags[k].shift + frags[k].len_bits)) implies #[trigger] ((x as nat / pow2(q)) % 2) == 0
        by {
            assert(word_bit(x, q as int) == 0);
        }
    }
}


/// Where compilation places the fragments of a valid scalar field in the
/// assembled value: concatenated MSB first, the first fragment holds the
/// highest bits and each next fragment the bits just below; concatenated
/// LSB first, the first fragment holds the lowest bits and each next
/// fragment the bits just above. Either way the fragments fill the value's
/// `total_bits` bits without sharing any.
pub proof fn lemma_compiled_shifts(c: CompiledScalar, f: Field)
    requires
        scalar_compiled_from(c, f),
        scalar_compile_error(f) is None,
    ensures
        fragments_disjoint(c.fragments@),
        forall|k: int| 0 <= k < c.fragments@.len() ==> #[trigger] c.fragments@[k].shift + c.fragments@[k].len_bits
            <= c.total_bits,
        f.assemble == Assemble::Concat(BitOrder::MsbFirst) ==> {
            &&& c.fragments@.len() > 0 ==> c.fragments@[0].shift + c.fragments@[0].len_bits == c.total_bits
            &&& c.fragments@.len() > 0 ==> c.fragments@.last().shift == 0
            &&& forall|k: int| 0 <= k < c.fragments@.len() - 1 ==> #[trigger] c.fragments@[k].shift
                == c.fragments@[k + 1].shift + c.fragments@[k + 1].len_bits
        },
        f.assemble == Assemble::Concat(BitOrder::LsbFirst) ==> {
            &&& c.fragments@.len() > 0 ==> c.fragments@[0].shift == 0
            &&& c.fragments@.len() > 0 ==> c.fragments@.last().shift + c.fragments@.last().len_bits == c.total_bits
            &&& forall|k: int| 0 <= k < c.fragments@.len() - 1 ==> #[trigger] c.fragments@[k + 1].shift
                == c.fragments@[k].shift + c.fragments@[k].len_bits
        },
{
    let frags = c.fragments@;
    let n = frags.len() as int;
    lemma_compiled_scalar_tiles(c, f, 0);
    let t = c.total_bits as int;
    assert forall|k: int| 0 <= k < n implies #[trigger] frags[k].shift + frags[k].len_bits <= t
        && 1 <= frags[k].len_bits && frags[k].shift + frags[k].len_bits <= 64
    by {
        lemma_cprefix_mono(frags, k + 1, n);
        lemma_cprefix_mono(frags, 0, k);
    }
    assert forall|k1: int, k2: int| 0 <= k1 < k2 < n implies
        #[trigger] frags[k1].shift + frags[k1].len_bits <= #[trigger] frags[k2].shift
        || frags[k2].shift + frags[k2].len_bits <= frags[k1].shift
    by {
        lemma_cprefix_mono(frags, k1 + 1, k2);
    }
    if n > 0 {
        lemma_cprefix_mono(frags, 0, n - 1);
    }
}


proof fn lemma_trim_start_cut(s: Seq<char>) -> (a: int)
    ensures
        0 <= a <= s.len(),
        trim_start(s) == s.subrange(a, s.len() as int),
        forall|i: int| 0 <= i < a ==> is_white_space(#[trigger] s[i]),
        a < s.len() ==> !is_white_space(s[a]),
    decreases s.len(),
{
    if s.len() > 0 && is_white_space(s[0]) {
        let a1 = lemma_trim_start_cut(s.drop_first());
        assert(s.drop_first().subrange(a1, s.len() - 1) =~= s.subrange(a1 + 1, s.len() as int));
        assert forall|i: int| 0 <= i < a1 + 1 implies is_white_space(#[trigger] s[i]) by {
            if i > 0 {
                assert(s[i] == s.drop_first()[i - 1]);
            }
        }
        if a1 + 1 < s.len() {
            assert(s[a1 + 1] == s.drop_first()[a1]);
        }
        a1 + 1
    } else {
        assert(s.subrange(0, s.len() as int) =~= s);
        0
    }
}

proof fn lemma_trim_end_cut(s: Seq<char>) -> (b: int)
    ensures
        0 <= b <= s.len(),
        trim_end(s) == s.subrange(0, b),
        forall|i: int| b <= i < s.len() ==> is_white_space(#[trigger] s[i]),
        b > 0 ==> !is_white_space(s[b - 1]),
    decreases s.len(),
{
    if s.len() > 0 && is_white_space(s.last()) {
        let b1 = lemma_trim_end_cut(s.drop_last());
        assert(s.drop_last().subrange(0, b1) =~= s.subrange(0, b1));
        assert forall|i: int| b1 <= i < s.len() implies is_white_space(#[trigger] s[i]) by {
            if i < s.len() - 1 {
                assert(s[i] == s.drop_last()[i]);
            }
        }
        if b1 > 0 {
            assert(s[b1 - 1] == s.drop_last()[b1 - 1]);
        }
        b1
    } else {
        assert(s.subrange(0, s.len() as int) =~= s);
        s.len() as int
    }
}

/// Trimming keeps a contiguous part of the string and removes only white
/// space around it: everything before and after the kept part is white
/// space, and the kept part, when not empty, starts and ends with a
/// character that is not.
pub proof fn lemma_trimmed_cut(s: Seq<char>)
    ensures
        exists|a: int, b: int| {
            &&& 0 <= a <= b <= s.len()
            &&& trimmed(s) == s.subrange(a, b)
            &&& forall|i: int| 0 <= i < a ==> is_white_space(#[trigger] s[i])
            &&& forall|i: int| b <= i < s.len() ==> is_white_space(#[trigger] s[i])
            &&& a < b ==> !is_white_space(s[a]) && !is_white_space(s[b - 1])
        },
{
    let a = lemma_trim_start_cut(s);
    let rest = s.subrange(a, s.len() as int);
    let b1 = lemma_trim_end_cut(rest);
    let b = a + b1;
    assert(rest.subrange(0, b1) =~= s.subrange(a, b));
    assert forall|i: int| b <= i < s.len() implies is_white_space(#[trigger] s[i]) by {
        assert(s[i] == rest[i - a]);
    }
    if a < b {
        assert(s[a] == rest[0]);
        assert(s[b - 1] == rest[b1 - 1]);
    }
    assert(trimmed(s) == s.subrange(a, b));
}


proof fn lemma_fragments_extent_ge(frags: Seq<Fragment>, k: int)
    requires
        0 <= k < frags.len(),
    ensures
        frags[k].offset_bits + frags[k].len_bits <= fragments_extent(frags),
    decreases frags.len(),
{
    if k < frags.len() - 1 {
        lemma_fragments_extent_ge(frags.drop_last(), k);
        assert(frags.drop_last()[k] == frags[k]);
    }
}

proof fn lemma_fields_extent_ge(fields: Seq<Field>, i: int)
    requires
        0 <= i < fields.len(),
    ensures
        field_extent(fields[i]) <= fields_extent(fields),
    decreases fields.len(),
{
    if i < fields.len() - 1 {
        lemma_fields_extent_ge(fields.drop_last(), i);
        assert(fields.drop_last()[i] == fields[i]);
    }
}

proof fn lemma_fragment_le_total(frags: Seq<Fragment>, k: int)
    requires
        0 <= k < frags.len(),
    ensures
        frags[k].len_bits <= len_sum(frags),
{
    lemma_len_sum_take_step(frags, k);
    lemma_len_sum_take_le(frags, k + 1);
}

proof fn lemma_assemble_raw_ok(frags: Seq<CompiledFragment>, data: Seq<u8>, base: int)
    requires
        0 <= base,
        forall|k: int| 0 <= k < frags.len() ==> #[trigger] frags[k].len_bits <= 64
            && frags[k].offset_bits + base + frags[k].len_bits <= data.len() * 8,
    ensures
        assemble_raw(frags, data, base) is Ok,
    decreases frags.len(),
{
    if frags.len() > 0 {
        let d = frags.drop_last();
        assert forall|k: int| 0 <= k < d.len() implies #[trigger] d[k].len_bits <= 64
            && d[k].offset_bits + base + d[k].len_bits <= data.len() * 8
        by {
            assert(d[k] == frags[k]);
        }
        lemma_assemble_raw_ok(d, data, base);
        assert(frags.last() == frags[frags.len() - 1]);
    }
}

proof fn lemma_array_elements_ok(a: CompiledArray, data: Seq<u8>, m: nat)
    requires
        forall|i: int| 0 <= i < m ==> (#[trigger] scalar_result(a.element, data, a.offset_bits + i * a.stride_bits)) is Ok,
    ensures
        array_elements(a, data, m) is Ok,
    decreases m,
{
    if m > 0 {
        lemma_array_elements_ok(a, data, (m - 1) as nat);
        assert(scalar_result(a.element, data, a.offset_bits + (m - 1) * a.stride_bits) is Ok);
        assert(element_base(a, m - 1) == a.offset_bits + (m - 1) * a.stride_bits);
    }
}

proof fn lemma_parsed_fields_ok(fields: Seq<CompiledField>, data: Seq<u8>)
    requires
        forall|i: int| 0 <= i < fields.len() ==> (#[trigger] field_result(fields[i], data)) is Ok,
    ensures
        parsed_fields(fields, data) is Ok,
    decreases fields.len(),
{
    if fields.len() > 0 {
        let d = fields.drop_last();
        assert forall|i: int| 0 <= i < d.len() implies (#[trigger] field_result(d[i], data)) is Ok by {
            assert(d[i] == fields[i]);
        }
        lemma_parsed_fields_ok(d, data);
        assert(field_result(fields[fields.len() - 1], data) is Ok);
    }
}

/// Parsing data at least as long as a compiled schema succeeds: no read
/// goes past the schema's total bit length, as long as the fragments of
/// each array element lie within the element (`offset_bits + len_bits`
/// at most the element's width).
pub proof fn lemma_parse_long_enough(schema: Schema, fields: Seq<Field>, data: Seq<u8>)
    requires
        schema.compiled_from(fields),
        data.len() * 8 >= schema.spec_total_bits(),
        forall|i: int, k: int| 0 <= i < fields.len() && (fields[i].kind is Array) && 0 <= k < fields[i].fragments@.len()
            ==> #[trigger] fields[i].fragments@[k].offset_bits + fields[i].fragments@[k].len_bits
                <= len_sum(fields[i].fragments@),
    ensures
        parsed_fields(schema.spec_fields(), data) is Ok,
{
    let cf = schema.spec_fields();
    assert forall|i: int| 0 <= i < cf.len() implies (#[trigger] field_result(cf[i], data)) is Ok by {
        let f = fields[i];
        crate::roundtrip::lemma_no_compile_error_each(fields, i);
        assert(field_compiled_from(cf[i], f));
        lemma_fields_extent_ge(fields, i);
        let frags = f.fragments@;
        match (cf[i].kind, f.kind) {
            (CompiledFieldKind::Scalar(sc), FieldKind::Scalar) => {
                assert forall|k: int| 0 <= k < sc.fragments@.len() implies #[trigger] sc.fragments@[k].len_bits <= 64
                    && sc.fragments@[k].offset_bits + 0 + sc.fragments@[k].len_bits <= data.len() * 8
                by {
                    lemma_fragment_le_total(frags, k);
                    lemma_fragments_extent_ge(frags, k);
                }
                lemma_assemble_raw_ok(sc.fragments@, data, 0);
            },
            (CompiledFieldKind::Array(a), FieldKind::Array(spec)) => {
                let el = a.element;
                let l = len_sum(frags);
                let cnt = spec.count as int;
                assert forall|e: int| 0 <= e < array_count_of(a) implies
                    (#[trigger] scalar_result(el, data, a.offset_bits + e * a.stride_bits)) is Ok
                by {
                    let base = a.offset_bits + e * a.stride_bits;
                    assert(e * a.stride_bits <= (cnt - 1) * a.stride_bits) by (nonlinear_arith)
                        requires
                            0 <= e <= cnt - 1,
                    ;
                    assert(0 <= e * a.stride_bits) by (nonlinear_arith)
                        requires
                            0 <= e,
                    ;
                    assert forall|k: int| 0 <= k < el.fragments@.len() implies #[trigger] el.fragments@[k].len_bits <= 64
                        && el.fragments@[k].offset_bits + base + el.fragments@[k].len_bits <= data.len() * 8
                    by {
                        lemma_fragment_le_total(frags, k);
                        assert(frags[k].offset_bits + frags[k].len_bits <= l);
                    }
                    lemma_assemble_raw_ok(el.fragments@, data, base);
                }
                lemma_array_elements_ok(a, data, spec.count as nat);
            },
            _ => {},
        }
    }
    lemma_parsed_fields_ok(cf, data);
}

/// Number of elements of an array.
spec fn array_count_of(a: CompiledArray) -> int {
    match a.count {
        ArrayCount::Fixed(n) => n as int,
    }
}


/// The two's-complement word of a value in the signed range of `t` bits
/// has the same low `t` bits as the unsigned number `r` it was read from.
proof fn lemma_signed_low_bits(r: nat, t: nat)
    requires
        1 <= t <= 64,
        r < pow2(t),
    ensures
        -pow2((t - 1) as nat) <= crate::bits::signed_of_width(r, t) < pow2((t - 1) as nat),
        ((crate::bits::signed_of_width(r, t) as i64) as u64) as nat % pow2(t) == r,
{
    let tm = (t - 1) as nat;
    vstd::arithmetic::power2::lemma2_to64();
    vstd::arithmetic::power2::lemma2_to64_rest();
    vstd::arithmetic::power2::lemma_pow2_adds(tm, 1);
    assert(tm + 1 == t);
    lemma_pow2_le(t, 64);
    lemma_pow2_le(tm, 63);
    vstd::arithmetic::power2::lemma_pow2_pos(t);
    let y = crate::bits::signed_of_width(r, t);
    if r >= pow2(tm) {
        assert(y == r - pow2(t));
        let yi = y as i64;
        assert(yi as int == y);
        assert((yi as u64) as int == yi as int + 0x1_0000_0000_0000_0000int) by (bit_vector)
            requires
                yi < 0,
        ;
        let k = (64 - t) as nat;
        vstd::arithmetic::power2::lemma_pow2_adds(t, k);
        assert(t + k == 64);
        vstd::arithmetic::power2::lemma_pow2_pos(k);
        assert((yi as u64) as int == pow2(t) * (pow2(k) - 1) + r) by (nonlinear_arith)
            requires
                (yi as u64) as int == (r - pow2(t)) + 0x1_0000_0000_0000_0000int,
                pow2(t) * pow2(k) == 0x1_0000_0000_0000_0000int,
        ;
        vstd::arithmetic::div_mod::lemma_fundamental_div_mod_converse(
            (yi as u64) as int, pow2(t) as int, pow2(k) - 1, r as int);
    } else {
        assert(y == r);
        vstd::arithmetic::div_mod::lemma_small_mod(r, pow2(t));
    }
}

/// Parsing a signed scalar of `total_bits` bits whose fragments occupy
/// separate bits within that width: the value lies in the signed range of
/// `total_bits` bits, and bit `shift + j` of its two's-complement word is
/// the data bit the fragment stores there, as for an unsigned scalar.
pub proof fn lemma_assembled_signed_bits(c: CompiledScalar, data: Seq<u8>, base: int)
    requires
        fragments_disjoint(c.fragments@),
        c.signed,
        1 <= c.total_bits <= 64,
        forall|k: int| 0 <= k < c.fragments@.len() ==> #[trigger] c.fragments@[k].shift + c.fragments@[k].len_bits
            <= c.total_bits,
    ensures
        scalar_result(c, data, base) matches Ok(v) ==> v matches ValueModel::I64(y) && {
            &&& -pow2((c.total_bits - 1) as nat) <= y < pow2((c.total_bits - 1) as nat)
            &&& forall|k: int, j: int| 0 <= k < c.fragments@.len() && 0 <= j < c.fragments@[k].len_bits ==>
                #[trigger] (((y as u64) as nat / pow2((c.fragments@[k].shift + j) as nat)) % 2) == if c.fragments@[k].bit_order
                    == BitOrder::LsbFirst {
                    bit_at(data, c.fragments@[k].offset_bits + base + j)
                } else {
                    bit_at(data, c.fragments@[k].offset_bits + base + c.fragments@[k].len_bits - 1 - j)
                }
        },
{
    let frags = c.fragments@;
    let n = frags.len() as int;
    let t = c.total_bits as nat;
    lemma_raw_prefix_bits(frags, data, base, n);
    assert(frags.take(n) == frags);
    if let Ok(v) = scalar_result(c, data, base) {
        let x = assemble_raw(frags, data, base)->Ok_0;
        vstd::arithmetic::power2::lemma_pow2_pos(t);
        let r = x as nat % pow2(t);
        vstd::arithmetic::div_mod::lemma_mod_bound(x as int, pow2(t) as int);
        lemma_signed_low_bits(r, t);
        let y = crate::bits::signed_of_width(r, t) as i64;
        assert(v == ValueModel::I64(y));
        assert forall|k: int, j: int| 0 <= k < n && 0 <= j < frags[k].len_bits implies
            #[trigger] (((y as u64) as nat / pow2((frags[k].shift + j) as nat)) % 2) == stored_bit(frags[k], data, base, j)
        by {
            let q = (frags[k].shift + j) as nat;
            assert(word_bit(x, q as int) == stored_bit(frags[k], data, base, j));
            lemma_bit_of_low_part((y as u64) as nat, q, t);
            lemma_bit_of_low_part(x as nat, q, t);
        }
    }
}

} // verus!
