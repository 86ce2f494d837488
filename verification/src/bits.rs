//! Low-level bit read and manipulation utilities for byte slices.
//!
//! Bits are addressed in MSB-first order: bit 0 is the high bit of the first byte.

use vstd::prelude::*;
use vstd::arithmetic::power2::{pow2, lemma_pow2_pos, lemma2_to64, lemma2_to64_rest, lemma_pow2_adds, lemma_pow2_strictly_increases};
use vstd::arithmetic::div_mod::{lemma_div_denominator, lemma_fundamental_div_mod_converse, lemma_mod_mod, lemma_fundamental_div_mod};
use vstd::arithmetic::mul::{lemma_mul_is_associative, lemma_mul_strictly_positive};
use vstd::bits::{lemma_u64_shr_is_div, lemma_u128_shr_is_div, lemma_u64_shl_is_mul, lemma_u64_low_bits_mask_is_mod, low_bits_mask};
use vstd::bits::lemma_u8_shr_is_div;
use crate::bitmath::{
    bit_at, bits_value, bytes_value, lemma_bit_at_bound, lemma_bits_value_bound,
    lemma_bits_value_concat, lemma_bytes_as_bits, lemma_pow2_le, value_bit,
    lemma_bits_value_of_written, reversed_bits,
};
use crate::assembly::BitOrder;
use crate::errors::{ReadError, WriteError};

verus! {

/// What reading `n` bits at `pos` from `data` yields: the checks on the
/// width and on the bounds, then the MSB-first value of those bits.
pub open spec fn read_bits_spec(data: Seq<u8>, pos: int, n: int) -> Result<u64, ReadError> {
    if n > 64 {
        Err(ReadError::TooManyBitsRead)
    } else if pos + n > data.len() * 8 {
        Err(ReadError::OutOfBounds)
    } else {
        Ok(bits_value(data, pos, n as nat) as u64)
    }
}

/// Shifting a byte right and masking with 1 reads one of its bits.
pub proof fn lemma_shift_bit_u8(b: u8, sh: u8)
    requires
        sh < 8,
    ensures
        (b >> sh) & 1 == (b as nat / pow2(sh as nat)) % 2,
{
    lemma_u8_shr_is_div(b, sh);
    let x = b >> sh;
    assert(x & 1 == x % 2) by (bit_vector);
}

/// Reads a single bit at `bit_pos` (0 = MSB of first byte). Returns 0 or 1.
pub fn read_bit_at(data: &[u8], bit_pos: usize) -> (r: Result<u8, ReadError>)
    requires
        data@.len() * 8 <= usize::MAX,
    ensures
        bit_pos >= data@.len() * 8 ==> r == Err::<u8, ReadError>(ReadError::OutOfBounds),
        bit_pos < data@.len() * 8 ==> r == Ok::<u8, ReadError>(bit_at(data@, bit_pos as int) as u8),
{
    if bit_pos >= data.len() * 8 {
        return Err(ReadError::OutOfBounds);
    }

    let byte_index = bit_pos / 8;
    let bit_index = bit_pos % 8;
    let shift: u8 = (7 - bit_index) as u8;
    proof {
        lemma_shift_bit_u8(data@[byte_index as int], shift);
    }

    Ok((data[byte_index] >> shift) & 1)
}

/// Reference implementation of `read_bits_at` using a per-bit loop.
///
/// Slower than `read_bits_at` but kept as the ground-truth oracle: both
/// return [`read_bits_spec`].
pub fn read_bits_at_slow(data: &[u8], bit_pos: usize, n: usize) -> (r: Result<u64, ReadError>)
    requires
        data@.len() * 8 <= usize::MAX,
    ensures
        r == read_bits_spec(data@, bit_pos as int, n as int),
{
    if n > 64 {
        return Err(ReadError::TooManyBitsRead);
    }

    let in_bounds = match bit_pos.checked_add(n) {
        Some(end) => end <= data.len() * 8,
        None => false,
    };
    if !in_bounds {
        return Err(ReadError::OutOfBounds);
    }

    let mut value = 0u64;
    let mut pos = bit_pos;
    let mut i: usize = 0;

    while i < n
        invariant
            i <= n <= 64,
            pos == bit_pos + i,
            bit_pos + n <= data@.len() * 8,
            data@.len() * 8 <= usize::MAX,
            value == bits_value(data@, bit_pos as int, i as nat),
        decreases n - i,
    {
        proof {
            lemma_bits_value_bound(data@, bit_pos as int, i as nat);
            lemma_pow2_le(i as nat, 63);
            lemma2_to64_rest();
            lemma_bit_at_bound(data@, pos as int);
        }
        let bit = match read_bit_at(data, pos) {
            Ok(b) => b as u64,
            Err(e) => return Err(e),
        };
        assert((value << 1) | bit == 2 * value + bit) by (bit_vector)
            requires
                value < 0x8000_0000_0000_0000u64,
                bit <= 1,
        ;
        value = (value << 1) | bit;
        pos += 1;
        i += 1;
    }

    Ok(value)
}

/// The window arithmetic of the byte-coalesced read: dropping the `t`
/// trailing bits and masking to `n` bits leaves exactly the `n` bits read.
proof fn lemma_window_extract(data: Seq<u8>, bs: int, be: int, pos: int, n: nat, t: nat, acc: u128)
    requires
        0 <= bs <= be <= data.len(),
        8 * bs <= pos,
        pos - 8 * bs + n + t == 8 * (be - bs),
        1 <= n <= 64,
        t < 8,
        acc == bytes_value(data, bs, be),
    ensures
        (((acc >> (t as u128)) as u64) as nat) % pow2(n) == bits_value(data, pos, n),
{
    let off = (pos - 8 * bs) as nat;
    lemma_bytes_as_bits(data, bs, be);
    lemma_bits_value_concat(data, 8 * bs, off, n + t);
    assert(8 * bs + off == pos);
    lemma_bits_value_concat(data, pos, n, t);
    let hi = bits_value(data, 8 * bs, off);
    let v = bits_value(data, pos, n);
    let lo = bits_value(data, pos + n, t);
    lemma_bits_value_bound(data, pos + n, t);
    lemma_bits_value_bound(data, pos, n);
    lemma_pow2_pos(n);
    lemma_pow2_pos(t);
    lemma_pow2_adds(n, t);
    assert(off + (n + t) == (8 * (be - bs)) as nat);
    // acc == (hi * 2^n + v) * 2^t + lo
    let y = hi * pow2(n) + v;
    assert(hi * pow2(n + t) == (hi * pow2(n)) * pow2(t)) by {
        lemma_mul_is_associative(hi as int, pow2(n) as int, pow2(t) as int);
    }
    assert(acc == y * pow2(t) + lo) by (nonlinear_arith)
        requires
            acc == hi * pow2(n + t) + (v * pow2(t) + lo),
            hi * pow2(n + t) == (hi * pow2(n)) * pow2(t),
            y == hi * pow2(n) + v,
    ;
    lemma_u128_shr_is_div(acc, t as u128);
    assert(acc as nat / pow2(t) == y) by {
        lemma_fundamental_div_mod_converse(acc as int, pow2(t) as int, y as int, lo as int);
    }
    let z = acc >> (t as u128);
    assert(z == y);
    // the cast keeps the low 64 bits
    assert(((z as u64) as u128) == z % 0x1_0000_0000_0000_0000u128) by (bit_vector);
    lemma2_to64();
    let k = (64 - n) as nat;
    lemma_pow2_adds(n, k);
    lemma_pow2_pos(k);
    assert(n + k == 64);
    assert((z as nat % pow2(64)) % pow2(n) == z as nat % pow2(n)) by {
        lemma_mod_mod(z as int, pow2(n) as int, pow2(k) as int);
    }
    assert(z as nat % pow2(n) == v) by {
        lemma_fundamental_div_mod_converse(z as int, pow2(n) as int, hi as int, v as int);
    }
}

/// Reads `n` bits starting at `bit_pos` as an unsigned value (max 64 bits).
///
/// Uses byte-coalesced accumulation: at most 9 byte reads for `n <= 64`.
pub fn read_bits_at(data: &[u8], bit_pos: usize, n: usize) -> (r: Result<u64, ReadError>)
    requires
        data@.len() * 8 <= usize::MAX,
    ensures
        r == read_bits_spec(data@, bit_pos as int, n as int),
{
    if n > 64 {
        return Err(ReadError::TooManyBitsRead);
    }
    let end = match bit_pos.checked_add(n) {
        Some(end) => end,
        None => return Err(ReadError::OutOfBounds),
    };
    if end > data.len() * 8 {
        return Err(ReadError::OutOfBounds);
    }
    if n == 0 {
        return Ok(0);
    }

    let byte_start = bit_pos / 8;
    let byte_end = end / 8 + if end % 8 == 0 { 0 } else { 1 };
    assert(byte_end == (end + 7) / 8);
    let bit_offset = bit_pos % 8;
    assert(byte_end <= data@.len());
    assert(byte_end - byte_start <= 9);
    assert(8 * byte_end >= end);

    let mut acc: u128 = 0;
    let mut i = byte_start;
    while i < byte_end
        invariant
            byte_start <= i <= byte_end <= data@.len(),
            byte_end - byte_start <= 9,
            acc == bytes_value(data@, byte_start as int, i as int),
        decreases byte_end - i,
    {
        proof {
            lemma_bytes_as_bits(data@, byte_start as int, i as int);
            lemma_bits_value_bound(data@, 8 * byte_start as int, (8 * (i - byte_start)) as nat);
            lemma_pow2_le((8 * (i - byte_start)) as nat, 64);
            lemma2_to64();
        }
        let d = data[i] as u128;
        assert((acc << 8) | d == 256 * acc + d) by (bit_vector)
            requires
                acc <= 0x1_0000_0000_0000_0000u128,
                d < 256,
        ;
        acc = (acc << 8) | d;
        i += 1;
    }

    let trailing = (byte_end - byte_start) * 8 - (bit_offset + n);
    proof {
        if n < 64 {
            lemma_pow2_le(n as nat, 63);
            lemma2_to64_rest();
            lemma_pow2_pos(n as nat);
            lemma_u64_shl_is_mul(1, n as u64);
        }
    }
    let mask = if n == 64 { u64::MAX } else { (1u64 << n) - 1 };
    let res = ((acc >> trailing) as u64) & mask;
    proof {
        lemma_window_extract(data@, byte_start as int, byte_end as int, bit_pos as int, n as nat,
            trailing as nat, acc);
        let z = (acc >> trailing) as u64;
        lemma2_to64();
        if n == 64 {
            assert(z & 0xffff_ffff_ffff_ffffu64 == z) by (bit_vector);
            vstd::arithmetic::div_mod::lemma_small_mod(z as nat, pow2(64));
            assert(z as nat % pow2(64) == z);
        } else {
            lemma_u64_low_bits_mask_is_mod(z, n as nat);
            assert(mask == low_bits_mask(n as nat));
        }
    }
    Ok(res)
}

/// Setting or clearing bit `k` of a byte changes that bit only.
proof fn lemma_byte_bit_update(b: u8, k: u8, j: u8)
    requires
        k < 8,
        j < 8,
    ensures
        ((b | (1u8 << k)) >> j) & 1 == (if j == k { 1u8 } else { (b >> j) & 1 }),
        ((b & !(1u8 << k)) >> j) & 1 == (if j == k { 0u8 } else { (b >> j) & 1 }),
{
    assert(((b | (1u8 << k)) >> j) & 1 == (if j == k { 1u8 } else { (b >> j) & 1 })) by (bit_vector)
        requires
            k < 8,
            j < 8,
    ;
    assert(((b & !(1u8 << k)) >> j) & 1 == (if j == k { 0u8 } else { (b >> j) & 1 })) by (bit_vector)
        requires
            k < 8,
            j < 8,
    ;
}

/// Bit `p` of `data` after the first `i` of the `n` bits of `value` were
/// written at `bit_pos`.
pub open spec fn bit_after_write(old_data: Seq<u8>, bit_pos: int, n: nat, value: u64, i: int, p: int) -> nat {
    if bit_pos <= p < bit_pos + i {
        value_bit(value as nat, n, p - bit_pos)
    } else {
        bit_at(old_data, p)
    }
}

/// Writes the low `n` bits of `value` into `data` starting at bit position
/// `bit_pos`, MSB-first. Bits outside the write range are left unchanged.
///
/// Returns `Err(WriteError::OutOfBounds)` if the write would exceed `data`,
/// or if `n > 64`.
pub fn write_bits_at(data: &mut [u8], bit_pos: usize, n: usize, value: u64) -> (r: Result<(), WriteError>)
    requires
        old(data)@.len() * 8 <= usize::MAX,
    ensures
        final(data)@.len() == old(data)@.len(),
        (n > 64 || bit_pos + n > old(data)@.len() * 8) <==> r is Err,
        r is Err ==> r == Err::<(), WriteError>(WriteError::OutOfBounds) && final(data)@ == old(data)@,
        r is Ok ==> forall|p: int| 0 <= p < old(data)@.len() * 8 ==>
            #[trigger] bit_at(final(data)@, p) == bit_after_write(old(data)@, bit_pos as int, n as nat, value, n as int, p),
        r is Ok ==> bits_value(final(data)@, bit_pos as int, n as nat) == value as nat % pow2(n as nat),
        r is Ok ==> read_bits_spec(final(data)@, bit_pos as int, n as int)
            == Ok::<u64, ReadError>((value as nat % pow2(n as nat)) as u64),
        r is Ok ==> read_bits_spec(final(data)@, bit_pos as int, n as int) == Ok::<u64, ReadError>(
            if n == 64 { value } else { value & (((1u64 << (n as u64)) - 1) as u64) },
        ),
        r is Ok ==> forall|q: int, m: int| 0 <= q && 0 <= m && (q + m <= bit_pos || bit_pos + n <= q) ==>
            #[trigger] read_bits_spec(final(data)@, q, m) == read_bits_spec(old(data)@, q, m),
{
    if n > 64 {
        return Err(WriteError::OutOfBounds);
    }
    let end = match bit_pos.checked_add(n) {
        Some(end) => end,
        None => return Err(WriteError::OutOfBounds),
    };
    if end > data.len() * 8 {
        return Err(WriteError::OutOfBounds);
    }

    let ghost old_data = data@;
    let mut i: usize = 0;
    while i < n
        invariant
            i <= n <= 64,
            bit_pos + n <= old_data.len() * 8,
            old_data.len() * 8 <= usize::MAX,
            data@.len() == old_data.len(),
            forall|p: int| 0 <= p < old_data.len() * 8 ==>
                #[trigger] bit_at(data@, p) == bit_after_write(old_data, bit_pos as int, n as nat, value, i as int, p),
        decreases n - i,
    {
        let sh = n - 1 - i;
        let bit = ((value >> sh) & 1) as u8;
        proof {
            lemma_u64_shr_is_div(value, sh as u64);
            let y = value >> (sh as u64);
            assert(y & 1 == y % 2) by (bit_vector);
        }
        assert(bit as nat == value_bit(value as nat, n as nat, i as int));
        let pos = bit_pos + i;
        let byte_index = pos / 8;
        let bit_index_in_byte: u8 = (7 - (pos % 8)) as u8;
        let ghost before = data@;
        let b = data[byte_index];
        if bit == 1 {
            data[byte_index] = b | (1u8 << bit_index_in_byte);
        } else {
            data[byte_index] = b & !(1u8 << bit_index_in_byte);
        }
        proof {
            assert forall|p: int| 0 <= p < old_data.len() * 8 implies
                #[trigger] bit_at(data@, p) == bit_after_write(old_data, bit_pos as int, n as nat, value, i + 1, p)
            by {
                assert(bit_at(before, p) == bit_after_write(old_data, bit_pos as int, n as nat, value, i as int, p));
                if p / 8 == byte_index as int {
                    let j = (7 - p % 8) as u8;
                    lemma_byte_bit_update(b, bit_index_in_byte, j);
                    lemma_shift_bit_u8(b, j);
                    lemma_shift_bit_u8(data@[byte_index as int], j);
                    if p != pos as int {
                        assert(j != bit_index_in_byte);
                    }
                }
            }
        }
        i += 1;
    }
    proof {
        assert forall|k: int| 0 <= k < n implies
            #[trigger] bit_at(data@, bit_pos + k) == value_bit(value as nat, n as nat, k)
        by {
            assert(bit_at(data@, bit_pos + k) == bit_after_write(old_data, bit_pos as int, n as nat, value, n as int, bit_pos + k));
        }
        lemma_bits_value_of_written(data@, bit_pos as int, n as nat, value as nat, n as nat);
        lemma2_to64();
        assert((n - n) as nat == 0);
        assert(value as nat / pow2(0) == value as nat);
        lemma_read_after_write(old_data, data@, bit_pos as int, n as nat, value, 0, 0);
        if n == 64 {
            vstd::arithmetic::div_mod::lemma_small_mod(value as nat, pow2(64));
        } else {
            lemma_pow2_le(n as nat, 63);
            lemma2_to64_rest();
            lemma_pow2_pos(n as nat);
            lemma_u64_shl_is_mul(1, n as u64);
            lemma_u64_low_bits_mask_is_mod(value, n as nat);
            assert(((1u64 << (n as u64)) - 1) as u64 == low_bits_mask(n as nat) as u64);
        }
        assert forall|q: int, m: int| 0 <= q && 0 <= m && (q + m <= bit_pos || bit_pos + n <= q) implies
            #[trigger] read_bits_spec(data@, q, m) == read_bits_spec(old_data, q, m)
        by {
            lemma_read_after_write(old_data, data@, bit_pos as int, n as nat, value, q, m);
        }
    }
    Ok(())
}

/// Reverses the low `n` bits of `x` (LSB becomes MSB of the result).
pub fn reverse_bits_n(x: u64, n: usize) -> (r: u64)
    ensures
        r as nat == reversed_bits(x as nat, n as nat),
{
    let ghost x0 = x;
    let mut x = x;
    let mut r = 0u64;
    let mut i: usize = 0;
    proof {
        lemma2_to64();
    }
    while i < n
        invariant
            i <= n,
            r as nat == reversed_bits(x0 as nat, i as nat),
            x as nat == x0 as nat / pow2(i as nat),
        decreases n - i,
    {
        proof {
            lemma2_to64();
            lemma_pow2_pos(i as nat);
            lemma_pow2_adds(i as nat, 1);
            assert(x0 as nat / pow2(i as nat + 1) == (x0 as nat / pow2(i as nat)) / 2) by {
                lemma_div_denominator(x0 as int, pow2(i as nat) as int, 2);
            }
        }
        assert(((r << 1) | (x & 1)) as int == (2 * (r as int)) % 0x1_0000_0000_0000_0000 + (x % 2) as int)
            by (bit_vector);
        assert(x >> 1 == x / 2) by (bit_vector);
        r = (r << 1) | (x & 1);
        x >>= 1;
        i += 1;
    }

    r
}

/// Two's-complement value of the `bits`-bit number `x`.
pub open spec fn signed_of_width(x: nat, bits: nat) -> int {
    if x >= pow2((bits - 1) as nat) {
        x - pow2(bits)
    } else {
        x as int
    }
}

/// Sign-extends the low `bits` of `value` to a full `i64`.
#[verifier::spinoff_prover]
pub fn sign_extend(value: u64, bits: usize) -> (r: i64)
    requires
        1 <= bits <= 64,
    ensures
        r as int == signed_of_width(value as nat % pow2(bits as nat), bits as nat),
{
    let shift = 64 - bits;
    let r = ((value << shift) as i64) >> shift;
    proof {
        let s = shift as u64;
        let b = bits as u64;
        let t = (bits - 1) as u64;
        assert(r as int == if (value >> t) & 1 == 1u64 {
            (value & (0xffff_ffff_ffff_ffffu64 >> s)) as int - (0xffff_ffff_ffff_ffffu64 >> s) as int - 1
        } else {
            (value & (0xffff_ffff_ffff_ffffu64 >> s)) as int
        }) by (bit_vector)
            requires
                r == ((value << s) as i64) >> s,
                s == 64 - b,
                t == b - 1,
                1 <= b <= 64,
        ;
        let m = 0xffff_ffff_ffff_ffffu64 >> s;
        let lo = value & m;
        lemma2_to64();
        lemma_pow2_pos(bits as nat);
        lemma_pow2_pos(t as nat);
        lemma_pow2_pos(s as nat);
        lemma_pow2_adds(bits as nat, s as nat);
        assert(bits as nat + s as nat == 64);
        lemma_u64_shr_is_div(0xffff_ffff_ffff_ffffu64, s);
        assert(m as nat == pow2(bits as nat) - 1) by {
            let ps = pow2(s as nat) as int;
            let pb = pow2(bits as nat) as int;
            assert(0xffff_ffff_ffff_ffffint == (pb - 1) * ps + (ps - 1)) by (nonlinear_arith)
                requires pb * ps == 0x1_0000_0000_0000_0000int;
            lemma_fundamental_div_mod_converse(
                0xffff_ffff_ffff_ffffint, pow2(s as nat) as int, pow2(bits as nat) - 1, pow2(s as nat) - 1);
        }
        if bits < 64 {
            lemma_u64_low_bits_mask_is_mod(value, bits as nat);
            lemma_pow2_le(bits as nat, 63);
            lemma2_to64_rest();
        } else {
            assert(value & 0xffff_ffff_ffff_ffffu64 == value) by (bit_vector);
            vstd::arithmetic::div_mod::lemma_small_mod(value as nat, pow2(64));
        }
        assert(lo as nat == value as nat % pow2(bits as nat));
        lemma_u64_shr_is_div(value, t);
        let y = value >> t;
        assert(y & 1 == y % 2) by (bit_vector);
        lemma_pow2_adds(t as nat, 1);
        assert(t as nat + 1 == bits as nat);
        assert(value as nat % (pow2(t as nat) * 2) == pow2(t as nat) * ((value as nat / pow2(t as nat)) % 2)
            + value as nat % pow2(t as nat)) by {
            vstd::arithmetic::div_mod::lemma_mod_breakdown(value as int, pow2(t as nat) as int, 2);
        }
        assert(((bits - 1) as nat) == t as nat);
    }
    r
}

pub assume_specification[ u8::reverse_bits ](x: u8) -> (r: u8)
    ensures
        forall|j: u8| j < 8 ==> #[trigger] ((r >> j) & 1) == (x >> (7 - j) as u8) & 1,
;

/// Reverses the bit order within each byte of `data`. MSB becomes LSB and vice-versa.
pub fn reverse_bits_in_bytes(data: &mut [u8])
    ensures
        final(data)@.len() == old(data)@.len(),
        forall|p: int| 0 <= p < old(data)@.len() * 8 ==>
            #[trigger] bit_at(final(data)@, p) == bit_at(old(data)@, 8 * (p / 8) + 7 - p % 8),
{
    let ghost old_data = data@;
    let mut k: usize = 0;
    while k < data.len()
        invariant
            k <= data@.len() == old_data.len(),
            forall|i: int| k <= i < data@.len() ==> data@[i] == old_data[i],
            forall|p: int| 0 <= p < 8 * k ==>
                #[trigger] bit_at(data@, p) == bit_at(old_data, 8 * (p / 8) + 7 - p % 8),
        decreases data@.len() - k,
    {
        let b = data[k];
        let rb = b.reverse_bits();
        let ghost before = data@;
        data[k] = rb;
        proof {
            assert forall|p: int| 0 <= p < 8 * (k + 1) implies
                #[trigger] bit_at(data@, p) == bit_at(old_data, 8 * (p / 8) + 7 - p % 8)
            by {
                if p >= 8 * k {
                    let j = p % 8;
                    assert(p / 8 == k);
                    let q = 8 * (p / 8) + 7 - p % 8;
                    assert(q / 8 == k && q % 8 == 7 - j) by {
                        vstd::arithmetic::div_mod::lemma_fundamental_div_mod_converse(q, 8, k as int, 7 - j);
                    }
                    assert(((rb >> (j as u8)) & 1) == (b >> (7 - j) as u8) & 1);
                    lemma_shift_bit_u8(rb, (7 - j) as u8);
                    lemma_shift_bit_u8(b, j as u8);
                    assert(((rb >> ((7 - j) as u8)) & 1) == (b >> (7 - (7 - j)) as u8) & 1);
                } else {
                    assert(bit_at(before, p) == bit_at(old_data, 8 * (p / 8) + 7 - p % 8));
                }
            }
        }
        k += 1;
    }
}

/// Position of bit `j` (`0..8`) of a byte group inside the packed byte.
pub open spec fn bit_shift_in_byte(order: BitOrder, j: int) -> int {
    match order {
        BitOrder::MsbFirst => 7 - j,
        BitOrder::LsbFirst => j,
    }
}

/// Byte `k` of the packed output once its first `j` bits have been OR-ed in.
pub open spec fn packed_byte(bits: Seq<u8>, k: int, order: BitOrder, j: nat) -> u8
    decreases j,
{
    if j == 0 {
        0
    } else {
        let prev = packed_byte(bits, k, order, (j - 1) as nat);
        let i = 8 * k + j - 1;
        if i < bits.len() {
            prev | ((bits[i] << (bit_shift_in_byte(order, j - 1) as u8)) as u8)
        } else {
            prev
        }
    }
}

/// Number of bits of byte `k` already packed after the first `i` bits.
spec fn packed_count(i: int, k: int) -> nat {
    if i <= 8 * k {
        0
    } else if i >= 8 * k + 8 {
        8
    } else {
        (i - 8 * k) as nat
    }
}

proof fn lemma_packed_byte_past_end(bits: Seq<u8>, k: int, order: BitOrder, j: nat)
    requires
        0 <= k,
        j <= 8,
        j == 8 || bits.len() - 8 * k <= j,
    ensures
        packed_byte(bits, k, order, 8) == packed_byte(bits, k, order, j),
    decreases 8 - j,
{
    if j < 8 {
        lemma_packed_byte_past_end(bits, k, order, j + 1);
    }
}

/// Converts a slice of bits to a byte vector.
pub fn bits_to_bytes(bits: &[u8], bit_order: BitOrder) -> (out: Vec<u8>)
    ensures
        out@.len() == (bits@.len() + 7) / 8,
        forall|k: int| 0 <= k < out@.len() ==> #[trigger] out@[k] == packed_byte(bits@, k, bit_order, 8),
{
    let n_bytes = bits.len() / 8 + if bits.len() % 8 == 0 { 0 } else { 1 };
    assert(n_bytes == (bits@.len() + 7) / 8);
    let mut out = vec![0u8; n_bytes];

    let mut i: usize = 0;
    while i < bits.len()
        invariant
            i <= bits@.len(),
            n_bytes == (bits@.len() + 7) / 8,
            out@.len() == n_bytes,
            forall|k: int| 0 <= k < n_bytes ==> #[trigger] out@[k] == packed_byte(bits@, k, bit_order, packed_count(i as int, k)),
        decreases bits@.len() - i,
    {
        let bit = bits[i];
        let byte_index = i / 8;
        let bit_in_byte: u8 = match bit_order {
            BitOrder::MsbFirst => (7 - (i % 8)) as u8,
            BitOrder::LsbFirst => (i % 8) as u8,
        };
        let ghost before = out@;
        out.set(byte_index, out[byte_index] | (bit << bit_in_byte));
        proof {
            assert forall|k: int| 0 <= k < n_bytes implies
                #[trigger] out@[k] == packed_byte(bits@, k, bit_order, packed_count(i + 1, k))
            by {
                if k == byte_index as int {
                    assert(packed_count(i + 1, k) == packed_count(i as int, k) + 1);
                    assert(before[k] == packed_byte(bits@, k, bit_order, packed_count(i as int, k)));
                } else {
                    assert(packed_count(i + 1, k) == packed_count(i as int, k));
                    assert(before[k] == packed_byte(bits@, k, bit_order, packed_count(i as int, k)));
                }
            }
        }
        i += 1;
    }
    proof {
        assert forall|k: int| 0 <= k < out@.len() implies #[trigger] out@[k] == packed_byte(bits@, k, bit_order, 8) by {
            assert(out@[k] == packed_byte(bits@, k, bit_order, packed_count(bits@.len() as int, k)));
            assert(8 * k < bits@.len());
            lemma_packed_byte_past_end(bits@, k, bit_order, packed_count(bits@.len() as int, k));
        }
    }
    out
}

proof fn lemma_packed_byte_bits(bits: Seq<u8>, k: int, order: BitOrder, m: nat, j: int)
    requires
        0 <= k,
        m <= 8,
        0 <= j < 8,
        forall|i: int| 0 <= i < bits.len() ==> #[trigger] bits[i] <= 1,
    ensures
        (packed_byte(bits, k, order, m) >> (bit_shift_in_byte(order, j) as u8)) & 1
            == if j < m && 8 * k + j < bits.len() { bits[8 * k + j] } else { 0u8 },
    decreases m,
{
    let t = bit_shift_in_byte(order, j) as u8;
    if m == 0 {
        assert((0u8 >> t) & 1 == 0) by (bit_vector);
    } else {
        lemma_packed_byte_bits(bits, k, order, (m - 1) as nat, j);
        let a = packed_byte(bits, k, order, (m - 1) as nat);
        let i = 8 * k + m - 1;
        if i < bits.len() {
            let b = bits[i];
            let sh = bit_shift_in_byte(order, m - 1) as u8;
            assert(t == sh <==> j == m - 1);
            assert(((a | ((b << sh) as u8)) >> t) & 1 == if t == sh { b } else { (a >> t) & 1 }) by (bit_vector)
                requires
                    b <= 1,
                    sh < 8,
                    t < 8,
                    t == sh ==> (a >> t) & 1 == 0,
            ;
        }
    }
}

/// Bit `j` of byte `k` of packed 0/1 bits, counted from the most
/// significant end with MSB-first packing and from the least significant
/// end with LSB-first packing, is input bit `8 * k + j`; past the last input
/// bit it is a zero padding bit.
pub proof fn lemma_packed_bit(bits: Seq<u8>, k: int, order: BitOrder, j: int)
    requires
        forall|i: int| 0 <= i < bits.len() ==> #[trigger] bits[i] <= 1,
        0 <= k,
        0 <= j < 8,
    ensures
        (packed_byte(bits, k, order, 8) >> (bit_shift_in_byte(order, j) as u8)) & 1
            == if 8 * k + j < bits.len() { bits[8 * k + j] } else { 0u8 },
{
    lemma_packed_byte_bits(bits, k, order, 8, j);
}

/// The two packings mirror each other: each LSB-first byte holds the bits
/// of the MSB-first byte in reverse order.
pub proof fn lemma_packed_orders_mirror(bits: Seq<u8>, k: int)
    requires
        forall|i: int| 0 <= i < bits.len() ==> #[trigger] bits[i] <= 1,
        0 <= k,
    ensures
        forall|j: u8| j < 8 ==> #[trigger] ((packed_byte(bits, k, BitOrder::LsbFirst, 8) >> j) & 1)
            == (packed_byte(bits, k, BitOrder::MsbFirst, 8) >> (7 - j) as u8) & 1,
{
    assert forall|j: u8| j < 8 implies #[trigger] ((packed_byte(bits, k, BitOrder::LsbFirst, 8) >> j) & 1)
        == (packed_byte(bits, k, BitOrder::MsbFirst, 8) >> (7 - j) as u8) & 1
    by {
        lemma_packed_bit(bits, k, BitOrder::LsbFirst, j as int);
        lemma_packed_bit(bits, k, BitOrder::MsbFirst, j as int);
    }
}

/// Packing 0/1 bits MSB-first puts bit `p` of the input at bit position `p`
/// of the output.
pub proof fn lemma_packed_msb_bit(bits: Seq<u8>, bytes: Seq<u8>, p: int)
    requires
        forall|i: int| 0 <= i < bits.len() ==> #[trigger] bits[i] <= 1,
        bytes.len() == (bits.len() + 7) / 8,
        forall|k: int| 0 <= k < bytes.len() ==> #[trigger] bytes[k] == packed_byte(bits, k, BitOrder::MsbFirst, 8),
        0 <= p < bits.len(),
    ensures
        bit_at(bytes, p) == bits[p],
{
    let k = p / 8;
    let j = p % 8;
    assert(k < bytes.len());
    lemma_packed_byte_bits(bits, k, BitOrder::MsbFirst, 8, j);
    lemma_shift_bit_u8(bytes[k], (7 - j) as u8);
    assert(8 * k + j == p);
}


// ---------------------------------------------------------------------------
// Laws
// ---------------------------------------------------------------------------

proof fn lemma_bits_value_same(a: Seq<u8>, b: Seq<u8>, q: int, m: nat)
    requires
        forall|i: int| 0 <= i < m ==> #[trigger] bit_at(a, q + i) == bit_at(b, q + i),
    ensures
        bits_value(a, q, m) == bits_value(b, q, m),
    decreases m,
{
    if m > 0 {
        lemma_bits_value_same(a, b, q, (m - 1) as nat);
        assert(bit_at(a, q + (m - 1)) == bit_at(b, q + (m - 1)));
    }
}

/// Reading after [`write_bits_at`]: the written range reads back as the
/// low `n` bits of the value written, and any range that does not overlap
/// it reads as it did before the write.
pub proof fn lemma_read_after_write(
    before: Seq<u8>,
    after: Seq<u8>,
    bit_pos: int,
    n: nat,
    value: u64,
    q: int,
    m: int,
)
    requires
        after.len() == before.len(),
        0 <= bit_pos,
        n <= 64,
        bit_pos + n <= before.len() * 8,
        forall|p: int| 0 <= p < before.len() * 8 ==>
            #[trigger] bit_at(after, p) == bit_after_write(before, bit_pos, n, value, n as int, p),
        0 <= q,
        0 <= m,
    ensures
        read_bits_spec(after, bit_pos, n as int) == Ok::<u64, ReadError>((value as nat % pow2(n)) as u64),
        q + m <= bit_pos || bit_pos + n <= q ==> read_bits_spec(after, q, m) == read_bits_spec(before, q, m),
{
    assert forall|k: int| 0 <= k < n implies #[trigger] bit_at(after, bit_pos + k) == value_bit(value as nat, n, k) by {
        assert(bit_at(after, bit_pos + k) == bit_after_write(before, bit_pos, n, value, n as int, bit_pos + k));
    }
    lemma_bits_value_of_written(after, bit_pos, n, value as nat, n);
    lemma2_to64();
    assert((n - n) as nat == 0);
    vstd::arithmetic::div_mod::lemma_div_basics(value as int);
    assert(value as nat / pow2(0) == value as nat);
    lemma_bits_value_bound(after, bit_pos, n);
    lemma_pow2_le(n, 64);
    if q + m <= bit_pos || bit_pos + n <= q {
        if m <= 64 && q + m <= before.len() * 8 {
            assert forall|i: int| 0 <= i < m implies #[trigger] bit_at(after, q + i) == bit_at(before, q + i) by {
                assert(bit_at(after, q + i) == bit_after_write(before, bit_pos, n, value, n as int, q + i));
            }
            lemma_bits_value_same(after, before, q, m as nat);
        }
    }
}

/// Reversing the low `n` bits twice gives back the low `n` bits, for a
/// width of at most 64 bits: `reverse_bits_n(reverse_bits_n(x, n), n)` is
/// `x` modulo `2^n`.
pub proof fn lemma_reverse_bits_n_twice(x: u64, n: nat)
    requires
        n <= 64,
    ensures
        reversed_bits(x as nat, n) < pow2(n),
        reversed_bits(reversed_bits(x as nat, n), n) == x as nat % pow2(n),
{
    crate::bitmath::lemma_reversed_bits_bound(x as nat, n);
    crate::bitmath::lemma_reversed_bits_involution(x as nat, n);
}

/// Sign extension gives back a signed value from the low `bits` bits of its
/// two's-complement form, for every value in the range of `bits` bits.
pub proof fn lemma_sign_extend_inverts(x: i64, bits: nat)
    requires
        1 <= bits <= 64,
        -pow2((bits - 1) as nat) <= x < pow2((bits - 1) as nat),
    ensures
        signed_of_width((x as u64) as nat % pow2(bits), bits) == x,
{
    let t = bits;
    let w = x as u64;
    lemma2_to64();
    lemma_pow2_pos(t);
    lemma_pow2_le(t, 64);
    let tm = (t - 1) as nat;
    lemma_pow2_adds(tm, 1);
    assert(tm + 1 == t);
    lemma_pow2_le(tm, 63);
    lemma2_to64_rest();
    let raw = w as nat % pow2(t);
    assert(raw < pow2(t)) by {
        vstd::arithmetic::div_mod::lemma_mod_bound(w as int, pow2(t) as int);
    }
    if x >= 0 {
        assert(w == x);
        vstd::arithmetic::div_mod::lemma_small_mod(w as nat, pow2(t));
    } else {
        assert((x as u64) as int == x as int + 0x1_0000_0000_0000_0000int) by (bit_vector)
            requires
                x < 0,
        ;
        let k = (64 - t) as nat;
        lemma_pow2_adds(t, k);
        assert(t + k == 64);
        lemma_pow2_pos(k);
        assert(w as int == pow2(t) * (pow2(k) - 1) + (x + pow2(t))) by (nonlinear_arith)
            requires
                w as int == x + 0x1_0000_0000_0000_0000int,
                pow2(t) * pow2(k) == 0x1_0000_0000_0000_0000int,
        ;
        lemma_fundamental_div_mod_converse(w as int, pow2(t) as int, pow2(k) - 1, x + pow2(t));
    }
}

} // verus!
