//! Mathematical model of bit strings held in byte sequences, and the lemmas
//! that connect the executable bit manipulations to it.

use vstd::prelude::*;
use vstd::arithmetic::power2::{pow2, lemma_pow2_pos, lemma_pow2_unfold, lemma_pow2_adds, lemma2_to64, lemma_pow2_strictly_increases};
use vstd::arithmetic::div_mod::{
    lemma_mod_mod, lemma_div_multiples_vanish_fancy, lemma_small_mod,
    lemma_mod_breakdown,
    lemma_fundamental_div_mod, lemma_div_denominator, lemma_small_div_converse,
    lemma_fundamental_div_mod_converse,
};
use vstd::arithmetic::mul::{lemma_mul_is_associative, lemma_mul_is_commutative, lemma_mul_is_distributive_add, lemma_mul_strictly_positive, lemma_mul_inequality};
use vstd::arithmetic::div_mod::lemma_mod_bound;

verus! {

/// The bit at position `pos` of `data` (0 or 1); bit 0 is the most significant
/// bit of the first byte.
pub open spec fn bit_at(data: Seq<u8>, pos: int) -> nat {
    ((data[pos / 8] as nat / pow2((7 - pos % 8) as nat)) % 2) as nat
}

/// Unsigned value of the `n` bits of `data` that start at `pos`, read
/// most significant bit first.
pub open spec fn bits_value(data: Seq<u8>, pos: int, n: nat) -> nat
    decreases n,
{
    if n == 0 {
        0
    } else {
        2 * bits_value(data, pos, (n - 1) as nat) + bit_at(data, pos + n - 1)
    }
}

/// Big-endian value of the bytes `data[start..end]`.
pub open spec fn bytes_value(data: Seq<u8>, start: int, end: int) -> nat
    decreases end - start,
{
    if end <= start {
        0
    } else {
        256 * bytes_value(data, start, end - 1) + data[end - 1] as nat
    }
}

/// Powers of two grow with their exponent.
pub proof fn lemma_pow2_le(a: nat, b: nat)
    requires
        a <= b,
    ensures
        pow2(a) <= pow2(b),
{
    if a < b {
        lemma_pow2_strictly_increases(a, b);
    }
}

/// A bit is 0 or 1.
pub proof fn lemma_bit_at_bound(data: Seq<u8>, pos: int)
    ensures
        bit_at(data, pos) <= 1,
{
    lemma_pow2_pos((7 - pos % 8) as nat);
}

/// An `n`-bit value is below `2^n`.
pub proof fn lemma_bits_value_bound(data: Seq<u8>, pos: int, n: nat)
    ensures
        bits_value(data, pos, n) < pow2(n),
    decreases n,
{
    if n == 0 {
        lemma2_to64();
    } else {
        lemma_bits_value_bound(data, pos, (n - 1) as nat);
        lemma_bit_at_bound(data, pos + n - 1);
        lemma_pow2_unfold(n);
    }
}

/// Reading `a + b` bits is reading `a` bits, then the following `b` bits.
pub proof fn lemma_bits_value_concat(data: Seq<u8>, pos: int, a: nat, b: nat)
    ensures
        bits_value(data, pos, a + b) == bits_value(data, pos, a) * pow2(b) + bits_value(data, pos + a, b),
    decreases b,
{
    if b == 0 {
        lemma2_to64();
        assert(a + b == a);
    } else {
        lemma_bits_value_concat(data, pos, a, (b - 1) as nat);
        lemma_pow2_unfold(b);
        let x = bits_value(data, pos, a);
        let p = pow2((b - 1) as nat);
        assert((a + b - 1) as nat == a + (b - 1) as nat);
        assert(pos + (a + b) - 1 == (pos + a) + b - 1);
        assert(2 * (x * p) == x * (2 * p)) by {
            lemma_mul_is_associative(2, x as int, p as int);
            lemma_mul_is_associative(x as int, 2, p as int);
            lemma_mul_is_commutative(2, x as int);
        }
    }
}

/// The first `j` bits of byte `k` are that byte divided by `2^(8 - j)`.
pub proof fn lemma_byte_prefix(data: Seq<u8>, k: int, j: nat)
    requires
        0 <= k < data.len(),
        j <= 8,
    ensures
        bits_value(data, 8 * k, j) == data[k] as nat / pow2((8 - j) as nat),
    decreases j,
{
    let b = data[k] as nat;
    lemma2_to64();
    if j == 0 {
        lemma_small_div_converse(b as int, 256);
        assert(b / 256 == 0) by {
            lemma_fundamental_div_mod_converse(b as int, 256, 0, b as int);
        }
    } else {
        lemma_byte_prefix(data, k, (j - 1) as nat);
        let pos = 8 * k + j - 1;
        assert(pos / 8 == k && pos % 8 == j - 1) by {
            lemma_fundamental_div_mod_converse(pos, 8, k, j - 1);
        }
        let e = (8 - j) as nat;
        lemma_pow2_pos(e);
        lemma_pow2_adds(e, 1);
        assert((8 - (j - 1)) as nat == e + 1);
        let q = b / pow2(e);
        assert(b / pow2(e + 1) == q / 2) by {
            lemma_div_denominator(b as int, pow2(e) as int, 2);
        }
        assert(q == 2 * (q / 2) + q % 2) by {
            lemma_fundamental_div_mod(q as int, 2);
        }
    }
}

/// A run of whole bytes read as bits is their big-endian value.
pub proof fn lemma_bytes_as_bits(data: Seq<u8>, s: int, e: int)
    requires
        0 <= s <= e <= data.len(),
    ensures
        bytes_value(data, s, e) == bits_value(data, 8 * s, (8 * (e - s)) as nat),
    decreases e - s,
{
    if e > s {
        lemma_bytes_as_bits(data, s, e - 1);
        lemma_bits_value_concat(data, 8 * s, (8 * (e - 1 - s)) as nat, 8);
        assert((8 * (e - 1 - s)) as nat + 8 == (8 * (e - s)) as nat);
        assert(8 * s + (8 * (e - 1 - s)) as nat == 8 * (e - 1));
        lemma_byte_prefix(data, e - 1, 8);
        lemma2_to64();
        let x = bits_value(data, 8 * s, (8 * (e - 1 - s)) as nat);
        assert(pow2(0) == 1);
        assert((8 - 8) as nat == 0);
        assert(bits_value(data, 8 * (e - 1), 8) == data[e - 1] as nat / pow2(0));
        assert(data[e - 1] as nat / 1 == data[e - 1] as nat);
        assert(bits_value(data, 8 * s, (8 * (e - s)) as nat) == x * 256 + data[e - 1] as nat);
        assert(x * 256 == 256 * x) by {
            lemma_mul_is_commutative(x as int, 256);
        }
    }
}

/// Bit `i` (counted from the most significant end) of the `n`-bit
/// representation of `v`.
pub open spec fn value_bit(v: nat, n: nat, i: int) -> nat {
    (v / pow2((n - 1 - i) as nat)) % 2
}

/// When the `n` bits at `pos` are the bits of `v`, most significant first,
/// reading them back gives `v` modulo `2^n`.
pub proof fn lemma_bits_value_of_written(data: Seq<u8>, pos: int, n: nat, v: nat, k: nat)
    requires
        k <= n,
        forall|i: int| 0 <= i < k ==> #[trigger] bit_at(data, pos + i) == value_bit(v, n, i),
    ensures
        bits_value(data, pos, k) == (v / pow2((n - k) as nat)) % pow2(k),
    decreases k,
{
    lemma_pow2_pos((n - k) as nat);
    if k == 0 {
        lemma2_to64();
    } else {
        lemma_bits_value_of_written(data, pos, n, v, (k - 1) as nat);
        assert(bit_at(data, pos + (k - 1)) == value_bit(v, n, k - 1));
        let e = (n - k) as nat;
        lemma_pow2_adds(e, 1);
        lemma2_to64();
        assert((n - (k - 1)) as nat == e + 1);
        assert((n - 1 - (k - 1)) as nat == e);
        let w = v / pow2(e);
        assert(v / pow2(e + 1) == w / 2) by {
            lemma_div_denominator(v as int, pow2(e) as int, 2);
        }
        lemma_pow2_unfold(k);
        lemma_pow2_pos((k - 1) as nat);
        assert(w % (2 * pow2((k - 1) as nat)) == 2 * ((w / 2) % pow2((k - 1) as nat)) + w % 2) by {
            lemma_mod_breakdown(w as int, 2, pow2((k - 1) as nat) as int);
        }
    }
}

/// Reversal of the low `n` bits of `x` as a 64-bit register computes it:
/// `n` steps, each shifting the accumulator left by one (bits pushed past
/// bit 63 are lost) and appending the next bit of `x`, least significant
/// bit of `x` first.
pub open spec fn reversed_bits(x: nat, n: nat) -> nat
    decreases n,
{
    if n == 0 {
        0
    } else {
        (2 * reversed_bits(x, (n - 1) as nat)) % pow2(64) + (x / pow2((n - 1) as nat)) % 2
    }
}

proof fn lemma_reversed_bits_unfold(x: nat, n: nat)
    requires
        n >= 1,
    ensures
        reversed_bits(x, n) == (2 * reversed_bits(x, (n - 1) as nat)) % pow2(64) + (x / pow2((n - 1) as nat)) % 2,
{
}

/// For at most 64 bits nothing is lost: the reversal fits in `n` bits.
pub proof fn lemma_reversed_bits_bound(x: nat, n: nat)
    requires
        n <= 64,
    ensures
        reversed_bits(x, n) < pow2(n),
        n >= 1 ==> reversed_bits(x, n) == 2 * reversed_bits(x, (n - 1) as nat) + (x / pow2((n - 1) as nat)) % 2,
    decreases n,
{
    lemma2_to64();
    if n > 0 {
        lemma_reversed_bits_bound(x, (n - 1) as nat);
        lemma_pow2_unfold(n);
        lemma_pow2_le(n, 64);
        lemma_pow2_pos((n - 1) as nat);
        let r = reversed_bits(x, (n - 1) as nat);
        lemma_small_mod((2 * r) as nat, pow2(64));
    }
}

/// Reversing `n` bits puts the lowest bit of `x` on top of the reversal of
/// the other `n - 1` bits.
pub proof fn lemma_reversed_bits_peel(x: nat, n: nat)
    requires
        1 <= n <= 64,
    ensures
        reversed_bits(x, n) == reversed_bits(x / 2, (n - 1) as nat) + (x % 2) * pow2((n - 1) as nat),
    decreases n,
{
    lemma2_to64();
    lemma_reversed_bits_bound(x, n);
    if n == 1 {
        assert(x / 1 == x);
        assert(reversed_bits(x, 0) == 0);
        assert(reversed_bits(x / 2, 0) == 0);
    } else {
        let m = (n - 2) as nat;
        lemma_reversed_bits_peel(x, (n - 1) as nat);
        lemma_reversed_bits_bound(x / 2, (n - 1) as nat);
        lemma_pow2_unfold((n - 1) as nat);
        lemma_pow2_pos(m);
        assert((x / 2) / pow2(m) == x / pow2((n - 1) as nat)) by {
            lemma_div_denominator(x as int, 2, pow2(m) as int);
        }
        assert((n - 1 - 1) as nat == m);
        let b = x % 2;
        assert(2 * (b * pow2(m)) == b * (2 * pow2(m))) by (nonlinear_arith);
    }
}

/// Bit `i` of the reversal of the low `n` bits of `x` is bit `n - 1 - i`
/// of `x`, for a width of at most 64 bits.
pub proof fn lemma_reversed_bits_bit(x: nat, n: nat, i: nat)
    requires
        n <= 64,
        i < n,
    ensures
        (reversed_bits(x, n) / pow2(i)) % 2 == (x / pow2((n - 1 - i) as nat)) % 2,
    decreases n,
{
    let m = (n - 1) as nat;
    lemma_reversed_bits_peel(x, n);
    lemma_reversed_bits_bound(x / 2, m);
    let r = reversed_bits(x / 2, m);
    let b = x % 2;
    let v = reversed_bits(x, n);
    assert(v == r + b * pow2(m));
    lemma_pow2_pos(m);
    lemma_pow2_pos(i);
    lemma2_to64();
    if i == m {
        lemma_fundamental_div_mod_converse(v as int, pow2(m) as int, b as int, r as int);
        assert(v / pow2(i) == b);
        assert((n - 1 - i) as nat == 0);
        assert(x / pow2(0) == x / 1);
        lemma_small_mod(b, 2);
    } else {
        let d = (m - i) as nat;
        lemma_pow2_adds(i, d);
        assert(i + d == m);
        lemma_pow2_pos(d);
        let q = r / pow2(i);
        let rr = r % pow2(i);
        lemma_fundamental_div_mod(r as int, pow2(i) as int);
        lemma_mod_bound(r as int, pow2(i) as int);
        assert(v == (q + b * pow2(d)) * pow2(i) + rr) by (nonlinear_arith)
            requires
                v == r + b * pow2(m),
                r == pow2(i) * q + rr,
                pow2(m) == pow2(i) * pow2(d),
        ;
        lemma_fundamental_div_mod_converse(v as int, pow2(i) as int, (q + b * pow2(d)) as int, rr as int);
        assert(v / pow2(i) == q + b * pow2(d));
        lemma_pow2_unfold(d);
        let dd = (d - 1) as nat;
        assert(pow2(d) == 2 * pow2(dd));
        let qm = q % 2;
        lemma_fundamental_div_mod(q as int, 2);
        assert(q + b * pow2(d) == (q / 2 + b * pow2(dd)) * 2 + qm) by (nonlinear_arith)
            requires
                q == 2 * (q / 2) + qm,
                pow2(d) == 2 * pow2(dd),
        ;
        lemma_mod_bound(q as int, 2);
        lemma_fundamental_div_mod_converse((q + b * pow2(d)) as int, 2, (q / 2 + b * pow2(dd)) as int, qm as int);
        lemma_reversed_bits_bit(x / 2, m, i);
        assert((m - 1 - i) as nat == dd);
        assert((n - 1 - i) as nat == d);
        lemma_pow2_unfold(d);
        lemma_div_denominator(x as int, 2, pow2(dd) as int);
        assert(2 * pow2(dd) == pow2(d));
    }
}

/// Bit `k` of `x` can be read off `x` modulo any larger power of two.
pub proof fn lemma_bit_of_low_part(x: nat, k: nat, m: nat)
    requires
        k < m,
    ensures
        ((x % pow2(m)) / pow2(k)) % 2 == (x / pow2(k)) % 2,
{
    let d = (m - k) as nat;
    lemma_pow2_adds(k, d);
    assert(k + d == m);
    lemma_pow2_pos(k);
    lemma_pow2_pos(d);
    lemma_pow2_pos((d - 1) as nat);
    assert(x % (pow2(k) * pow2(d)) == pow2(k) * ((x / pow2(k)) % pow2(d)) + x % pow2(k)) by {
        lemma_mod_breakdown(x as int, pow2(k) as int, pow2(d) as int);
    }
    assert((x % pow2(m)) / pow2(k) == (x / pow2(k)) % pow2(d)) by {
        lemma_div_multiples_vanish_fancy(((x / pow2(k)) % pow2(d)) as int, (x % pow2(k)) as int, pow2(k) as int);
    }
    lemma_pow2_unfold(d);
    assert(((x / pow2(k)) % (2 * pow2((d - 1) as nat))) % 2 == (x / pow2(k)) % 2) by {
        lemma_mod_mod((x / pow2(k)) as int, 2, pow2((d - 1) as nat) as int);
    }
}

/// Reversing `n` bits only looks at the low `m >= n` bits.
pub proof fn lemma_reversed_bits_low(x: nat, n: nat, m: nat)
    requires
        n <= m,
    ensures
        reversed_bits(x, n) == reversed_bits(x % pow2(m), n),
    decreases n,
{
    if n > 0 {
        lemma_reversed_bits_low(x, (n - 1) as nat, m);
        lemma_bit_of_low_part(x, (n - 1) as nat, m);
        lemma_pow2_pos(m);
        let y: nat = x % pow2(m);
        lemma_reversed_bits_unfold(y, n);
        lemma_reversed_bits_unfold(x, n);
        assert(reversed_bits(y, (n - 1) as nat) == reversed_bits(x, (n - 1) as nat));
        assert((y / pow2((n - 1) as nat)) % 2 == (x / pow2((n - 1) as nat)) % 2);
        assert(reversed_bits(y, n) == reversed_bits(x, n));
        assert(reversed_bits(x % pow2(m), n) == reversed_bits(x, n));
    } else {
        lemma_pow2_pos(m);
    }
}

/// Reversing the low `n` bits twice gives back the low `n` bits.
pub proof fn lemma_reversed_bits_involution(x: nat, n: nat)
    requires
        n <= 64,
    ensures
        reversed_bits(reversed_bits(x, n), n) == x % pow2(n),
    decreases n,
{
    lemma2_to64();
    if n > 0 {
        let m = (n - 1) as nat;
        let y = reversed_bits(x, n);
        let z = reversed_bits(x / 2, m);
        let b = x % 2;
        lemma_reversed_bits_peel(x, n);
        lemma_reversed_bits_bound(x / 2, m);
        lemma_reversed_bits_bound(y, n);
        lemma_pow2_pos(m);
        // y == z + b * 2^m with z < 2^m
        assert(y == pow2(m) * b + z) by (nonlinear_arith)
            requires y == z + b * pow2(m);
        assert(y / pow2(m) == b) by {
            lemma_div_multiples_vanish_fancy(b as int, z as int, pow2(m) as int);
        }
        assert(y % pow2(m) == z) by {
            lemma_fundamental_div_mod_converse(y as int, pow2(m) as int, b as int, z as int);
        }
        lemma_reversed_bits_low(y, m, m);
        lemma_reversed_bits_involution(x / 2, m);
        lemma_pow2_unfold(n);
        assert(x % (2 * pow2(m)) == 2 * ((x / 2) % pow2(m)) + x % 2) by {
            lemma_mod_breakdown(x as int, 2, pow2(m) as int);
        }
        assert(b % 2 == b);
    }
}

/// The bits `lo..hi` of `w`, left in place.
pub open spec fn bit_field(w: nat, lo: nat, hi: nat) -> nat {
    ((w / pow2(lo)) % pow2((hi - lo) as nat)) * pow2(lo)
}

/// Adjacent bit fields add up to the field spanning both.
pub proof fn lemma_bit_field_concat(w: nat, a: nat, b: nat, c: nat)
    requires
        a <= b <= c,
    ensures
        bit_field(w, a, b) + bit_field(w, b, c) == bit_field(w, a, c),
{
    let d1 = (b - a) as nat;
    let d2 = (c - b) as nat;
    lemma_pow2_pos(a);
    lemma_pow2_pos(d1);
    lemma_pow2_pos(d2);
    lemma_pow2_adds(d1, d2);
    lemma_pow2_adds(a, d1);
    assert(d1 + d2 == (c - a) as nat);
    assert(a + d1 == b);
    let q = w / pow2(a);
    assert(q % (pow2(d1) * pow2(d2)) == pow2(d1) * ((q / pow2(d1)) % pow2(d2)) + q % pow2(d1)) by {
        lemma_mod_breakdown(q as int, pow2(d1) as int, pow2(d2) as int);
    }
    assert(q / pow2(d1) == w / pow2(b)) by {
        lemma_div_denominator(w as int, pow2(a) as int, pow2(d1) as int);
    }
    let hi = (w / pow2(b)) % pow2(d2);
    let lo = q % pow2(d1);
    assert((pow2(d1) * hi + lo) * pow2(a) == hi * (pow2(a) * pow2(d1)) + lo * pow2(a)) by (nonlinear_arith);
}

/// The field of the low `t` bits is `w` modulo `2^t`.
pub proof fn lemma_bit_field_low(w: nat, t: nat)
    ensures
        bit_field(w, 0, t) == w % pow2(t),
{
    lemma2_to64();
    lemma_pow2_pos(t);
    assert(pow2(0) == 1);
    assert(w / pow2(0) == w);
    assert((t - 0) as nat == t);
    let x = w % pow2(t);
    assert(x * pow2(0) == x);
}

/// A bit field is a multiple of `2^lo` below `2^hi`.
pub proof fn lemma_bit_field_bounds(w: nat, lo: nat, hi: nat)
    requires
        lo <= hi,
    ensures
        bit_field(w, lo, hi) % pow2(lo) == 0,
        bit_field(w, lo, hi) < pow2(hi),
{
    let d = (hi - lo) as nat;
    lemma_pow2_pos(lo);
    lemma_pow2_pos(d);
    lemma_pow2_adds(d, lo);
    assert(d + lo == hi);
    let x = (w / pow2(lo)) % pow2(d);
    assert(x < pow2(d)) by {
        lemma_mod_bound((w / pow2(lo)) as int, pow2(d) as int);
    }
    assert((x * pow2(lo)) % pow2(lo) == 0) by {
        vstd::arithmetic::div_mod::lemma_mod_multiples_basic(x as int, pow2(lo) as int);
    }
    assert(x * pow2(lo) < pow2(d) * pow2(lo)) by (nonlinear_arith)
        requires
            x < pow2(d),
            pow2(lo) > 0,
    ;
}

} // verus!
