//! The mathematical model of a bit stream: a `Seq<bool>` of bits in the
//! order they are emitted, together with the functions that say which bits
//! a write appends and which bytes a finished stream yields.

use vstd::arithmetic::div_mod::lemma_fundamental_div_mod;
use vstd::arithmetic::div_mod::lemma_fundamental_div_mod_converse;
use vstd::arithmetic::div_mod::lemma_mod_multiples_basic;
use vstd::arithmetic::div_mod::lemma_small_mod;
use vstd::prelude::*;

verus! {

/// Bit `i` of `v`, counting from the least significant bit at position 0.
pub open spec fn u64_bit(v: u64, i: u64) -> bool {
    (v >> i) & 1 == 1
}

/// The low `n` bits of `v`, most significant first: exactly the bits, in
/// exactly the order, that a width-`n` unsigned write emits.
pub open spec fn low_bits_msb(v: u64, n: nat) -> Seq<bool> {
    Seq::new(n, |i: int| u64_bit(v, (n - 1 - i) as u64))
}

/// A run of `n` zero bits.
pub open spec fn zero_bits(n: nat) -> Seq<bool> {
    Seq::new(n, |i: int| false)
}

/// The 8 bits of one byte, most significant first.
pub open spec fn byte_bits(b: u8) -> Seq<bool> {
    Seq::new(8, |i: int| u64_bit(b as u64, (7 - i) as u64))
}

/// The bits of a byte sequence, each byte most significant bit first.
pub open spec fn bytes_to_bits(s: Seq<u8>) -> Seq<bool>
    decreases s.len(),
{
    if s.len() == 0 {
        Seq::empty()
    } else {
        bytes_to_bits(s.drop_last()) + byte_bits(s.last())
    }
}

/// A bit as the numeric value it contributes.
pub open spec fn bit_val(b: bool) -> u8 {
    if b {
        1
    } else {
        0
    }
}

/// The byte formed by 8 bits read most significant first.
pub open spec fn bits_to_byte(s: Seq<bool>) -> u8
    recommends
        s.len() == 8,
{
    (128 * bit_val(s[0]) + 64 * bit_val(s[1]) + 32 * bit_val(s[2]) + 16 * bit_val(s[3]) + 8
        * bit_val(s[4]) + 4 * bit_val(s[5]) + 2 * bit_val(s[6]) + bit_val(s[7])) as u8
}

/// The completed bytes of a bit stream: every full group of 8 bits, in
/// order; a trailing partial group yields no byte.
pub open spec fn stream_bytes(bits: Seq<bool>) -> Seq<u8> {
    Seq::new(bits.len() / 8, |i: int| bits_to_byte(bits.subrange(8 * i, 8 * i + 8)))
}

/// How many zero bits bring a stream of length `len` up to the next
/// multiple of `block` bits (zero when already there).
pub open spec fn pad_bits(len: nat, block: nat) -> nat
    recommends
        block > 0,
{
    ((block - len % block) % (block as int)) as nat
}

/// A bit stream zero-padded to the next byte boundary: what `close` leaves.
pub open spec fn padded_to_byte(bits: Seq<bool>) -> Seq<bool> {
    bits + zero_bits(pad_bits(bits.len(), 8))
}

/// `v` reduced to its low `n` bits, the value a width-`n` write records.
pub open spec fn mask_to_width(v: u64, n: u8) -> u64
    recommends
        n <= 64,
{
    if n == 64 {
        v
    } else {
        v & (((1u64 << n) - 1) as u64)
    }
}

/// The unsigned bit pattern a signed write emits: for a negative value at
/// a width below 64 the sign is folded in by forcing bit `n - 1` on; at
/// width 64 the native two's-complement pattern is used as it stands.
pub open spec fn signed_fold(v: i64, n: u8) -> u64
    recommends
        0 < n <= 64,
{
    if v < 0 && n != 64 {
        (v as u64) | (1u64 << ((n - 1) as u64))
    } else {
        v as u64
    }
}

/// A byte sequence carries exactly 8 bits per byte.
pub proof fn lemma_bytes_to_bits_len(s: Seq<u8>)
    ensures
        bytes_to_bits(s).len() == 8 * s.len(),
    decreases s.len(),
{
    if s.len() > 0 {
        lemma_bytes_to_bits_len(s.drop_last());
    }
}

/// Appending one byte to a byte sequence appends its 8 bits to the stream.
pub proof fn lemma_bytes_to_bits_push(s: Seq<u8>, b: u8)
    ensures
        bytes_to_bits(s.push(b)) == bytes_to_bits(s) + byte_bits(b),
{
    assert(s.push(b).drop_last() =~= s);
    assert(s.push(b).last() == b);
}

/// Masking a value to its write width never changes the emitted bits:
/// high bits beyond the width are discarded by the write itself, so a
/// value and its pre-masked form produce identical output.
pub proof fn lemma_mask_to_width_same_bits(v: u64, n: u8)
    requires
        n <= 64,
    ensures
        low_bits_msb(mask_to_width(v, n), n as nat) == low_bits_msb(v, n as nat),
{
    if n < 64 {
        assert forall|k: int| 0 <= k < n implies low_bits_msb(mask_to_width(v, n), n as nat)[k]
            == low_bits_msb(v, n as nat)[k] by {
            let j: u64 = (n - 1 - k) as u64;
            assert(u64_bit(v & (((1u64 << n) - 1) as u64), j) == u64_bit(v, j)) by (bit_vector)
                requires
                    n < 64,
                    j < n,
            ;
        }
        assert(low_bits_msb(mask_to_width(v, n), n as nat) =~= low_bits_msb(v, n as nat));
    }
}

/// For a value representable at width `n` (that is, `-2^(n-1) <= v <
/// 2^(n-1)` with `n < 64`), folding the sign is the identity on the low
/// `n` bits: the emitted pattern is the value's own two's-complement
/// pattern truncated to `n` bits.
pub proof fn lemma_signed_fold_in_range(v: i64, n: u8)
    requires
        0 < n < 64,
        -(1i64 << ((n - 1) as u64)) <= v < (1i64 << ((n - 1) as u64)),
    ensures
        low_bits_msb(signed_fold(v, n), n as nat) == low_bits_msb(v as u64, n as nat),
{
    if v < 0 {
        let uv = v as u64;
        assert forall|k: int| 0 <= k < n implies low_bits_msb(signed_fold(v, n), n as nat)[k]
            == low_bits_msb(uv, n as nat)[k] by {
            let j: u64 = (n - 1 - k) as u64;
            assert(u64_bit(uv | (1u64 << ((n - 1) as u64)), j) == u64_bit(uv, j)) by (bit_vector)
                requires
                    0 < n < 64,
                    j < n,
                    uv == v as u64,
                    v < 0,
                    -(1i64 << ((n - 1) as u64)) <= v,
            ;
        }
        assert(low_bits_msb(signed_fold(v, n), n as nat) =~= low_bits_msb(uv, n as nat));
    }
}

/// A zero value emits only zero bits, whatever the width.
pub proof fn lemma_zero_value_bits(n: nat)
    ensures
        low_bits_msb(0, n) == zero_bits(n),
{
    assert forall|k: int| 0 <= k < n implies low_bits_msb(0, n)[k] == false by {
        let j: u64 = (n - 1 - k) as u64;
        assert(!u64_bit(0u64, j)) by (bit_vector);
    }
    assert(low_bits_msb(0, n) =~= zero_bits(n));
}

/// Runs of zero bits concatenate.
pub proof fn lemma_zero_bits_concat(a: nat, b: nat)
    ensures
        zero_bits(a + b) == zero_bits(a) + zero_bits(b),
{
    assert(zero_bits(a + b) =~= zero_bits(a) + zero_bits(b));
}

/// Skipping is the same as writing single zero bits one at a time: each
/// further single-bit zero write appends exactly one more zero bit.
pub proof fn lemma_skip_single_bit_equivalence(n: nat)
    requires
        n > 0,
    ensures
        zero_bits(n) == zero_bits((n - 1) as nat) + low_bits_msb(0, 1),
{
    lemma_zero_value_bits(1);
    lemma_zero_bits_concat((n - 1) as nat, 1);
}

/// The bits of concatenated byte sequences are the concatenated bits.
pub proof fn lemma_bytes_to_bits_concat(s: Seq<u8>, t: Seq<u8>)
    ensures
        bytes_to_bits(s + t) == bytes_to_bits(s) + bytes_to_bits(t),
    decreases t.len(),
{
    if t.len() == 0 {
        assert(s + t =~= s);
        assert(bytes_to_bits(s) + bytes_to_bits(t) =~= bytes_to_bits(s));
    } else {
        lemma_bytes_to_bits_concat(s, t.drop_last());
        assert((s + t).drop_last() =~= s + t.drop_last());
        assert((s + t).last() == t.last());
        assert(bytes_to_bits(s) + bytes_to_bits(t) =~= (bytes_to_bits(s) + bytes_to_bits(
            t.drop_last(),
        )) + byte_bits(t.last()));
    }
}

/// Writing one whole byte through the width-8 unsigned path emits
/// exactly that byte's bits: with `lemma_bytes_to_bits_push` this says
/// bulk byte writing equals writing each byte through the 8-bit writer.
pub proof fn lemma_byte_write_equivalence(b: u8)
    ensures
        low_bits_msb(b as u64, 8) == byte_bits(b),
{
    assert(low_bits_msb(b as u64, 8) =~= byte_bits(b));
}

/// Reading back the 8 bits of a byte, most significant first, recovers
/// the byte.
pub proof fn lemma_byte_roundtrip(b: u8)
    ensures
        bits_to_byte(byte_bits(b)) == b,
{
    let v = b as u64;
    assert((v >> 7) & 1 == 1 || (v >> 7) & 1 == 0) by (bit_vector);
    assert((v >> 6) & 1 == 1 || (v >> 6) & 1 == 0) by (bit_vector);
    assert((v >> 5) & 1 == 1 || (v >> 5) & 1 == 0) by (bit_vector);
    assert((v >> 4) & 1 == 1 || (v >> 4) & 1 == 0) by (bit_vector);
    assert((v >> 3) & 1 == 1 || (v >> 3) & 1 == 0) by (bit_vector);
    assert((v >> 2) & 1 == 1 || (v >> 2) & 1 == 0) by (bit_vector);
    assert((v >> 1) & 1 == 1 || (v >> 1) & 1 == 0) by (bit_vector);
    assert((v >> 0) & 1 == 1 || (v >> 0) & 1 == 0) by (bit_vector);
    assert(v == 128 * ((v >> 7) & 1) + 64 * ((v >> 6) & 1) + 32 * ((v >> 5) & 1) + 16 * ((v >> 4)
        & 1) + 8 * ((v >> 3) & 1) + 4 * ((v >> 2) & 1) + 2 * ((v >> 1) & 1) + ((v >> 0) & 1))
        by (bit_vector)
        requires
            v < 256,
    ;
}

/// The completed bytes of a stream built from whole bytes plus fewer
/// than 8 loose bits are exactly those bytes: `stream_bytes` recovers
/// the byte buffer.
pub proof fn lemma_stream_bytes_recovers(s: Seq<u8>, t: Seq<bool>)
    requires
        t.len() < 8,
    ensures
        stream_bytes(bytes_to_bits(s) + t) == s,
{
    let whole = bytes_to_bits(s) + t;
    lemma_bytes_to_bits_len(s);
    lemma_fundamental_div_mod_converse(whole.len() as int, 8, s.len() as int, t.len() as int);
    assert(stream_bytes(whole).len() == s.len());
    assert forall|i: int| 0 <= i < s.len() implies stream_bytes(whole)[i] == s[i] by {
        lemma_bytes_to_bits_byte_at(s, i);
        assert(whole.subrange(8 * i, 8 * i + 8) =~= bytes_to_bits(s).subrange(8 * i, 8 * i + 8));
        lemma_byte_roundtrip(s[i]);
    }
    assert(stream_bytes(whole) =~= s);
}

/// Within the bits of a byte sequence, byte `i` occupies positions
/// `8 * i` through `8 * i + 7`.
pub proof fn lemma_bytes_to_bits_byte_at(s: Seq<u8>, i: int)
    requires
        0 <= i < s.len(),
    ensures
        bytes_to_bits(s).subrange(8 * i, 8 * i + 8) == byte_bits(s[i]),
    decreases s.len(),
{
    lemma_bytes_to_bits_len(s);
    lemma_bytes_to_bits_len(s.drop_last());
    if i == s.len() - 1 {
        assert(bytes_to_bits(s).subrange(8 * i, 8 * i + 8) =~= byte_bits(s.last()));
    } else {
        lemma_bytes_to_bits_byte_at(s.drop_last(), i);
        assert(bytes_to_bits(s).subrange(8 * i, 8 * i + 8) =~= bytes_to_bits(
            s.drop_last(),
        ).subrange(8 * i, 8 * i + 8));
    }
}

/// Padding brings the length to a multiple of the block, and a length
/// already at a multiple needs no padding at all.
pub proof fn lemma_pad_bits_aligns(len: nat, block: nat)
    requires
        block > 0,
    ensures
        (len + pad_bits(len, block)) % block == 0,
        len % block == 0 ==> pad_bits(len, block) == 0,
{
    let r = len % block;
    lemma_fundamental_div_mod(len as int, block as int);
    if r == 0 {
        lemma_mod_multiples_basic(1, block as int);
        assert(pad_bits(len, block) == 0);
        lemma_mod_multiples_basic((len / block) as int, block as int);
    } else {
        lemma_small_mod((block - r) as nat, block);
        assert(pad_bits(len, block) == block - r);
        assert(len + pad_bits(len, block) == ((len / block) + 1) * (block as int))
            by (nonlinear_arith)
            requires
                len == (block as int) * ((len / block) as int) + r,
                pad_bits(len, block) == block - r,
        ;
        lemma_mod_multiples_basic(((len / block) + 1) as int, block as int);
    }
}

/// Padding to a byte boundary twice gives the same stream as padding
/// once: a second `close` appends nothing.
pub proof fn lemma_padded_to_byte_idempotent(bits: Seq<bool>)
    ensures
        padded_to_byte(padded_to_byte(bits)) == padded_to_byte(bits),
{
    lemma_pad_bits_aligns(bits.len(), 8);
    let once = padded_to_byte(bits);
    assert(once.len() % 8 == 0);
    lemma_pad_bits_aligns(once.len(), 8);
    assert(padded_to_byte(once) =~= once);
}

/// The total bit count splits into the completed bytes and the pending
/// remainder: `len == 8 * |bytes| + pending` with `pending < 8`.
pub proof fn lemma_bit_count_split(bits: Seq<bool>)
    ensures
        bits.len() == 8 * stream_bytes(bits).len() + bits.len() % 8,
        bits.len() % 8 < 8,
{
    lemma_fundamental_div_mod(bits.len() as int, 8);
}

} // verus!
