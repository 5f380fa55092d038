//! The bit stream writer: packs values of 1 to 64 bits contiguously into
//! a byte buffer, carrying any partial byte in a one-byte cache.

use crate::model::byte_bits;
use crate::model::bytes_to_bits;
use crate::model::lemma_byte_write_equivalence;
use crate::model::lemma_bytes_to_bits_concat;
use crate::model::lemma_bytes_to_bits_len;
use crate::model::lemma_bytes_to_bits_push;
use crate::model::lemma_mask_to_width_same_bits;
use crate::model::lemma_stream_bytes_recovers;
use crate::model::lemma_zero_bits_concat;
use crate::model::lemma_zero_value_bits;
use crate::model::low_bits_msb;
use crate::model::mask_to_width;
use crate::model::pad_bits;
use crate::model::padded_to_byte;
use crate::model::signed_fold;
use crate::model::stream_bytes;
use crate::model::u64_bit;
use crate::model::zero_bits;
use vstd::prelude::*;

verus! {

/// The two ways a call can be rejected; a rejected call mutates nothing.
#[derive(Clone, Copy, Debug, PartialEq, Eq)]
pub enum BitError {
    /// A requested bit width exceeds the operation's maximum.
    UnsupportedWidth,
    /// An alignment of zero bytes was requested.
    InvalidArgument,
}

/// A bit-granular output stream. Abstractly it is the sequence of bits
/// written so far (`self@`); concretely the completed bytes sit in a
/// buffer and the 0 to 7 pending bits sit left-justified in a one-byte
/// cache.
pub struct BitWriter {
    data: Vec<u8>,
    bit_count: u64,
    cache: u8,
    bits: u8,
}

/// The top `m` bits of the cache byte `c`, most significant first: the
/// pending bits not yet forming a complete output byte.
spec fn cache_bits(c: u8, m: u8) -> Seq<bool> {
    Seq::new(m as nat, |i: int| u64_bit(c as u64, (7 - i) as u64))
}

impl View for BitWriter {
    type V = Seq<bool>;

    /// Every bit written so far, in order: the completed bytes followed
    /// by the pending cache bits.
    closed spec fn view(&self) -> Seq<bool> {
        bytes_to_bits(self.data@) + cache_bits(self.cache, self.bits)
    }
}

impl BitWriter {
    /// Well-formedness: fewer than 8 pending bits, nothing but those
    /// pending bits set in the cache, and the bit counter equal to the
    /// stream length.
    pub closed spec fn wf(&self) -> bool {
        &&& self.bits < 8
        &&& (self.cache << self.bits) >> self.bits == 0
        &&& self.bit_count == 8 * self.data@.len() + self.bits
    }

    /// A fresh writer holds no bits.
    pub fn new() -> (r: BitWriter)
        ensures
            r.wf(),
            r@ == Seq::<bool>::empty(),
    {
        let w = BitWriter { data: Vec::new(), bit_count: 0, cache: 0, bits: 0 };
        proof {
            assert((0u8 << 0u8) >> 0u8 == 0u8) by (bit_vector);
            assert(w@ =~= Seq::<bool>::empty());
        }
        w
    }

    /// The number of bits written so far, pending cache bits included.
    pub fn bit_count(&self) -> (r: u64)
        requires
            self.wf(),
        ensures
            r == self@.len(),
    {
        proof {
            self.lemma_view_len();
        }
        self.bit_count
    }

    /// Writes the low `n` bits of `v` into the stream, most significant
    /// bit first. A width of zero succeeds and writes nothing; a width
    /// above `maximum_count` or above 64 is rejected with no mutation;
    /// otherwise bits beyond the width are silently discarded and the
    /// masked bits are appended.
    pub fn write_unsigned_bits(&mut self, v: u64, n: u8, maximum_count: u8) -> (r: Result<
        (),
        BitError,
    >)
        requires
            old(self).wf(),
            old(self)@.len() + n <= u64::MAX,
        ensures
            final(self).wf(),
            n == 0 ==> r == Ok::<(), BitError>(()) && final(self)@ == old(self)@,
            n != 0 && (n > maximum_count || n > 64) ==> r == Err::<(), BitError>(
                BitError::UnsupportedWidth,
            ) && final(self)@ == old(self)@,
            n != 0 && n <= maximum_count && n <= 64 ==> r == Ok::<(), BitError>(())
                && final(self)@ == old(self)@ + low_bits_msb(v, n as nat),
    {
        if n == 0 {
            return Ok(());
        }
        if n > maximum_count || n > 64 {
            return Err(BitError::UnsupportedWidth);
        }
        let ghost pre: BitWriter = *self;
        let ghost c0: u8 = self.cache;
        let ghost b0: u8 = self.bits;
        let ghost d0: Seq<u8> = self.data@;
        proof {
            assert(n < 64 ==> (1u64 << n) >= 1) by (bit_vector);
        }
        let vm: u64 = if n == 64 {
            v
        } else {
            v & ((1u64 << n) - 1)
        };
        let ghost t: Seq<bool> = low_bits_msb(vm, n as nat);
        proof {
            assert(vm == mask_to_width(v, n));
            lemma_mask_to_width_same_bits(v, n);
            if n < 64 {
                lemma_mask_high_zero(v, n);
            }
            self.lemma_view_len();
        }
        self.bit_count = self.bit_count + (n as u64);
        let new_bits: u8 = self.bits + n;
        if new_bits < 8 {
            let x: u8 = #[verifier::truncate] (vm as u8);
            self.cache = self.cache | (x << (8 - new_bits));
            self.bits = new_bits;
            proof {
                lemma_small_u64_roundtrip(vm, n);
                let merged = cache_bits(self.cache, new_bits);
                let expect = cache_bits(c0, b0) + t;
                assert forall|k: int| 0 <= k < new_bits implies merged[k] == expect[k] by {
                    let p: u64 = (7 - k) as u64;
                    if k < b0 {
                        lemma_cache_or_keeps_old(c0, x, b0, n, p);
                    } else {
                        let j: u64 = (n - 1 - (k - b0)) as u64;
                        lemma_cache_or_new_bits(c0, x, b0, n, p, j);
                    }
                }
                assert(merged =~= expect);
                lemma_cache_or_low_zero(c0, x, b0, n);
                assert(self@ =~= pre@ + t);
            }
            return Ok(());
        }
        let free: u8 = 8 - self.bits;
        let sh: u8 = n - free;
        let w: u8 = #[verifier::truncate] ((vm >> sh) as u8);
        let filled: u8 = self.cache | w;
        self.data.push(filled);
        let mut m: u8 = sh;
        proof {
            let fb = byte_bits(filled);
            let expect = cache_bits(c0, b0) + t.take(free as int);
            assert forall|k: int| 0 <= k < 8 implies fb[k] == expect[k] by {
                let p: u64 = (7 - k) as u64;
                if k < b0 {
                    lemma_first_byte_old_part(c0, w, vm, b0, n, sh as u64, p);
                } else {
                    let j: u64 = (n - 1 - (k - b0)) as u64;
                    lemma_first_byte_new_part(c0, w, vm, b0, n, sh as u64, p, j);
                }
            }
            assert(fb =~= expect);
            lemma_bytes_to_bits_push(d0, filled);
            assert(bytes_to_bits(self.data@) =~= pre@ + t.take((n - m) as int));
        }
        while m >= 8
            invariant
                self.cache == c0,
                self.bits == b0,
                pre.cache == c0,
                pre.bits == b0,
                pre.wf(),
                m <= n - (8 - b0),
                n <= 64,
                self.bit_count == pre.bit_count + n,
                pre@.len() + n <= u64::MAX,
                t == low_bits_msb(vm, n as nat),
                bytes_to_bits(self.data@) == pre@ + t.take((n - m) as int),
            decreases m,
        {
            m = m - 8;
            let nb: u8 = #[verifier::truncate] ((vm >> m) as u8);
            let ghost dprev: Seq<u8> = self.data@;
            self.data.push(nb);
            proof {
                let nbb = byte_bits(nb);
                let piece = t.subrange((n - m - 8) as int, (n - m) as int);
                assert forall|k: int| 0 <= k < 8 implies nbb[k] == piece[k] by {
                    let p: u64 = (7 - k) as u64;
                    lemma_middle_byte(vm, m, p);
                }
                assert(nbb =~= piece);
                lemma_bytes_to_bits_push(dprev, nb);
                assert(t.take((n - m) as int) =~= t.take((n - m - 8) as int) + piece);
                assert(bytes_to_bits(self.data@) =~= pre@ + t.take((n - m) as int));
            }
        }
        self.cache = 0;
        self.bits = m;
        if m > 0 {
            proof {
                assert(m < 8 ==> (1u8 << m) >= 1) by (bit_vector);
            }
            let msk: u8 = (1u8 << m) - 1;
            self.cache = (#[verifier::truncate] (vm as u8) & msk) << (8 - m);
        }
        proof {
            let tail = cache_bits(self.cache, m);
            let piece = t.skip((n - m) as int);
            assert forall|k: int| 0 <= k < m implies tail[k] == piece[k] by {
                let p: u64 = (7 - k) as u64;
                let j: u64 = (m - 1 - k) as u64;
                lemma_tail_cache_bit(vm, self.cache, m, p, j);
            }
            assert(tail =~= piece);
            if m > 0 {
                lemma_tail_cache_low_zero(vm, self.cache, m);
            } else {
                assert((0u8 << 0u8) >> 0u8 == 0u8) by (bit_vector);
            }
            assert(t.take((n - m) as int) + t.skip((n - m) as int) =~= t);
            assert(self@ =~= pre@ + t);
            lemma_bytes_to_bits_len(self.data@);
        }
        Ok(())
    }

    /// Writes a signed integer of any width: a negative value below
    /// width 64 has its sign folded onto bit `width - 1`, width 64 uses
    /// the native two's-complement pattern, and the result goes through
    /// the unsigned path.
    pub fn write_signed_bits(&mut self, v: i64, n: u8, maximum_count: u8) -> (r: Result<
        (),
        BitError,
    >)
        requires
            old(self).wf(),
            old(self)@.len() + n <= u64::MAX,
        ensures
            final(self).wf(),
            n == 0 ==> r == Ok::<(), BitError>(()) && final(self)@ == old(self)@,
            n != 0 && (n > maximum_count || n > 64) ==> r == Err::<(), BitError>(
                BitError::UnsupportedWidth,
            ) && final(self)@ == old(self)@,
            n != 0 && n <= maximum_count && n <= 64 ==> r == Ok::<(), BitError>(())
                && final(self)@ == old(self)@ + low_bits_msb(signed_fold(v, n), n as nat),
    {
        if n == 0 {
            return Ok(());
        }
        if n > maximum_count || n > 64 {
            return Err(BitError::UnsupportedWidth);
        }
        let uv: u64 = #[verifier::truncate] (v as u64);
        let folded: u64 = if v < 0 && n != 64 {
            uv | (1u64 << (n - 1))
        } else {
            uv
        };
        self.write_unsigned_bits(folded, n, maximum_count)
    }

    /// Writes at most 8 bits from a `u8` value.
    pub fn write_u8(&mut self, v: u8, bit_count: u8) -> (r: Result<(), BitError>)
        requires
            old(self).wf(),
            old(self)@.len() + bit_count <= u64::MAX,
        ensures
            final(self).wf(),
            bit_count == 0 ==> r == Ok::<(), BitError>(()) && final(self)@ == old(self)@,
            0 < bit_count <= 8 ==> r == Ok::<(), BitError>(()) && final(self)@ == old(self)@
                + low_bits_msb(v as u64, bit_count as nat),
            bit_count > 8 ==> r == Err::<(), BitError>(BitError::UnsupportedWidth) && final(self)@
                == old(self)@,
    {
        self.write_unsigned_bits(v as u64, bit_count, 8)
    }

    /// Writes at most 16 bits from a `u16` value.
    pub fn write_u16(&mut self, v: u16, bit_count: u8) -> (r: Result<(), BitError>)
        requires
            old(self).wf(),
            old(self)@.len() + bit_count <= u64::MAX,
        ensures
            final(self).wf(),
            bit_count == 0 ==> r == Ok::<(), BitError>(()) && final(self)@ == old(self)@,
            0 < bit_count <= 16 ==> r == Ok::<(), BitError>(()) && final(self)@ == old(self)@
                + low_bits_msb(v as u64, bit_count as nat),
            bit_count > 16 ==> r == Err::<(), BitError>(BitError::UnsupportedWidth)
                && final(self)@ == old(self)@,
    {
        self.write_unsigned_bits(v as u64, bit_count, 16)
    }

    /// Writes at most 32 bits from a `u32` value.
    pub fn write_u32(&mut self, v: u32, bit_count: u8) -> (r: Result<(), BitError>)
        requires
            old(self).wf(),
            old(self)@.len() + bit_count <= u64::MAX,
        ensures
            final(self).wf(),
            bit_count == 0 ==> r == Ok::<(), BitError>(()) && final(self)@ == old(self)@,
            0 < bit_count <= 32 ==> r == Ok::<(), BitError>(()) && final(self)@ == old(self)@
                + low_bits_msb(v as u64, bit_count as nat),
            bit_count > 32 ==> r == Err::<(), BitError>(BitError::UnsupportedWidth)
                && final(self)@ == old(self)@,
    {
        self.write_unsigned_bits(v as u64, bit_count, 32)
    }

    /// Writes at most 64 bits from a `u64` value.
    pub fn write_u64(&mut self, v: u64, bit_count: u8) -> (r: Result<(), BitError>)
        requires
            old(self).wf(),
            old(self)@.len() + bit_count <= u64::MAX,
        ensures
            final(self).wf(),
            bit_count == 0 ==> r == Ok::<(), BitError>(()) && final(self)@ == old(self)@,
            0 < bit_count <= 64 ==> r == Ok::<(), BitError>(()) && final(self)@ == old(self)@
                + low_bits_msb(v, bit_count as nat),
            bit_count > 64 ==> r == Err::<(), BitError>(BitError::UnsupportedWidth)
                && final(self)@ == old(self)@,
    {
        self.write_unsigned_bits(v, bit_count, 64)
    }

    /// Writes at most 8 bits from an `i8` value.
    pub fn write_i8(&mut self, v: i8, bit_count: u8) -> (r: Result<(), BitError>)
        requires
            old(self).wf(),
            old(self)@.len() + bit_count <= u64::MAX,
        ensures
            final(self).wf(),
            bit_count == 0 ==> r == Ok::<(), BitError>(()) && final(self)@ == old(self)@,
            0 < bit_count <= 8 ==> r == Ok::<(), BitError>(()) && final(self)@ == old(self)@
                + low_bits_msb(signed_fold(v as i64, bit_count), bit_count as nat),
            bit_count > 8 ==> r == Err::<(), BitError>(BitError::UnsupportedWidth) && final(self)@
                == old(self)@,
    {
        self.write_signed_bits(v as i64, bit_count, 8)
    }

    /// Writes at most 16 bits from an `i16` value.
    pub fn write_i16(&mut self, v: i16, bit_count: u8) -> (r: Result<(), BitError>)
        requires
            old(self).wf(),
            old(self)@.len() + bit_count <= u64::MAX,
        ensures
            final(self).wf(),
            bit_count == 0 ==> r == Ok::<(), BitError>(()) && final(self)@ == old(self)@,
            0 < bit_count <= 16 ==> r == Ok::<(), BitError>(()) && final(self)@ == old(self)@
                + low_bits_msb(signed_fold(v as i64, bit_count), bit_count as nat),
            bit_count > 16 ==> r == Err::<(), BitError>(BitError::UnsupportedWidth)
                && final(self)@ == old(self)@,
    {
        self.write_signed_bits(v as i64, bit_count, 16)
    }

    /// Writes at most 32 bits from an `i32` value.
    pub fn write_i32(&mut self, v: i32, bit_count: u8) -> (r: Result<(), BitError>)
        requires
            old(self).wf(),
            old(self)@.len() + bit_count <= u64::MAX,
        ensures
            final(self).wf(),
            bit_count == 0 ==> r == Ok::<(), BitError>(()) && final(self)@ == old(self)@,
            0 < bit_count <= 32 ==> r == Ok::<(), BitError>(()) && final(self)@ == old(self)@
                + low_bits_msb(signed_fold(v as i64, bit_count), bit_count as nat),
            bit_count > 32 ==> r == Err::<(), BitError>(BitError::UnsupportedWidth)
                && final(self)@ == old(self)@,
    {
        self.write_signed_bits(v as i64, bit_count, 32)
    }

    /// Writes at most 64 bits from an `i64` value.
    pub fn write_i64(&mut self, v: i64, bit_count: u8) -> (r: Result<(), BitError>)
        requires
            old(self).wf(),
            old(self)@.len() + bit_count <= u64::MAX,
        ensures
            final(self).wf(),
            bit_count == 0 ==> r == Ok::<(), BitError>(()) && final(self)@ == old(self)@,
            0 < bit_count <= 64 ==> r == Ok::<(), BitError>(()) && final(self)@ == old(self)@
                + low_bits_msb(signed_fold(v, bit_count), bit_count as nat),
            bit_count > 64 ==> r == Err::<(), BitError>(BitError::UnsupportedWidth)
                && final(self)@ == old(self)@,
    {
        self.write_signed_bits(v, bit_count, 64)
    }

    /// Writes one boolean as a single bit.
    pub fn write_bool(&mut self, v: bool) -> (r: Result<(), BitError>)
        requires
            old(self).wf(),
            old(self)@.len() + 1 <= u64::MAX,
        ensures
            final(self).wf(),
            r == Ok::<(), BitError>(()),
            final(self)@ == old(self)@ + seq![v],
    {
        let bit: u64 = if v {
            1
        } else {
            0
        };
        let r = self.write_unsigned_bits(bit, 1, 1);
        proof {
            assert(u64_bit(1u64, 0u64)) by (bit_vector);
            assert(!u64_bit(0u64, 0u64)) by (bit_vector);
            assert(low_bits_msb(bit, 1) =~= seq![v]);
        }
        r
    }

    /// Skips `n` bits by writing zeros, in chunks of 64 and one final
    /// remainder write.
    pub fn skip(&mut self, n: u64) -> (r: Result<(), BitError>)
        requires
            old(self).wf(),
            old(self)@.len() + n <= u64::MAX,
        ensures
            final(self).wf(),
            r == Ok::<(), BitError>(()),
            final(self)@ == old(self)@ + zero_bits(n as nat),
    {
        let ghost pre: BitWriter = *self;
        let chunks: u64 = n / 64;
        let mut i: u64 = 0;
        proof {
            vstd::arithmetic::div_mod::lemma_fundamental_div_mod(n as int, 64);
            assert(self@ =~= pre@ + zero_bits(0));
        }
        while i < chunks
            invariant
                self.wf(),
                i <= chunks,
                chunks == n / 64,
                pre@.len() + n <= u64::MAX,
                64 * chunks <= n,
                self@ == pre@ + zero_bits((64 * i) as nat),
            decreases chunks - i,
        {
            proof {
                assert(64 * (i + 1) <= 64 * chunks) by (nonlinear_arith)
                    requires
                        i < chunks,
                ;
            }
            self.write_unsigned_bits(0, 64, 64)?;
            proof {
                lemma_zero_value_bits(64);
                lemma_zero_bits_concat((64 * i) as nat, 64);
                assert(self@ =~= pre@ + zero_bits((64 * (i + 1)) as nat));
            }
            i = i + 1;
        }
        let leftover: u8 = (n % 64) as u8;
        proof {
            vstd::arithmetic::div_mod::lemma_fundamental_div_mod(n as int, 64);
        }
        if leftover != 0 {
            self.write_unsigned_bits(0, leftover, 64)?;
            proof {
                lemma_zero_value_bits(leftover as nat);
                lemma_zero_bits_concat((64 * chunks) as nat, leftover as nat);
            }
        }
        proof {
            assert(self@ =~= pre@ + zero_bits(n as nat));
        }
        Ok(())
    }

    /// Pads with zero bits until the total bit count is a multiple of
    /// `alignment_bytes * 8`; an alignment of zero bytes is rejected.
    pub fn align(&mut self, alignment_bytes: u32) -> (r: Result<(), BitError>)
        requires
            old(self).wf(),
            alignment_bytes > 0 ==> old(self)@.len() + pad_bits(
                old(self)@.len(),
                8 * alignment_bytes as nat,
            ) <= u64::MAX,
        ensures
            final(self).wf(),
            alignment_bytes == 0 ==> r == Err::<(), BitError>(BitError::InvalidArgument)
                && final(self)@ == old(self)@,
            alignment_bytes > 0 ==> r == Ok::<(), BitError>(()) && final(self)@ == old(self)@
                + zero_bits(pad_bits(old(self)@.len(), 8 * alignment_bytes as nat)),
    {
        if alignment_bytes == 0 {
            return Err(BitError::InvalidArgument);
        }
        proof {
            self.lemma_view_len();
        }
        let alignment_bits: u64 = (alignment_bytes as u64) * 8;
        let cur_alignment: u64 = self.bit_count % alignment_bits;
        let bits_to_skip: u64 = (alignment_bits - cur_alignment) % alignment_bits;
        proof {
            assert(bits_to_skip == pad_bits(self@.len(), 8 * alignment_bytes as nat));
        }
        self.skip(bits_to_skip)
    }

    /// Closes the stream: zero-pads any partial byte to the next byte
    /// boundary; on an already aligned stream nothing is appended.
    pub fn close(&mut self) -> (r: Result<(), BitError>)
        requires
            old(self).wf(),
            old(self)@.len() + pad_bits(old(self)@.len(), 8) <= u64::MAX,
        ensures
            final(self).wf(),
            r == Ok::<(), BitError>(()),
            final(self)@ == padded_to_byte(old(self)@),
    {
        self.align(1)?;
        Ok(())
    }

    /// Appends whole bytes: directly into the buffer when the stream is
    /// byte-aligned, otherwise each byte goes through the 8-bit path.
    /// Both paths emit the same bits.
    pub fn write(&mut self, data: &Vec<u8>) -> (r: Result<(), BitError>)
        requires
            old(self).wf(),
            old(self)@.len() + 8 * data@.len() <= u64::MAX,
        ensures
            final(self).wf(),
            r == Ok::<(), BitError>(()),
            final(self)@ == old(self)@ + bytes_to_bits(data@),
    {
        let ghost pre: BitWriter = *self;
        if self.bits == 0 {
            proof {
                self.lemma_view_len();
            }
            self.bit_count = self.bit_count + 8 * (data.len() as u64);
            let mut i: usize = 0;
            while i < data.len()
                invariant
                    i <= data@.len(),
                    self.cache == pre.cache,
                    self.bits == 0,
                    pre.bits == 0,
                    pre.wf(),
                    self.bit_count == pre.bit_count + 8 * data@.len(),
                    pre@.len() + 8 * data@.len() <= u64::MAX,
                    self.data@ == pre.data@ + data@.take(i as int),
                decreases data@.len() - i,
            {
                let b: u8 = data[i];
                self.data.push(b);
                proof {
                    assert(self.data@ =~= pre.data@ + data@.take(i + 1));
                }
                i = i + 1;
            }
            proof {
                assert(data@.take(data@.len() as int) =~= data@);
                lemma_bytes_to_bits_concat(pre.data@, data@);
                lemma_bytes_to_bits_len(data@);
                assert(cache_bits(self.cache, 0) =~= Seq::<bool>::empty());
                assert(cache_bits(pre.cache, 0) =~= Seq::<bool>::empty());
                assert(self@ =~= pre@ + bytes_to_bits(data@));
                self.lemma_view_len();
            }
            Ok(())
        } else {
            let mut i: usize = 0;
            proof {
                assert(self@ =~= pre@ + bytes_to_bits(data@.take(0)));
            }
            while i < data.len()
                invariant
                    self.wf(),
                    i <= data@.len(),
                    pre@.len() + 8 * data@.len() <= u64::MAX,
                    self@ == pre@ + bytes_to_bits(data@.take(i as int)),
                decreases data@.len() - i,
            {
                let b: u8 = data[i];
                proof {
                    lemma_bytes_to_bits_len(data@.take(i as int));
                }
                match self.write_u8(b, 8) {
                    Ok(()) => (),
                    Err(e) => {
                        return Err(e);
                    },
                }
                proof {
                    lemma_byte_write_equivalence(b);
                    assert(data@.take(i + 1) =~= data@.take(i as int).push(b));
                    lemma_bytes_to_bits_push(data@.take(i as int), b);
                    assert(self@ =~= pre@ + bytes_to_bits(data@.take(i + 1)));
                }
                i = i + 1;
            }
            proof {
                assert(data@.take(data@.len() as int) =~= data@);
            }
            Ok(())
        }
    }

    /// The finished byte buffer: every completed byte so far, in order.
    /// Call `close` first if the trailing partial byte must be included
    /// and zero-padded.
    pub fn data(&self) -> (r: &Vec<u8>)
        requires
            self.wf(),
        ensures
            r@ == stream_bytes(self@),
    {
        proof {
            lemma_stream_bytes_recovers(self.data@, cache_bits(self.cache, self.bits));
        }
        &self.data
    }

    /// The stream length equals the stored counter.
    proof fn lemma_view_len(&self)
        requires
            self.wf(),
        ensures
            self@.len() == self.bit_count,
    {
        lemma_bytes_to_bits_len(self.data@);
    }
}

/// Masking to a width below 64 clears every bit at or above that width.
proof fn lemma_mask_high_zero(v: u64, n: u8)
    by (bit_vector)
    requires
        n < 64,
    ensures
        (v & (((1u64 << n) - 1) as u64)) >> (n as u64) == 0,
{
}

/// A value below `2^n` with `n < 8` survives the round trip through `u8`.
proof fn lemma_small_u64_roundtrip(vm: u64, n: u8)
    by (bit_vector)
    requires
        n < 8,
        vm >> (n as u64) == 0,
    ensures
        (vm as u8) as u64 == vm,
{
}

/// Merging `n` new bits below the `b` pending ones leaves the pending
/// bits of the cache (positions `8 - b` and up) unchanged.
proof fn lemma_cache_or_keeps_old(c: u8, x: u8, b: u8, n: u8, p: u64)
    by (bit_vector)
    requires
        b < 8,
        1 <= n,
        b + n < 8,
        x >> n == 0,
        8 - b <= p,
        p < 8,
    ensures
        u64_bit((c | (x << (((8 - b) - n) as u8))) as u64, p) == u64_bit(c as u64, p),
{
}

/// In the merged cache, position `p` of the freshly shifted-in region
/// holds bit `j` of the new value.
proof fn lemma_cache_or_new_bits(c: u8, x: u8, b: u8, n: u8, p: u64, j: u64)
    by (bit_vector)
    requires
        b < 8,
        1 <= n,
        b + n < 8,
        (c << b) >> b == 0,
        8 - b - n <= p,
        p < 8 - b,
        j == p + (n as u64) + (b as u64) - 8,
    ensures
        u64_bit((c | (x << (((8 - b) - n) as u8))) as u64, p) == u64_bit(x as u64, j),
{
}

/// The merged cache still has zeros below its `b + n` pending bits.
proof fn lemma_cache_or_low_zero(c: u8, x: u8, b: u8, n: u8)
    by (bit_vector)
    requires
        b < 8,
        1 <= n,
        b + n < 8,
        (c << b) >> b == 0,
        x >> n == 0,
    ensures
        ((c | (x << (((8 - b) - n) as u8))) << ((b + n) as u8)) >> ((b + n) as u8) == 0,
{
}

/// In the byte completed from the cache, the cached positions are
/// untouched by the incoming value's top bits.
proof fn lemma_first_byte_old_part(c: u8, w: u8, vm: u64, b: u8, n: u8, sh: u64, p: u64)
    by (bit_vector)
    requires
        b < 8,
        8 - b <= n,
        n <= 64,
        n < 64 ==> vm >> (n as u64) == 0,
        sh == (n as u64) + (b as u64) - 8,
        w == (vm >> sh) as u8,
        8 - b <= p,
        p < 8,
    ensures
        u64_bit((c | w) as u64, p) == u64_bit(c as u64, p),
{
}

/// In the byte completed from the cache, the free low positions receive
/// the top bits of the incoming value.
proof fn lemma_first_byte_new_part(c: u8, w: u8, vm: u64, b: u8, n: u8, sh: u64, p: u64, j: u64)
    by (bit_vector)
    requires
        b < 8,
        8 - b <= n,
        n <= 64,
        (c << b) >> b == 0,
        sh == (n as u64) + (b as u64) - 8,
        w == (vm >> sh) as u8,
        p < 8 - b,
        j == p + (n as u64) + (b as u64) - 8,
    ensures
        u64_bit((c | w) as u64, p) == u64_bit(vm, j),
{
}

/// A full byte taken from the middle of the value: position `p` of the
/// emitted byte is bit `m + p` of the value.
proof fn lemma_middle_byte(vm: u64, m: u8, p: u64)
    by (bit_vector)
    requires
        m <= 56,
        p < 8,
    ensures
        u64_bit(((vm >> m) as u8) as u64, p) == u64_bit(vm, ((m as u64) + p) as u64),
{
}

/// The refilled cache holds the low `m` bits of the value, left-justified.
proof fn lemma_tail_cache_bit(vm: u64, nc: u8, m: u8, p: u64, j: u64)
    by (bit_vector)
    requires
        0 < m,
        m < 8,
        nc == ((vm as u8) & (((1u8 << m) - 1) as u8)) << ((8 - m) as u8),
        8 - m <= p,
        p < 8,
        j == p + (m as u64) - 8,
    ensures
        u64_bit(nc as u64, p) == u64_bit(vm, j),
{
}

/// The refilled cache has zeros below its `m` pending bits.
proof fn lemma_tail_cache_low_zero(vm: u64, nc: u8, m: u8)
    by (bit_vector)
    requires
        0 < m,
        m < 8,
        nc == ((vm as u8) & (((1u8 << m) - 1) as u8)) << ((8 - m) as u8),
    ensures
        (nc << m) >> m == 0,
{
}

} // verus!
