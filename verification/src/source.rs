//! A bit-level reader over an immutable byte slice.
//!
//! `BitSource` mirrors `BitSink`: it consumes bits in the same
//! most-significant-bit-first order the sink writes them. It keeps a small
//! cache of unread bits and refills it one byte at a time as it empties, so
//! it never reads past the end of the slice; a request that cannot be
//! satisfied from the remaining bits fails with `UnexpectedEof`.

use vstd::prelude::*;

verus! {

use vstd::arithmetic::power2::pow2;
use crate::bits::bits_val;
use crate::bits::bytes_bits;
use crate::bits::lemma_bits_val_push;
use crate::bits::lemma_u64_bits_skip_first;
use crate::bits::nth_bit;
use crate::bits::u64_bits;
use crate::errors::CodecError;

/// A cursor over the bits of a byte slice.
pub struct BitSource<'a> {
    bytes: &'a [u8],
    cache: u64,
    valid: u8,
    cursor: usize,
}

impl<'a> BitSource<'a> {
    /// The bits not yet consumed, in the order they will be read.
    pub closed spec fn remaining(&self) -> Seq<bool> {
        u64_bits(self.cache, self.valid as nat) + bytes_bits(self.bytes@.skip(self.cursor as int))
    }

    /// The cursor stays within the slice and the cache within one byte.
    pub closed spec fn wf(&self) -> bool {
        &&& self.cursor <= self.bytes@.len()
        &&& self.valid <= 8
    }

    /// A source positioned at the first bit of `bytes`.
    pub fn new(bytes: &'a [u8]) -> (r: BitSource<'a>)
        ensures
            r.wf(),
            r.remaining() =~= bytes_bits(bytes@),
    {
        let r = BitSource { bytes, cache: 0, valid: 0, cursor: 0 };
        proof {
            assert(r.bytes@.skip(0) =~= r.bytes@);
        }
        r
    }

    /// Reads the next bit; fails if none is left.
    pub fn read_bit(&mut self) -> (r: Result<bool, CodecError>)
        requires
            old(self).wf(),
        ensures
            final(self).wf(),
            match r {
                Ok(b) => {
                    &&& old(self).remaining().len() > 0
                    &&& b == old(self).remaining()[0]
                    &&& final(self).remaining() =~= old(self).remaining().skip(1)
                },
                Err(e) => {
                    &&& e == CodecError::UnexpectedEof
                    &&& old(self).remaining().len() == 0
                    &&& final(self).remaining() =~= old(self).remaining()
                },
            },
    {
        if self.valid == 0 {
            if self.cursor == self.bytes.len() {
                proof {
                    assert(self.bytes@.skip(self.cursor as int) =~= Seq::<u8>::empty());
                }
                return Err(CodecError::UnexpectedEof);
            }
            let byte = *vstd::slice::slice_index_get(self.bytes, self.cursor);
            proof {
                lemma_refill(self.bytes@, self.cursor as int);
            }
            self.cache = byte as u64;
            self.valid = 8;
            self.cursor = self.cursor + 1;
        }
        let sh = (self.valid - 1) as u64;
        let bit = ((self.cache >> sh) & 1) == 1;
        proof {
            assert(self.remaining()[0] == nth_bit(self.cache, (self.valid - 1) as nat));
            lemma_u64_bits_skip_first(self.cache, self.valid as nat);
            assert(self.remaining().skip(1) =~= u64_bits(self.cache, (self.valid - 1) as nat)
                + bytes_bits(self.bytes@.skip(self.cursor as int)));
        }
        self.valid = self.valid - 1;
        Ok(bit)
    }

    /// Reads the next `count` bits as one unsigned value, most significant
    /// bit first; fails if fewer than `count` bits are left.
    pub fn read_bits(&mut self, count: u64) -> (r: Result<u64, CodecError>)
        requires
            old(self).wf(),
            1 <= count <= 64,
        ensures
            final(self).wf(),
            match r {
                Ok(v) => {
                    &&& old(self).remaining().len() >= count
                    &&& v == bits_val(old(self).remaining().take(count as int))
                    &&& (v as nat) < pow2(count as nat)
                    &&& final(self).remaining() =~= old(self).remaining().skip(count as int)
                },
                Err(e) => {
                    &&& e == CodecError::UnexpectedEof
                    &&& old(self).remaining().len() < count
                },
            },
    {
        let ghost orig = *self;
        let mut acc: u64 = 0;
        let mut j: u64 = 0;
        proof {
            lemma_pow2_64_bounds();
        }
        while j < count
            invariant
                orig == *old(self),
                self.wf(),
                j <= count <= 64,
                orig.remaining().len() >= j,
                self.remaining() =~= orig.remaining().skip(j as int),
                acc == bits_val(orig.remaining().take(j as int)),
                (acc as nat) < pow2(j as nat),
                pow2(63) == 0x8000000000000000,
                pow2(64) == 0x10000000000000000,
            decreases count - j,
        {
            let ghost before = *self;
            let bit = match self.read_bit() {
                Ok(b) => b,
                Err(e) => {
                    proof {
                        assert(orig.remaining().len() == j);
                    }
                    return Err(e);
                },
            };
            proof {
                let taken = orig.remaining().take(j as int);
                assert(before.remaining()[0] == orig.remaining()[j as int]);
                assert(self.remaining() =~= orig.remaining().skip(j + 1));
                lemma_bits_val_push(taken, bit);
                assert(taken.push(bit) =~= orig.remaining().take(j + 1));
                vstd::arithmetic::power2::lemma_pow2_unfold(j as nat + 1);
                if j < 63 {
                    vstd::arithmetic::power2::lemma_pow2_strictly_increases(j as nat, 63);
                }
                assert(pow2(j as nat) <= pow2(63));
                assert(acc < 0x8000000000000000);
            }
            acc = 2 * acc + (if bit {
                1
            } else {
                0
            });
            j = j + 1;
        }
        Ok(acc)
    }
}

/// Moving one byte from the slice into the cache leaves the unread bit
/// stream unchanged.
proof fn lemma_refill(s: Seq<u8>, c: int)
    requires
        0 <= c < s.len(),
    ensures
        bytes_bits(s.skip(c)) =~= u64_bits(s[c] as u64, 8) + bytes_bits(s.skip(c + 1)),
{
    assert forall|i: int| 0 <= i < bytes_bits(s.skip(c)).len() implies bytes_bits(s.skip(c))[i]
        == (u64_bits(s[c] as u64, 8) + bytes_bits(s.skip(c + 1)))[i] by {
        if i < 8 {
            assert(s.skip(c)[i / 8] == s[c]);
            assert(u64_bits(s[c] as u64, 8)[i] == nth_bit(s[c] as u64, (7 - i) as nat));
        } else {
            assert(s.skip(c)[i / 8] == s[c + i / 8]);
            assert(s.skip(c + 1)[(i - 8) / 8] == s[c + 1 + (i - 8) / 8]);
            assert(c + 1 + (i - 8) / 8 == c + i / 8);
            assert((i - 8) % 8 == i % 8);
        }
    }
}

/// Numeric bounds used when assembling a value bit by bit.
proof fn lemma_pow2_64_bounds()
    ensures
        pow2(63) == 0x8000000000000000,
        pow2(64) == 0x10000000000000000,
        pow2(0) == 1,
{
    vstd::arithmetic::power2::lemma2_to64();
    vstd::arithmetic::power2::lemma2_to64_rest();
}

} // verus!
