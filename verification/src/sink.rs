//! An append-only, byte-backed bit buffer.
//!
//! `BitSink` accepts requests to append the low `count` bits of a wide
//! integer, most-significant-bit first, growing its backing bytes on demand.
//! No operation reduces previously written bits. `finalize` hands the bytes
//! back, truncated to the minimum number of whole bytes, with every padding
//! bit after the written stream equal to zero.

use vstd::prelude::*;

verus! {

use crate::bits::bytes_bits;
use crate::bits::nth_bit;
use crate::bits::u64_bits;

/// An append-only bit buffer backed by owned bytes.
pub struct BitSink {
    bytes: Vec<u8>,
    len: usize,
}

impl BitSink {
    /// The bits written so far, in order.
    pub closed spec fn bits(&self) -> Seq<bool> {
        bytes_bits(self.bytes@).take(self.len as int)
    }

    /// The backing storage holds exactly the written bits, padded with zero
    /// bits to a whole number of bytes.
    pub closed spec fn wf(&self) -> bool {
        &&& self.bytes@.len() == (self.len + 7) / 8
        &&& forall|i: int|
            self.len <= i < self.bytes@.len() * 8 ==> !#[trigger] bytes_bits(self.bytes@)[i]
    }

    /// A sink that holds no bits yet.
    pub fn new() -> (r: BitSink)
        ensures
            r.wf(),
            r.bits() =~= Seq::<bool>::empty(),
    {
        BitSink { bytes: Vec::new(), len: 0 }
    }

    /// Appends one bit.
    pub fn write_bit(&mut self, b: bool)
        requires
            old(self).wf(),
            old(self).bits().len() < usize::MAX,
        ensures
            final(self).wf(),
            final(self).bits() =~= old(self).bits().push(b),
    {
        if self.len % 8 == 0 {
            self.bytes.push(0u8);
            proof {
                lemma_zero_byte_bits();
                assert forall|i: int|
                    0 <= i < self.bytes@.len() * 8 && i < old(self).bytes@.len() * 8 implies
                    bytes_bits(self.bytes@)[i] == bytes_bits(old(self).bytes@)[i] by {
                    assert(self.bytes@[i / 8] == old(self).bytes@[i / 8]);
                }
                assert forall|i: int|
                    old(self).bytes@.len() * 8 <= i < self.bytes@.len() * 8 implies !bytes_bits(
                    self.bytes@,
                )[i] by {
                    assert(self.bytes@[i / 8] == 0u8);
                    assert(!nth_bit(0u64, (7 - i % 8) as nat));
                }
            }
        }
        let idx = self.len / 8;
        let ghost mid = self.bytes@;
        if b {
            let sh: u8 = 7 - (self.len % 8) as u8;
            let cur = self.bytes[idx];
            let updated = cur | (1u8 << sh);
            self.bytes[idx] = updated;
            proof {
                lemma_or_bit_u8(cur, sh);
                assert(self.bytes@ =~= mid.update(idx as int, updated));
                assert forall|i: int|
                    0 <= i < self.bytes@.len() * 8 && i != self.len implies bytes_bits(
                    self.bytes@,
                )[i] == bytes_bits(mid)[i] by {
                    if i / 8 == idx {
                        assert(i % 8 != self.len % 8);
                        assert((7 - i % 8) as nat != sh as nat);
                        assert(nth_bit((cur | (1u8 << sh)) as u64, (7 - i % 8) as nat) == nth_bit(
                            cur as u64,
                            (7 - i % 8) as nat,
                        ));
                    } else {
                        assert(self.bytes@[i / 8] == mid[i / 8]);
                    }
                }
                assert(nth_bit((cur | (1u8 << sh)) as u64, sh as nat));
                assert(bytes_bits(self.bytes@)[self.len as int] == nth_bit(
                    updated as u64,
                    sh as nat,
                ));
            }
        } else {
            proof {
                assert(!bytes_bits(self.bytes@)[self.len as int]);
            }
        }
        proof {
            assert(bytes_bits(self.bytes@)[self.len as int] == b);
            assert(bytes_bits(self.bytes@).take(self.len + 1) =~= old(self).bits().push(b));
            assert(self.bytes@.len() == (self.len + 1 + 7) / 8);
            assert forall|i: int|
                self.len + 1 <= i < self.bytes@.len() * 8 implies !bytes_bits(self.bytes@)[i] by {
                assert(bytes_bits(self.bytes@)[i] == bytes_bits(mid)[i]);
                assert(!bytes_bits(mid)[i]);
            }
        }
        self.len = self.len + 1;
    }

    /// Appends the low `count` bits of `value`, most significant first.
    pub fn write_bits(&mut self, value: u64, count: u64)
        requires
            old(self).wf(),
            count <= 64,
            old(self).bits().len() + count <= usize::MAX,
        ensures
            final(self).wf(),
            final(self).bits() =~= old(self).bits() + u64_bits(value, count as nat),
    {
        let mut j: u64 = 0;
        while j < count
            invariant
                self.wf(),
                j <= count <= 64,
                old(self).bits().len() + count <= usize::MAX,
                self.bits() =~= old(self).bits() + u64_bits(value, count as nat).take(j as int),
            decreases count - j,
        {
            let bit = ((value >> (count - 1 - j)) & 1) == 1;
            proof {
                assert(u64_bits(value, count as nat)[j as int] == bit);
            }
            self.write_bit(bit);
            proof {
                assert(u64_bits(value, count as nat).take(j as int).push(bit) =~= u64_bits(
                    value,
                    count as nat,
                ).take(j + 1));
            }
            j = j + 1;
        }
        proof {
            assert(u64_bits(value, count as nat).take(count as int) =~= u64_bits(
                value,
                count as nat,
            ));
        }
    }

    /// Hands back the backing bytes: the written bits, most significant bit
    /// of each byte first, padded with zero bits to a whole byte.
    pub fn finalize(self) -> (r: Vec<u8>)
        requires
            self.wf(),
        ensures
            r@.len() == (self.bits().len() + 7) / 8,
            bytes_bits(r@).take(self.bits().len() as int) =~= self.bits(),
            forall|i: int|
                self.bits().len() <= i < r@.len() * 8 ==> !#[trigger] bytes_bits(r@)[i],
    {
        self.bytes
    }
}

/// A cleared byte contributes only zero bits.
proof fn lemma_zero_byte_bits()
    ensures
        forall|k: nat| k < 8 ==> !#[trigger] nth_bit(0u64, k),
{
    assert forall|k: nat| k < 8 implies !#[trigger] nth_bit(0u64, k) by {
        let kk = k as u64;
        assert((0u64 >> kk) & 1u64 != 1u64) by (bit_vector);
    }
}

/// Setting bit `sh` of a byte leaves every other bit alone and makes bit
/// `sh` one.
proof fn lemma_or_bit_u8(x: u8, sh: u8)
    requires
        sh < 8,
    ensures
        forall|k: nat|
            k < 8 && k != sh ==> (#[trigger] nth_bit((x | (1u8 << sh)) as u64, k) == nth_bit(
                x as u64,
                k,
            )),
        nth_bit((x | (1u8 << sh)) as u64, sh as nat),
{
    assert forall|k: nat|
        k < 8 && k != sh implies (#[trigger] nth_bit((x | (1u8 << sh)) as u64, k) == nth_bit(
        x as u64,
        k,
    )) by {
        let kk = k as u64;
        assert(kk < 8 && kk != sh ==> ((((x | (1u8 << sh)) as u64) >> kk) & 1u64 == ((x as u64)
            >> kk) & 1u64)) by (bit_vector);
    }
    assert((((x | (1u8 << sh)) as u64) >> (sh as u64)) & 1u64 == 1u64) by (bit_vector)
        requires
            sh < 8,
    ;
}

} // verus!
