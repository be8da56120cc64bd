//! Bit strings: the mathematical model shared by the bit sink, the bit
//! source and the stream format.
//!
//! A bit string is a `Seq<bool>`. Bytes and wide integers are laid out in it
//! most-significant-bit first, matching the order in which the sink writes
//! and the source reads.

use vstd::prelude::*;

verus! {

use vstd::arithmetic::power2::pow2;
use vstd::arithmetic::power2::lemma_pow2_unfold;
use vstd::arithmetic::power2::lemma_pow2_pos;
use vstd::arithmetic::div_mod::lemma_mod_breakdown;
use vstd::arithmetic::div_mod::lemma_small_mod;

/// Bit `k` of `v`, counting the least significant bit as bit 0.
pub open spec fn nth_bit(v: u64, k: nat) -> bool {
    (v >> (k as u64)) & 1u64 == 1u64
}

/// The low `count` bits of `v` as a bit string, most significant bit first.
pub open spec fn u64_bits(v: u64, count: nat) -> Seq<bool> {
    Seq::new(count, |i: int| nth_bit(v, (count - 1 - i) as nat))
}

/// All bits of a byte sequence, each byte most significant bit first.
pub open spec fn bytes_bits(s: Seq<u8>) -> Seq<bool> {
    Seq::new(s.len() * 8, |i: int| nth_bit(s[i / 8] as u64, (7 - i % 8) as nat))
}

/// The value of a bit string read most significant bit first.
pub open spec fn bits_val(bits: Seq<bool>) -> nat
    decreases bits.len(),
{
    if bits.len() == 0 {
        0
    } else {
        2 * bits_val(bits.drop_last()) + (if bits.last() {
            1nat
        } else {
            0nat
        })
    }
}

proof fn lemma_bits_val_pow2_zero()
    ensures
        pow2(0) == 1,
{
    vstd::arithmetic::power2::lemma2_to64();
}

/// Appending a bit doubles the value and adds the new bit.
pub proof fn lemma_bits_val_push(bits: Seq<bool>, b: bool)
    ensures
        bits_val(bits.push(b)) == 2 * bits_val(bits) + (if b {
            1nat
        } else {
            0nat
        }),
{
    assert(bits.push(b).drop_last() =~= bits);
}

/// Dropping the last of the low `count` bits of `v` leaves the low
/// `count - 1` bits of `v >> 1`.
pub proof fn lemma_u64_bits_drop_last(v: u64, count: nat)
    requires
        1 <= count <= 64,
    ensures
        u64_bits(v, count).drop_last() =~= u64_bits(v >> 1, (count - 1) as nat),
{
    assert forall|i: int| 0 <= i < count - 1 implies u64_bits(v, count)[i] == u64_bits(
        v >> 1,
        (count - 1) as nat,
    )[i] by {
        let s = (count - 2 - i) as u64;
        assert(s <= 62 ==> ((v >> 1) >> s) & 1 == (v >> vstd::prelude::add(s, 1)) & 1)
            by (bit_vector);
    }
}

/// Reading back the low `count` bits of `v` recovers `v` modulo
/// two to the power of `count`.
pub proof fn lemma_bits_val_u64(v: u64, count: nat)
    requires
        count <= 64,
    ensures
        bits_val(u64_bits(v, count)) == (v as nat) % pow2(count),
    decreases count,
{
    if count == 0 {
        lemma_bits_val_pow2_zero();
        assert((v as nat) % 1 == 0) by {
            vstd::arithmetic::div_mod::lemma_fundamental_div_mod(v as int, 1);
        }
    } else {
        lemma_u64_bits_drop_last(v, count);
        lemma_bits_val_u64(v >> 1, (count - 1) as nat);
        assert(v >> 1 == v / 2 && (v & 1) == v % 2) by (bit_vector);
        assert(u64_bits(v, count).last() == nth_bit(v, 0));
        assert(nth_bit(v, 0) == ((v & 1u64) == 1u64)) by {
            assert((v >> 0u64) == v) by (bit_vector);
        }
        lemma_pow2_unfold(count);
        lemma_pow2_pos((count - 1) as nat);
        lemma_mod_breakdown(v as int, 2, pow2((count - 1) as nat) as int);
        assert(bits_val(u64_bits(v, count)) == 2 * (((v / 2) as nat) % pow2((count - 1) as nat))
            + (v as nat) % 2);
    }
}

/// As above, exact when `v` fits in `count` bits.
pub proof fn lemma_bits_val_u64_small(v: u64, count: nat)
    requires
        count <= 64,
        (v as nat) < pow2(count),
    ensures
        bits_val(u64_bits(v, count)) == v,
{
    lemma_bits_val_u64(v, count);
    lemma_small_mod(v as nat, pow2(count));
}

/// Skipping the leading bit of the low `count` bits of `v` leaves the low
/// `count - 1` bits of `v`.
pub proof fn lemma_u64_bits_skip_first(v: u64, count: nat)
    requires
        1 <= count,
    ensures
        u64_bits(v, count).skip(1) =~= u64_bits(v, (count - 1) as nat),
{
}

} // verus!
