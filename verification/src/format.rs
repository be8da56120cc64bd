//! The stream format: what the encoder writes, bit for bit, and how a bit
//! string decodes.
//!
//! Per value after the first, the grammar is
//! `0` (repeat the previous value),
//! `1 0 <meaningful bits, width from the current window>` (delta through the
//! reused window), or
//! `1 1 <5-bit leading count> <6-bit count of meaningful bits minus one>
//! <meaningful bits>` (delta through a new window).
//! The stream ends with the step of the reserved sentinel value; there is no
//! length field.
//!
//! The leading-zero count of a delta is clamped to 31 before the meaningful
//! span is computed, so the 5-bit field is always faithful and a delta with
//! 32 or more leading zero bits still round-trips losslessly: its extra zero
//! bits are simply written out as part of the meaningful span.

use vstd::prelude::*;

verus! {

use vstd::std_specs::bits::axiom_u64_leading_zeros;
use vstd::std_specs::bits::axiom_u64_trailing_zeros;
use vstd::std_specs::bits::u64_leading_zeros;
use vstd::std_specs::bits::u64_trailing_zeros;
use crate::bits::bits_val;
use crate::bits::bytes_bits;
use crate::bits::u64_bits;

/// The span of meaningful bits last written explicitly: the count of leading
/// and of trailing zero bits around it.
#[derive(Clone, Copy, Debug, PartialEq, Eq, Structural)]
pub struct Window {
    /// Leading zero bits of the announced span; at most 31.
    pub leading: u8,
    /// Trailing zero bits of the announced span.
    pub trailing: u8,
}

/// A window announced by the stream: its meaningful span is nonempty and its
/// leading count fits the 5-bit field.
pub open spec fn win_wf(w: Window) -> bool {
    w.leading <= 31 && w.leading + w.trailing <= 63
}

/// Well-formedness of the encoder's window, which is absent until a delta is
/// written explicitly.
pub open spec fn opt_win_wf(w: Option<Window>) -> bool {
    w is Some ==> win_wf(w->0)
}

/// Leading-zero count of a delta, clamped to 31 so that it always fits the
/// 5-bit field of the stream.
pub open spec fn lead_of(d: u64) -> int {
    if u64_leading_zeros(d) >= 31 {
        31
    } else {
        u64_leading_zeros(d)
    }
}

/// Trailing-zero count of a delta.
pub open spec fn trail_of(d: u64) -> int {
    u64_trailing_zeros(d) as int
}

/// Count of meaningful bits of a nonzero delta: those between its clamped
/// leading zero run and its trailing zero run.
pub open spec fn meaning_of(d: u64) -> int {
    64 - lead_of(d) - trail_of(d)
}

/// Whether the meaningful span of `d` lies entirely inside the announced
/// window.
pub open spec fn fits_window(d: u64, w: Option<Window>) -> bool {
    &&& w is Some
    &&& lead_of(d) >= w->0.leading
    &&& trail_of(d) >= w->0.trailing
}

/// The bits one value contributes to the stream, given the previous value
/// and the current window.
pub open spec fn step_bits(prev: u64, w: Option<Window>, cur: u64) -> Seq<bool> {
    let d = cur ^ prev;
    if d == 0 {
        seq![false]
    } else if fits_window(d, w) {
        let wl = w->0.leading as u64;
        let wt = w->0.trailing as u64;
        seq![true, false] + u64_bits(d >> wt, (64 - wl - wt) as nat)
    } else {
        let t = trail_of(d) as u64;
        seq![true, true] + u64_bits(lead_of(d) as u64, 5) + u64_bits((meaning_of(d) - 1) as u64, 6)
            + u64_bits(d >> t, meaning_of(d) as nat)
    }
}

/// The window after one value: updated only on the explicit branch; the
/// zero-delta and reused-window branches leave it unchanged.
pub open spec fn step_window(prev: u64, w: Option<Window>, cur: u64) -> Option<Window> {
    let d = cur ^ prev;
    if d == 0 || fits_window(d, w) {
        w
    } else {
        Some(Window { leading: lead_of(d) as u8, trailing: trail_of(d) as u8 })
    }
}

/// The bits contributed by values `i..` of `s`, followed by the terminal
/// step of the sentinel.
pub open spec fn encode_tail_bits(
    s: Seq<u64>,
    i: int,
    prev: u64,
    w: Option<Window>,
    sentinel: u64,
) -> Seq<bool>
    decreases s.len() - i,
        when 0 <= i <= s.len()
{
    if i >= s.len() {
        step_bits(prev, w, sentinel)
    } else {
        step_bits(prev, w, s[i]) + encode_tail_bits(
            s,
            i + 1,
            s[i],
            step_window(prev, w, s[i]),
            sentinel,
        )
    }
}

/// The full bit stream for `s`: empty for an empty input, else the first
/// value as an unconditional 64-bit field followed by one step per further
/// value and the sentinel's terminal step.
pub open spec fn encode_bits(s: Seq<u64>, sentinel: u64) -> Seq<bool> {
    if s.len() == 0 {
        Seq::empty()
    } else {
        u64_bits(s[0], 64) + encode_tail_bits(s, 1, s[0], None, sentinel)
    }
}

/// `bytes` is the encoder's output for `s`: the packed stream bits followed
/// by zero padding to a whole byte.
pub open spec fn is_encoding_of(bytes: Seq<u8>, s: Seq<u64>, sentinel: u64) -> bool {
    let stream = encode_bits(s, sentinel);
    &&& bytes.len() == (stream.len() + 7) / 8
    &&& bytes_bits(bytes).take(stream.len() as int) == stream
    &&& forall|i: int| stream.len() <= i < bytes.len() * 8 ==> !#[trigger] bytes_bits(bytes)[i]
}

/// One decoding pass over a bit string, after the first value: the values
/// recovered and the count of bits consumed. `None` means the bits ran out
/// before the sentinel appeared, or the stream announced a window whose
/// counts cannot belong to any delta: the stream is truncated or corrupt.
pub open spec fn decode_loop(bits: Seq<bool>, prev: u64, w: Window, sentinel: u64) -> Option<
    (Seq<u64>, int),
>
    decreases bits.len(),
{
    if bits.len() == 0 {
        None
    } else if !bits[0] {
        match decode_loop(bits.skip(1), prev, w, sentinel) {
            None => None,
            Some(r) => Some((seq![prev] + r.0, 1 + r.1)),
        }
    } else if bits.len() < 2 {
        None
    } else if !bits[1] {
        let m = 64 - w.leading - w.trailing;
        if m < 1 {
            None
        } else if bits.len() < 2 + m {
            None
        } else {
            let v = bits_val(bits.subrange(2, 2 + m)) as u64;
            let delta = v << (w.trailing as u64);
            let cur = prev ^ delta;
            if cur == sentinel {
                Some((Seq::empty(), 2 + m))
            } else {
                match decode_loop(bits.skip(2 + m), cur, w, sentinel) {
                    None => None,
                    Some(r) => Some((seq![cur] + r.0, 2 + m + r.1)),
                }
            }
        }
    } else if bits.len() < 13 {
        None
    } else {
        let l = bits_val(bits.subrange(2, 7)) as int;
        let m = bits_val(bits.subrange(7, 13)) as int + 1;
        if l + m > 64 {
            None
        } else if bits.len() < 13 + m {
            None
        } else {
            let t = 64 - l - m;
            let v = bits_val(bits.subrange(13, 13 + m)) as u64;
            let delta = v << (t as u64);
            let cur = prev ^ delta;
            let w2 = Window { leading: l as u8, trailing: t as u8 };
            if cur == sentinel {
                Some((Seq::empty(), 13 + m))
            } else {
                match decode_loop(bits.skip(13 + m), cur, w2, sentinel) {
                    None => None,
                    Some(r) => Some((seq![cur] + r.0, 13 + m + r.1)),
                }
            }
        }
    }
}

/// The decoded sequence for a whole buffer's bits: the empty sequence for an
/// empty buffer, `None` for a truncated or corrupt stream, and otherwise the
/// first 64-bit value followed by everything the loop recovers before the
/// sentinel.
pub open spec fn decode_spec(bits: Seq<bool>, sentinel: u64) -> Option<Seq<u64>> {
    if bits.len() == 0 {
        Some(Seq::empty())
    } else if bits.len() < 64 {
        None
    } else {
        let first = bits_val(bits.take(64)) as u64;
        match decode_loop(bits.skip(64), first, Window { leading: 0, trailing: 0 }, sentinel) {
            None => None,
            Some(r) => Some(seq![first] + r.0),
        }
    }
}

/// The zero runs of a nonzero delta: both counts are at most 63 and leave at
/// least one meaningful bit between them.
pub proof fn lemma_zero_runs(d: u64)
    requires
        d != 0,
    ensures
        0 <= u64_leading_zeros(d) <= 63,
        0 <= u64_trailing_zeros(d) <= 63,
        u64_leading_zeros(d) + u64_trailing_zeros(d) <= 63,
        0 <= lead_of(d) <= 31,
        lead_of(d) <= u64_leading_zeros(d),
        1 <= meaning_of(d) <= 64,
        lead_of(d) + trail_of(d) <= 63,
{
    axiom_u64_leading_zeros(d);
    axiom_u64_trailing_zeros(d);
    let lz = u64_leading_zeros(d);
    let tz = u64_trailing_zeros(d);
    if 63 - lz < tz {
        assert((d >> vstd::prelude::sub(63u64, lz as u64)) & 1u64 == 0u64);
        assert((d >> vstd::prelude::sub(63u64, lz as u64)) & 1u64 != 0u64);
    }
}

/// Every step contributes between 1 and 77 bits to the stream.
pub proof fn lemma_step_bits_len(prev: u64, w: Option<Window>, cur: u64)
    requires
        opt_win_wf(w),
    ensures
        1 <= step_bits(prev, w, cur).len() <= 77,
{
    let d = cur ^ prev;
    if d != 0 && !fits_window(d, w) {
        lemma_zero_runs(d);
    }
}

/// The bits of values `i..` number at most 77 per remaining value plus the
/// terminal step.
pub proof fn lemma_encode_tail_bits_len(
    s: Seq<u64>,
    i: int,
    prev: u64,
    w: Option<Window>,
    sentinel: u64,
)
    requires
        0 <= i <= s.len(),
        opt_win_wf(w),
    ensures
        1 <= encode_tail_bits(s, i, prev, w, sentinel).len() <= 77 * (s.len() - i) + 77,
    decreases s.len() - i,
{
    lemma_step_bits_len(prev, w, sentinel);
    if i < s.len() {
        lemma_step_bits_len(prev, w, s[i]);
        lemma_step_window_wf(prev, w, s[i]);
        lemma_encode_tail_bits_len(s, i + 1, s[i], step_window(prev, w, s[i]), sentinel);
    }
}

/// Stepping keeps the window well formed.
pub proof fn lemma_step_window_wf(prev: u64, w: Option<Window>, cur: u64)
    requires
        opt_win_wf(w),
    ensures
        opt_win_wf(step_window(prev, w, cur)),
{
    let d = cur ^ prev;
    if d != 0 && !fits_window(d, w) {
        lemma_zero_runs(d);
    }
}

/// The whole stream holds at most 77 bits per value plus the 64-bit first
/// field and the terminal step.
pub proof fn lemma_encode_bits_len(s: Seq<u64>, sentinel: u64)
    ensures
        encode_bits(s, sentinel).len() <= 77 * s.len() + 64,
{
    if s.len() > 0 {
        lemma_encode_tail_bits_len(s, 1, s[0], None, sentinel);
    }
}

} // verus!
