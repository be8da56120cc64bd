//! The encoder: delta-of-XOR compression of a sequence of raw 64-bit
//! samples into a byte buffer.
//!
//! Each value after the first is encoded as the XOR against its predecessor,
//! through the control-bit grammar of `crate::format`. A reserved sentinel
//! pattern is appended as the last logical value to mark end-of-stream; the
//! encoder refuses inputs that contain the sentinel rather than let the
//! stream terminate early.

use vstd::prelude::*;

verus! {

use crate::errors::CodecError;
use crate::format::Window;
use crate::format::encode_bits;
use crate::format::encode_tail_bits;
use crate::format::is_encoding_of;
use crate::format::lemma_encode_bits_len;
use crate::format::lemma_encode_tail_bits_len;
use crate::format::lemma_step_window_wf;
use crate::format::lemma_zero_runs;
use crate::format::opt_win_wf;
use crate::format::step_bits;
use crate::format::step_window;
use crate::sink::BitSink;

/// A reserved sample pattern from the quiet-NaN payload space, for callers
/// that do not need compatibility with a specific legacy writer.
pub const DEFAULT_SENTINEL: u64 = 0x7ff8_0000_0000_0001;

/// Appends one value's step to the sink and updates the window exactly as
/// `step_bits` and `step_window` describe.
fn encode_step(sink: &mut BitSink, prev: u64, win: &mut Option<Window>, cur: u64)
    requires
        old(sink).wf(),
        opt_win_wf(*old(win)),
        old(sink).bits().len() + 77 <= usize::MAX,
    ensures
        final(sink).wf(),
        opt_win_wf(*final(win)),
        final(sink).bits() =~= old(sink).bits() + step_bits(prev, *old(win), cur),
        *final(win) == step_window(prev, *old(win), cur),
{
    let d = cur ^ prev;
    if d == 0 {
        sink.write_bit(false);
        proof {
            assert(old(sink).bits().push(false) =~= old(sink).bits() + seq![false]);
        }
        return ;
    }
    sink.write_bit(true);
    proof {
        lemma_zero_runs(d);
    }
    let lz_raw = d.leading_zeros();
    let lz: u32 = if lz_raw > 31 {
        31
    } else {
        lz_raw
    };
    let tz: u32 = d.trailing_zeros();
    let mut reused = false;
    match *win {
        Some(w) => {
            if lz >= w.leading as u32 && tz >= w.trailing as u32 {
                reused = true;
                sink.write_bit(false);
                sink.write_bits(
                    d >> (w.trailing as u64),
                    64 - (w.leading as u64) - (w.trailing as u64),
                );
            }
        },
        None => {},
    }
    if !reused {
        sink.write_bit(true);
        sink.write_bits(lz as u64, 5);
        let m: u32 = 64 - lz - tz;
        sink.write_bits((m - 1) as u64, 6);
        sink.write_bits(d >> (tz as u64), m as u64);
        *win = Some(Window { leading: lz as u8, trailing: tz as u8 });
    }
    proof {
        lemma_step_window_wf(prev, *old(win), cur);
        assert(sink.bits() =~= old(sink).bits() + step_bits(prev, *old(win), cur));
    }
}

/// Encodes `values` into a byte buffer.
///
/// Fails with `ReservedValueCollision` exactly when some input value's bit
/// pattern equals `sentinel`; an empty input yields an empty buffer. The
/// bound on the input length is a machine limit: it keeps the bit length of
/// the stream, at most 77 bits per value, within `usize`.
pub fn gorilla_encode(values: &Vec<u64>, sentinel: u64) -> (r: Result<Vec<u8>, CodecError>)
    requires
        values@.len() <= usize::MAX / 128,
    ensures
        match r {
            Ok(bytes) => {
                &&& forall|k: int| 0 <= k < values@.len() ==> values@[k] != sentinel
                &&& is_encoding_of(bytes@, values@, sentinel)
            },
            Err(e) => {
                &&& e == CodecError::ReservedValueCollision
                &&& exists|k: int| 0 <= k < values@.len() && values@[k] == sentinel
            },
        },
{
    let n = values.len();
    let mut i: usize = 0;
    while i < n
        invariant
            i <= n,
            n == values@.len(),
            forall|k: int| 0 <= k < i ==> values@[k] != sentinel,
        decreases n - i,
    {
        if values[i] == sentinel {
            return Err(CodecError::ReservedValueCollision);
        }
        i = i + 1;
    }
    if n == 0 {
        let empty: Vec<u8> = Vec::new();
        proof {
            assert(crate::bits::bytes_bits(empty@).take(0) =~= encode_bits(values@, sentinel));
        }
        return Ok(empty);
    }
    proof {
        lemma_encode_bits_len(values@, sentinel);
        assert(128 * (values@.len() as int) <= usize::MAX) by {
            vstd::arithmetic::div_mod::lemma_fundamental_div_mod(usize::MAX as int, 128);
        }
    }
    let mut sink = BitSink::new();
    sink.write_bits(values[0], 64);
    let mut prev = values[0];
    let mut win: Option<Window> = None;
    proof {
        assert(sink.bits() =~= Seq::<bool>::empty() + crate::bits::u64_bits(values@[0], 64));
        assert(sink.bits() + encode_tail_bits(values@, 1, prev, win, sentinel) =~= encode_bits(
            values@,
            sentinel,
        ));
    }
    let mut i: usize = 1;
    while i < n
        invariant
            1 <= i <= n,
            n == values@.len(),
            n <= usize::MAX / 128,
            sink.wf(),
            opt_win_wf(win),
            prev == values@[i - 1],
            sink.bits() + encode_tail_bits(values@, i as int, prev, win, sentinel) =~= encode_bits(
                values@,
                sentinel,
            ),
            encode_bits(values@, sentinel).len() <= 77 * n + 64,
            128 * (n as int) <= usize::MAX,
        decreases n - i,
    {
        let cur = values[i];
        proof {
            lemma_encode_tail_bits_len(values@, i as int, prev, win, sentinel);
        }
        encode_step(&mut sink, prev, &mut win, cur);
        proof {
            assert(sink.bits() + encode_tail_bits(
                values@,
                i + 1,
                cur,
                win,
                sentinel,
            ) =~= encode_bits(values@, sentinel));
        }
        prev = cur;
        i = i + 1;
    }
    proof {
        lemma_encode_tail_bits_len(values@, n as int, prev, win, sentinel);
        assert(encode_tail_bits(values@, n as int, prev, win, sentinel) == step_bits(
            prev,
            win,
            sentinel,
        ));
    }
    encode_step(&mut sink, prev, &mut win, sentinel);
    proof {
        assert(sink.bits() =~= encode_bits(values@, sentinel));
    }
    let bytes = sink.finalize();
    proof {
        assert(crate::bits::bytes_bits(bytes@).take(encode_bits(values@, sentinel).len() as int)
            =~= encode_bits(values@, sentinel));
    }
    Ok(bytes)
}

} // verus!
