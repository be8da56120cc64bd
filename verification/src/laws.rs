//! The codec's laws: decoding inverts encoding, and a truncated buffer
//! never decodes silently.
//!
//! Everything here is proof; the statements are over the same spec
//! functions that the encoder's and decoder's contracts use, so the laws
//! compose with those contracts at every call site.

use vstd::prelude::*;

verus! {

use vstd::arithmetic::div_mod::lemma_multiply_divide_lt;
use vstd::arithmetic::power2::lemma2_to64;
use vstd::arithmetic::power2::lemma_pow2_adds;
use vstd::arithmetic::power2::lemma_pow2_pos;
use vstd::arithmetic::power2::lemma_pow2_strictly_increases;
use vstd::arithmetic::power2::pow2;
use vstd::bits::lemma_u64_shr_is_div;
use vstd::std_specs::bits::axiom_u64_leading_zeros;
use vstd::std_specs::bits::axiom_u64_trailing_zeros;
use vstd::std_specs::bits::u64_leading_zeros;
use vstd::std_specs::bits::u64_trailing_zeros;
use crate::bits::bits_val;
use crate::bits::lemma_bits_val_u64_small;
use crate::bits::u64_bits;
use crate::bits::bytes_bits;
use crate::format::Window;
use crate::format::decode_loop;
use crate::format::decode_spec;
use crate::format::encode_bits;
use crate::format::encode_tail_bits;
use crate::format::is_encoding_of;
use crate::format::lemma_encode_tail_bits_len;
use crate::format::lemma_step_window_wf;
use crate::format::fits_window;
use crate::format::lead_of;
use crate::format::lemma_zero_runs;
use crate::format::meaning_of;
use crate::format::opt_win_wf;
use crate::format::step_bits;
use crate::format::step_window;
use crate::format::trail_of;
use crate::format::win_wf;

/// A nonzero delta is below two to the power of `64 - l` whenever `l` is at
/// most its leading-zero count.
proof fn lemma_delta_fits(d: u64, l: int)
    requires
        d != 0,
        0 <= l <= u64_leading_zeros(d),
    ensures
        (d as nat) < pow2((64 - l) as nat),
{
    axiom_u64_leading_zeros(d);
    let lz = u64_leading_zeros(d);
    if lz == 0 {
        lemma2_to64();
    } else {
        let sh = (64 - lz) as u64;
        assert(d >> sh == 0);
        lemma_u64_shr_is_div(d, sh);
        lemma_pow2_pos(sh as nat);
        vstd::arithmetic::div_mod::lemma_fundamental_div_mod(d as int, pow2(sh as nat) as int);
        vstd::arithmetic::div_mod::lemma_mod_bound(d as int, pow2(sh as nat) as int);
        assert((d as nat) < pow2((64 - lz) as nat));
    }
    if l < lz {
        lemma_pow2_strictly_increases((64 - lz) as nat, (64 - l) as nat);
    }
}

/// The meaningful bits of a nonzero delta, shifted down by `t`, fit in
/// `64 - l - t` bits whenever `l` and `t` are at most its zero-run counts.
proof fn lemma_shifted_fits(d: u64, l: int, t: int)
    requires
        d != 0,
        0 <= l <= u64_leading_zeros(d),
        0 <= t <= 63,
        l + t <= 63,
    ensures
        ((d >> (t as u64)) as nat) < pow2((64 - l - t) as nat),
{
    lemma_delta_fits(d, l);
    lemma_u64_shr_is_div(d, t as u64);
    lemma_pow2_adds((64 - l - t) as nat, t as nat);
    lemma_pow2_pos(t as nat);
    lemma_multiply_divide_lt(
        d as int,
        pow2(t as nat) as int,
        pow2((64 - l - t) as nat) as int,
    );
}

/// Shifting the trailing zeros out of a delta and back in reconstructs it.
proof fn lemma_reconstruct(d: u64, t: u64)
    requires
        d != 0,
        t <= u64_trailing_zeros(d),
    ensures
        ((d >> t) << t) == d,
{
    axiom_u64_trailing_zeros(d);
    let tz = u64_trailing_zeros(d) as u64;
    assert(((d >> t) << t) == d) by (bit_vector)
        requires
            d << vstd::prelude::sub(64u64, tz) == 0,
            tz <= 63u64,
            t <= tz,
    ;
}

/// XOR facts: applying a delta to the previous value recovers the current
/// one, and a delta is zero exactly for equal values.
proof fn lemma_xor(a: u64, b: u64)
    by (bit_vector)
    ensures
        b ^ (a ^ b) == a,
        (b ^ a) ^ b == a,
        (a ^ b == 0) <==> a == b,
        a ^ b == b ^ a,
{
}

/// The decoder's window after one step: the window the stream announced on
/// the explicit branch, the old one otherwise.
spec fn dwin_after(prev: u64, we: Option<Window>, wd: Window, cur: u64) -> Window {
    match step_window(prev, we, cur) {
        Some(x) => x,
        None => wd,
    }
}

/// Decoding one step of the stream recovers exactly the value the encoder
/// stepped over, consumes exactly that step's bits, and tracks the
/// encoder's window.
proof fn lemma_step_decode(
    prev: u64,
    we: Option<Window>,
    wd: Window,
    cur: u64,
    rest: Seq<bool>,
    sentinel: u64,
)
    requires
        prev != sentinel,
        opt_win_wf(we),
        win_wf(wd),
        we is Some ==> wd == we->0,
    ensures
        win_wf(dwin_after(prev, we, wd, cur)),
        step_window(prev, we, cur) is Some ==> dwin_after(prev, we, wd, cur) == step_window(
            prev,
            we,
            cur,
        )->0,
        decode_loop(step_bits(prev, we, cur) + rest, prev, wd, sentinel) == (if cur == sentinel {
            Some((Seq::<u64>::empty(), step_bits(prev, we, cur).len() as int))
        } else {
            match decode_loop(rest, cur, dwin_after(prev, we, wd, cur), sentinel) {
                None => None::<(Seq<u64>, int)>,
                Some(r) => Some((seq![cur] + r.0, step_bits(prev, we, cur).len() + r.1)),
            }
        }),
{
    let d = cur ^ prev;
    let sb = step_bits(prev, we, cur);
    let b = sb + rest;
    lemma_xor(cur, prev);
    if d == 0 {
        assert(cur == prev);
        assert(b[0] == false);
        assert(b.skip(1) =~= rest);
        assert(dwin_after(prev, we, wd, cur) == wd);
        match decode_loop(rest, cur, wd, sentinel) {
            None => {},
            Some(r) => {
                assert(decode_loop(b, prev, wd, sentinel) == Some((seq![prev] + r.0, 1 + r.1)));
            },
        }
    } else {
        lemma_zero_runs(d);
        axiom_u64_leading_zeros(d);
        if fits_window(d, we) {
            let wl = we->0.leading as u64;
            let wt = we->0.trailing as u64;
            let m = (64 - wl - wt) as int;
            let dv = d >> wt;
            assert(sb =~= seq![true, false] + u64_bits(dv, m as nat));
            assert(sb.len() == 2 + m);
            assert(b[0] == true);
            assert(b[1] == false);
            assert(64 - wd.leading - wd.trailing == m);
            assert(b.len() >= 2 + m);
            assert(b.subrange(2, 2 + m) =~= u64_bits(dv, m as nat)) by {
                assert forall|i: int| 0 <= i < m implies b.subrange(2, 2 + m)[i] == #[trigger] u64_bits(
                    dv,
                    m as nat,
                )[i] by {
                    assert(b[2 + i] == sb[2 + i]);
                    assert(sb[2 + i] == u64_bits(dv, m as nat)[i]);
                }
            }
            lemma_shifted_fits(d, wl as int, wt as int);
            lemma_bits_val_u64_small(dv, m as nat);
            assert(bits_val(b.subrange(2, 2 + m)) as u64 == dv);
            lemma_reconstruct(d, wt);
            assert(dv << (wd.trailing as u64) == d);
            assert(prev ^ d == cur);
            assert(b.skip(2 + m) =~= rest);
            assert(step_window(prev, we, cur) == we);
            assert(dwin_after(prev, we, wd, cur) == wd);
        } else {
            let l5 = lead_of(d) as u64;
            let m1 = (meaning_of(d) - 1) as u64;
            let tz = trail_of(d) as u64;
            let m = meaning_of(d);
            let dv = d >> tz;
            assert(sb =~= seq![true, true] + u64_bits(l5, 5) + u64_bits(m1, 6) + u64_bits(
                dv,
                m as nat,
            ));
            assert(sb.len() == 13 + m);
            assert(b[0] == true);
            assert(b[1] == true);
            assert(b.len() >= 13 + m);
            assert(b.subrange(2, 7) =~= u64_bits(l5, 5)) by {
                assert forall|i: int| 0 <= i < 5 implies b.subrange(2, 7)[i] == #[trigger] u64_bits(
                    l5,
                    5,
                )[i] by {
                    assert(b[2 + i] == sb[2 + i]);
                    assert(sb[2 + i] == u64_bits(l5, 5)[i]);
                }
            }
            assert(b.subrange(7, 13) =~= u64_bits(m1, 6)) by {
                assert forall|i: int| 0 <= i < 6 implies b.subrange(7, 13)[i] == #[trigger] u64_bits(
                    m1,
                    6,
                )[i] by {
                    assert(b[7 + i] == sb[7 + i]);
                    assert(sb[7 + i] == u64_bits(m1, 6)[i]);
                }
            }
            assert(b.subrange(13, 13 + m) =~= u64_bits(dv, m as nat)) by {
                assert forall|i: int| 0 <= i < m implies b.subrange(13, 13 + m)[i] == #[trigger] u64_bits(
                    dv,
                    m as nat,
                )[i] by {
                    assert(b[13 + i] == sb[13 + i]);
                    assert(sb[13 + i] == u64_bits(dv, m as nat)[i]);
                }
            }
            lemma2_to64();
            lemma_bits_val_u64_small(l5, 5);
            lemma_bits_val_u64_small(m1, 6);
            assert(bits_val(b.subrange(2, 7)) as int == lead_of(d));
            assert(bits_val(b.subrange(7, 13)) as int + 1 == m);
            assert(lead_of(d) + m == 64 - trail_of(d));
            assert(lead_of(d) + m <= 64);
            lemma_shifted_fits(d, lead_of(d), trail_of(d));
            lemma_bits_val_u64_small(dv, m as nat);
            assert(bits_val(b.subrange(13, 13 + m)) as u64 == dv);
            lemma_reconstruct(d, tz);
            assert(64 - lead_of(d) - m == trail_of(d));
            assert(dv << (trail_of(d) as u64) == d);
            assert(prev ^ d == cur);
            assert(b.skip(13 + m) =~= rest);
            assert(step_window(prev, we, cur) == Some(
                Window { leading: lead_of(d) as u8, trailing: trail_of(d) as u8 },
            ));
            assert(dwin_after(prev, we, wd, cur) == Window {
                leading: lead_of(d) as u8,
                trailing: trail_of(d) as u8,
            });
            assert(win_wf(dwin_after(prev, we, wd, cur)));
        }
    }
}

/// Decoding the stream of values `i..` plus any trailing bits recovers
/// exactly those values and consumes exactly the stream's bits.
proof fn lemma_decode_tail(
    s: Seq<u64>,
    i: int,
    prev: u64,
    we: Option<Window>,
    wd: Window,
    tail: Seq<bool>,
    sentinel: u64,
)
    requires
        0 <= i <= s.len(),
        prev != sentinel,
        forall|j: int| i <= j < s.len() ==> s[j] != sentinel,
        opt_win_wf(we),
        win_wf(wd),
        we is Some ==> wd == we->0,
    ensures
        decode_loop(encode_tail_bits(s, i, prev, we, sentinel) + tail, prev, wd, sentinel) == Some(
            (s.skip(i), encode_tail_bits(s, i, prev, we, sentinel).len() as int),
        ),
    decreases s.len() - i,
{
    if i == s.len() {
        lemma_step_decode(prev, we, wd, sentinel, tail, sentinel);
        assert(s.skip(i) =~= Seq::<u64>::empty());
    } else {
        let cur = s[i];
        let we2 = step_window(prev, we, cur);
        let wd2 = dwin_after(prev, we, wd, cur);
        let sb = step_bits(prev, we, cur);
        let rest_tail = encode_tail_bits(s, i + 1, cur, we2, sentinel);
        assert((sb + rest_tail) + tail =~= sb + (rest_tail + tail));
        lemma_step_decode(prev, we, wd, cur, rest_tail + tail, sentinel);
        lemma_step_window_wf(prev, we, cur);
        lemma_decode_tail(s, i + 1, cur, we2, wd2, tail, sentinel);
        assert(seq![cur] + s.skip(i + 1) =~= s.skip(i));
        assert(encode_tail_bits(s, i, prev, we, sentinel).len() == sb.len() + rest_tail.len());
    }
}

/// Lossless round trip: decoding any buffer the encoder produced for a
/// sequence without the sentinel yields exactly that sequence, in order.
pub proof fn lemma_round_trip(s: Seq<u64>, bytes: Seq<u8>, sentinel: u64)
    requires
        forall|i: int| 0 <= i < s.len() ==> s[i] != sentinel,
        is_encoding_of(bytes, s, sentinel),
    ensures
        decode_spec(bytes_bits(bytes), sentinel) == Some(s),
{
    let stream = encode_bits(s, sentinel);
    let all = bytes_bits(bytes);
    if s.len() == 0 {
        assert(stream.len() == 0);
        assert(bytes.len() == 0);
        assert(all =~= Seq::<bool>::empty());
        assert(s =~= Seq::<u64>::empty());
    } else {
        lemma_encode_tail_bits_len(s, 1, s[0], None, sentinel);
        let tailbits = encode_tail_bits(s, 1, s[0], None, sentinel);
        assert(stream.len() == 64 + tailbits.len());
        vstd::arithmetic::div_mod::lemma_fundamental_div_mod(stream.len() as int + 7, 8);
        assert(all.len() == bytes.len() * 8);
        assert(all.len() >= stream.len());
        assert(all.take(64) =~= u64_bits(s[0], 64)) by {
            assert forall|i: int| 0 <= i < 64 implies all.take(64)[i] == #[trigger] u64_bits(
                s[0],
                64,
            )[i] by {
                assert(all[i] == bytes_bits(bytes).take(stream.len() as int)[i]);
                assert(stream[i] == u64_bits(s[0], 64)[i]);
            }
        }
        lemma2_to64();
        lemma_bits_val_u64_small(s[0], 64);
        assert(bits_val(all.take(64)) as u64 == s[0]);
        let pad = all.skip(stream.len() as int);
        assert(all.skip(64) =~= tailbits + pad) by {
            assert forall|i: int| 0 <= i < all.len() - 64 implies all.skip(64)[i] == (tailbits
                + pad)[i] by {
                if i < tailbits.len() {
                    assert(all[64 + i] == bytes_bits(bytes).take(stream.len() as int)[64 + i]);
                    assert(stream[64 + i] == tailbits[i]);
                } else {
                    assert((tailbits + pad)[i] == pad[i - tailbits.len()]);
                    assert(pad[i - tailbits.len()] == all[stream.len() + (i - tailbits.len())]);
                    assert(stream.len() + (i - tailbits.len()) == 64 + i);
                }
            }
        }
        lemma_decode_tail(s, 1, s[0], None, Window { leading: 0, trailing: 0 }, pad, sentinel);
        assert(decode_loop(
            all.skip(64),
            s[0],
            Window { leading: 0, trailing: 0 },
            sentinel,
        ) == Some((s.skip(1), tailbits.len() as int)));
        assert(seq![s[0]] + s.skip(1) =~= s);
    }
}

/// Encoding nothing yields no bits, and an empty bit string decodes to the
/// empty sequence of samples.
pub proof fn lemma_empty_codec(sentinel: u64)
    ensures
        encode_bits(Seq::<u64>::empty(), sentinel) =~= Seq::<bool>::empty(),
        decode_spec(Seq::<bool>::empty(), sentinel) == Some(Seq::<u64>::empty()),
{
}

/// The bits of a byte-level prefix are a bit-level prefix.
proof fn lemma_bytes_bits_prefix(bytes: Seq<u8>, p: int)
    requires
        0 <= p <= bytes.len(),
    ensures
        bytes_bits(bytes.take(p)) =~= bytes_bits(bytes).take(p * 8),
{
    assert forall|i: int| 0 <= i < p * 8 implies bytes_bits(bytes.take(p))[i] == bytes_bits(
        bytes,
    )[i] by {
        assert(bytes.take(p)[i / 8] == bytes[i / 8]);
    }
}

/// A successful decoding pass consumes at least one bit and no more than
/// the bits it was given.
proof fn lemma_decode_loop_consumed(bits: Seq<bool>, prev: u64, w: Window, sentinel: u64)
    requires
        decode_loop(bits, prev, w, sentinel) is Some,
    ensures
        1 <= (decode_loop(bits, prev, w, sentinel)->0).1 <= bits.len(),
    decreases bits.len(),
{
    if !bits[0] {
        lemma_decode_loop_consumed(bits.skip(1), prev, w, sentinel);
    } else if !bits[1] {
        let mb = 64 - w.leading - w.trailing;
        let v = bits_val(bits.subrange(2, 2 + mb)) as u64;
        let delta = v << (w.trailing as u64);
        let cur = prev ^ delta;
        if cur != sentinel {
            lemma_decode_loop_consumed(bits.skip(2 + mb), cur, w, sentinel);
        }
    } else {
        let l = bits_val(bits.subrange(2, 7)) as int;
        let mm = bits_val(bits.subrange(7, 13)) as int + 1;
        let tt = 64 - l - mm;
        let v = bits_val(bits.subrange(13, 13 + mm)) as u64;
        let delta = v << (tt as u64);
        let cur = prev ^ delta;
        let w2 = Window { leading: l as u8, trailing: tt as u8 };
        if cur != sentinel {
            lemma_decode_loop_consumed(bits.skip(13 + mm), cur, w2, sentinel);
        }
    }
}

/// A strict prefix of the bits a successful decoding pass consumed cannot
/// itself decode: some read runs out of bits first.
proof fn lemma_decode_loop_prefix(bits: Seq<bool>, prev: u64, w: Window, sentinel: u64, m: int)
    requires
        decode_loop(bits, prev, w, sentinel) is Some,
        0 <= m < (decode_loop(bits, prev, w, sentinel)->0).1,
    ensures
        decode_loop(bits.take(m), prev, w, sentinel) is None,
    decreases bits.len(),
{
    let n = (decode_loop(bits, prev, w, sentinel)->0).1;
    let t = bits.take(m);
    lemma_decode_loop_consumed(bits, prev, w, sentinel);
    assert(m < bits.len());
    if m == 0 {
        assert(t.len() == 0);
    } else if !bits[0] {
        assert(t[0] == bits[0]);
        assert(decode_loop(bits.skip(1), prev, w, sentinel) is Some);
        assert(t.skip(1) =~= bits.skip(1).take(m - 1));
        lemma_decode_loop_prefix(bits.skip(1), prev, w, sentinel, m - 1);
    } else if m == 1 {
        assert(t[0] == bits[0]);
        assert(t.len() == 1);
    } else if !bits[1] {
        let mb = 64 - w.leading - w.trailing;
        assert(t[0] == bits[0] && t[1] == bits[1]);
        if m < 2 + mb {
            assert(t.len() < 2 + mb);
        } else {
            assert(t.subrange(2, 2 + mb) =~= bits.subrange(2, 2 + mb));
            let v = bits_val(bits.subrange(2, 2 + mb)) as u64;
            let delta = v << (w.trailing as u64);
            let cur = prev ^ delta;
            assert(cur != sentinel);
            assert(decode_loop(bits.skip(2 + mb), cur, w, sentinel) is Some);
            assert(t.skip(2 + mb) =~= bits.skip(2 + mb).take(m - (2 + mb)));
            lemma_decode_loop_prefix(bits.skip(2 + mb), cur, w, sentinel, m - (2 + mb));
        }
    } else {
        assert(t[0] == bits[0] && t[1] == bits[1]);
        if m < 13 {
            assert(t.len() < 13);
        } else {
            assert(t.subrange(2, 7) =~= bits.subrange(2, 7));
            assert(t.subrange(7, 13) =~= bits.subrange(7, 13));
            let l = bits_val(bits.subrange(2, 7)) as int;
            let mm = bits_val(bits.subrange(7, 13)) as int + 1;
            if m < 13 + mm {
                assert(t.len() < 13 + mm);
            } else {
                assert(t.subrange(13, 13 + mm) =~= bits.subrange(13, 13 + mm));
                let tt = 64 - l - mm;
                let v = bits_val(bits.subrange(13, 13 + mm)) as u64;
                let delta = v << (tt as u64);
                let cur = prev ^ delta;
                let w2 = Window { leading: l as u8, trailing: tt as u8 };
                assert(cur != sentinel);
                assert(decode_loop(bits.skip(13 + mm), cur, w2, sentinel) is Some);
                assert(t.skip(13 + mm) =~= bits.skip(13 + mm).take(m - (13 + mm)));
                lemma_decode_loop_prefix(bits.skip(13 + mm), cur, w2, sentinel, m - (13 + mm));
            }
        }
    }
}

/// Truncating a nonempty encoded buffer by trailing bytes, while at least
/// one byte remains, makes decoding fail rather than silently return a
/// shorter sequence. (Truncating to nothing leaves the empty buffer, which
/// by design decodes to the empty sequence.)
pub proof fn lemma_truncation_fails(s: Seq<u64>, bytes: Seq<u8>, sentinel: u64, k: int)
    requires
        forall|i: int| 0 <= i < s.len() ==> s[i] != sentinel,
        is_encoding_of(bytes, s, sentinel),
        s.len() > 0,
        0 < k < bytes.len(),
    ensures
        decode_spec(bytes_bits(bytes.take(bytes.len() - k)), sentinel) is None,
{
    let stream = encode_bits(s, sentinel);
    let all = bytes_bits(bytes);
    let p = bytes.len() - k;
    let tb = bytes_bits(bytes.take(p));
    lemma_bytes_bits_prefix(bytes, p);
    lemma_encode_tail_bits_len(s, 1, s[0], None, sentinel);
    let tailbits = encode_tail_bits(s, 1, s[0], None, sentinel);
    assert(stream.len() == 64 + tailbits.len());
    vstd::arithmetic::div_mod::lemma_fundamental_div_mod(stream.len() as int + 7, 8);
    assert(bytes.len() * 8 <= stream.len() + 7);
    assert(tb.len() == p * 8);
    assert(tb.len() < stream.len());
    assert(tb.len() >= 8);
    if tb.len() < 64 {
        assert(decode_spec(tb, sentinel) is None);
    } else {
        assert(tb.take(64) =~= all.take(64));
        assert(all.take(64) =~= u64_bits(s[0], 64)) by {
            assert forall|i: int| 0 <= i < 64 implies all.take(64)[i] == #[trigger] u64_bits(
                s[0],
                64,
            )[i] by {
                assert(all[i] == bytes_bits(bytes).take(stream.len() as int)[i]);
                assert(stream[i] == u64_bits(s[0], 64)[i]);
            }
        }
        lemma2_to64();
        lemma_bits_val_u64_small(s[0], 64);
        assert(bits_val(tb.take(64)) as u64 == s[0]);
        let pad = all.skip(stream.len() as int);
        assert(all.skip(64) =~= tailbits + pad) by {
            assert forall|i: int| 0 <= i < all.len() - 64 implies all.skip(64)[i] == (tailbits
                + pad)[i] by {
                if i < tailbits.len() {
                    assert(all[64 + i] == bytes_bits(bytes).take(stream.len() as int)[64 + i]);
                    assert(stream[64 + i] == tailbits[i]);
                } else {
                    assert((tailbits + pad)[i] == pad[i - tailbits.len()]);
                    assert(pad[i - tailbits.len()] == all[stream.len() + (i - tailbits.len())]);
                    assert(stream.len() + (i - tailbits.len()) == 64 + i);
                }
            }
        }
        let w0 = Window { leading: 0, trailing: 0 };
        lemma_decode_tail(s, 1, s[0], None, w0, pad, sentinel);
        assert(decode_loop(all.skip(64), s[0], w0, sentinel) == Some((
            s.skip(1),
            tailbits.len() as int,
        )));
        assert(tb.skip(64) =~= all.skip(64).take(tb.len() - 64));
        lemma_decode_loop_prefix(all.skip(64), s[0], w0, sentinel, tb.len() - 64);
        assert(decode_loop(tb.skip(64), s[0], w0, sentinel) is None);
    }
}

/// Encoding a single value yields exactly the unconditional 64-bit
/// first-value field followed by the sentinel's terminal step, and decoding
/// the buffer recovers exactly that one value.
pub proof fn lemma_single_value(v: u64, bytes: Seq<u8>, sentinel: u64)
    requires
        v != sentinel,
        is_encoding_of(bytes, seq![v], sentinel),
    ensures
        encode_bits(seq![v], sentinel) == u64_bits(v, 64) + step_bits(v, None, sentinel),
        bytes.len() == (64 + step_bits(v, None, sentinel).len() + 7) / 8,
        decode_spec(bytes_bits(bytes), sentinel) == Some(seq![v]),
{
    assert(encode_tail_bits(seq![v], 1, v, None, sentinel) == step_bits(v, None, sentinel));
    assert(forall|i: int| 0 <= i < seq![v].len() ==> seq![v][i] != sentinel);
    lemma_round_trip(seq![v], bytes, sentinel);
}

/// The stream of a constant sequence after position `i`: one zero bit per
/// remaining value, then the terminal step.
proof fn lemma_constant_tail(s: Seq<u64>, i: int, v: u64, sentinel: u64)
    requires
        1 <= i <= s.len(),
        forall|j: int| 0 <= j < s.len() ==> s[j] == v,
    ensures
        encode_tail_bits(s, i, v, None, sentinel).len() == (s.len() - i) + step_bits(
            v,
            None,
            sentinel,
        ).len(),
    decreases s.len() - i,
{
    if i < s.len() {
        lemma_xor(v, v);
        assert(s[i] == v);
        assert(step_bits(v, None, s[i]) == seq![false]);
        assert(step_window(v, None, s[i]) == None::<Window>);
        lemma_constant_tail(s, i + 1, v, sentinel);
    }
}

/// For a constant sequence of `n` equal values, the stream is the 64-bit
/// first-value field, `n - 1` single zero bits and the sentinel's terminal
/// step, and the buffer rounds that up to whole bytes: close to the
/// theoretical minimum.
pub proof fn lemma_constant_sequence(s: Seq<u64>, v: u64, bytes: Seq<u8>, sentinel: u64)
    requires
        s.len() >= 1,
        forall|i: int| 0 <= i < s.len() ==> s[i] == v,
        is_encoding_of(bytes, s, sentinel),
    ensures
        encode_bits(s, sentinel).len() == 64 + (s.len() - 1) + step_bits(v, None, sentinel).len(),
        bytes.len() == (64 + (s.len() - 1) + step_bits(v, None, sentinel).len() + 7) / 8,
{
    assert(s[0] == v);
    lemma_constant_tail(s, 1, v, sentinel);
}

/// Two consecutive equal nonzero deltas share their zero-run counts, so the
/// second one uses the reused-window branch: its step starts with the
/// control bits `1 0` and leaves the window unchanged.
pub proof fn lemma_reused_window(v0: u64, d: u64, sentinel: u64)
    requires
        d != 0,
    ensures
        ({
            let v1 = v0 ^ d;
            let v2 = v1 ^ d;
            let w1 = step_window(v0, None, v1);
            &&& w1 == Some(
                Window { leading: lead_of(d) as u8, trailing: trail_of(d) as u8 },
            )
            &&& step_bits(v1, w1, v2) == seq![true, false] + u64_bits(
                d >> (trail_of(d) as u64),
                (64 - lead_of(d) - trail_of(d)) as nat,
            )
            &&& step_window(v1, w1, v2) == w1
            &&& encode_bits(seq![v0, v1, v2], sentinel) == u64_bits(v0, 64) + step_bits(
                v0,
                None,
                v1,
            ) + step_bits(v1, w1, v2) + step_bits(v2, w1, sentinel)
        }),
{
    let v1 = v0 ^ d;
    let v2 = v1 ^ d;
    lemma_xor(d, v0);
    lemma_xor(d, v1);
    assert(v1 ^ v0 == d);
    assert(v2 ^ v1 == d);
    lemma_zero_runs(d);
    let w1 = step_window(v0, None, v1);
    assert(w1 == Some(Window { leading: lead_of(d) as u8, trailing: trail_of(d) as u8 }));
    assert(fits_window(d, w1));
    assert((64 - (w1->0.leading as u64) - (w1->0.trailing as u64)) as nat == (64 - lead_of(d)
        - trail_of(d)) as nat);
    assert(step_bits(v1, w1, v2) == seq![true, false] + u64_bits(
        d >> (trail_of(d) as u64),
        (64 - lead_of(d) - trail_of(d)) as nat,
    ));
    let s = seq![v0, v1, v2];
    assert(s[0] == v0 && s[1] == v1 && s[2] == v2);
    assert(encode_tail_bits(s, 3, v2, w1, sentinel) == step_bits(v2, w1, sentinel));
    assert(encode_tail_bits(s, 2, v1, w1, sentinel) == step_bits(v1, w1, v2) + step_bits(
        v2,
        w1,
        sentinel,
    ));
    assert(encode_tail_bits(s, 1, v0, None, sentinel) == step_bits(v0, None, v1) + (step_bits(
        v1,
        w1,
        v2,
    ) + step_bits(v2, w1, sentinel)));
    assert(encode_bits(s, sentinel) =~= u64_bits(v0, 64) + step_bits(v0, None, v1) + step_bits(
        v1,
        w1,
        v2,
    ) + step_bits(v2, w1, sentinel));
}

/// A delta with 32 or more leading zero bits round-trips losslessly: the
/// clamped 5-bit leading count only widens the span written explicitly.
pub proof fn lemma_wide_leading_delta(a: u64, b: u64, bytes: Seq<u8>, sentinel: u64)
    requires
        a != sentinel,
        b != sentinel,
        a != b,
        u64_leading_zeros(a ^ b) >= 32,
        is_encoding_of(bytes, seq![a, b], sentinel),
    ensures
        decode_spec(bytes_bits(bytes), sentinel) == Some(seq![a, b]),
{
    assert(forall|i: int| 0 <= i < seq![a, b].len() ==> seq![a, b][i] != sentinel);
    lemma_round_trip(seq![a, b], bytes, sentinel);
}

} // verus!
