//! The decoder: reconstruction of the original raw samples from an encoded
//! byte buffer.
//!
//! The decoder mirrors the encoder's state exactly: it reads the first
//! 64-bit value verbatim, then follows the control-bit grammar, maintaining
//! the same window of meaningful bits, until it decodes a value equal to the
//! reserved sentinel. Running out of bits before the sentinel, or meeting
//! window metadata that fits no delta, fails with `UnexpectedEof`.

use vstd::prelude::*;

verus! {

use crate::bits::bits_val;
use crate::bits::bytes_bits;
use crate::errors::CodecError;
use crate::format::Window;
use crate::format::decode_loop;
use crate::format::decode_spec;
use crate::source::BitSource;

/// Decodes a byte buffer back into the raw samples it encodes.
///
/// An empty buffer yields an empty sequence. A buffer that runs out of bits
/// before the sentinel value appears, or whose window metadata fits no
/// delta, fails with `UnexpectedEof`.
pub fn gorilla_decode(bytes: &[u8], sentinel: u64) -> (r: Result<Vec<u64>, CodecError>)
    ensures
        match r {
            Ok(v) => decode_spec(bytes_bits(bytes@), sentinel) == Some(v@),
            Err(e) => {
                &&& e == CodecError::UnexpectedEof
                &&& decode_spec(bytes_bits(bytes@), sentinel) is None
            },
        },
{
    let ghost stream = bytes_bits(bytes@);
    if bytes.len() == 0 {
        let empty: Vec<u64> = Vec::new();
        proof {
            assert(empty@ =~= Seq::<u64>::empty());
        }
        return Ok(empty);
    }
    let mut src = BitSource::new(bytes);
    proof {
        assert(stream.len() >= 8);
    }
    let first = match src.read_bits(64) {
        Ok(v) => v,
        Err(_) => {
            return Err(CodecError::UnexpectedEof);
        },
    };
    proof {
        assert(first == bits_val(stream.take(64)) as u64);
    }
    let mut out: Vec<u64> = Vec::new();
    out.push(first);
    let mut prev = first;
    let mut lead: u8 = 0;
    let mut trail: u8 = 0;
    proof {
        assert(out@ =~= seq![first]);
        assert(out@ + Seq::<u64>::empty() =~= out@);
    }
    loop
        invariant
            stream == bytes_bits(bytes@),
            src.wf(),
            lead <= 31,
            lead as int + trail as int <= 63,
            decode_spec(stream, sentinel) == (match decode_loop(
                src.remaining(),
                prev,
                Window { leading: lead, trailing: trail },
                sentinel,
            ) {
                None => None::<Seq<u64>>,
                Some(r) => Some(out@ + r.0),
            }),
        decreases src.remaining().len(),
    {
        let ghost head = src.remaining();
        let ghost w = Window { leading: lead, trailing: trail };
        let a = match src.read_bit() {
            Ok(b) => b,
            Err(_) => {
                return Err(CodecError::UnexpectedEof);
            },
        };
        if !a {
            let ghost out0 = out@;
            out.push(prev);
            proof {
                assert(src.remaining() =~= head.skip(1));
                match decode_loop(src.remaining(), prev, w, sentinel) {
                    None => {},
                    Some(r) => {
                        assert(out0 + (seq![prev] + r.0) =~= out@ + r.0);
                    },
                }
            }
        } else {
            let b = match src.read_bit() {
                Ok(b) => b,
                Err(_) => {
                    proof {
                        assert(head.len() < 2);
                    }
                    return Err(CodecError::UnexpectedEof);
                },
            };
            proof {
                assert(src.remaining() =~= head.skip(2));
            }
            if !b {
                let m: u64 = 64 - (lead as u64) - (trail as u64);
                let v = match src.read_bits(m) {
                    Ok(v) => v,
                    Err(_) => {
                        proof {
                            assert(head.len() < 2 + m);
                        }
                        return Err(CodecError::UnexpectedEof);
                    },
                };
                proof {
                    assert(head.skip(2).take(m as int) =~= head.subrange(2, 2 + m as int));
                    assert(v == bits_val(head.subrange(2, 2 + m as int)) as u64);
                    assert(src.remaining() =~= head.skip(2 + m as int));
                }
                let delta = v << (trail as u64);
                let cur = prev ^ delta;
                if cur == sentinel {
                    proof {
                        assert(out@ + Seq::<u64>::empty() =~= out@);
                    }
                    return Ok(out);
                }
                let ghost out0 = out@;
                out.push(cur);
                proof {
                    match decode_loop(src.remaining(), cur, w, sentinel) {
                        None => {},
                        Some(r) => {
                            assert(out0 + (seq![cur] + r.0) =~= out@ + r.0);
                        },
                    }
                }
                prev = cur;
            } else {
                let l = match src.read_bits(5) {
                    Ok(v) => v,
                    Err(_) => {
                        proof {
                            assert(head.len() < 13);
                        }
                        return Err(CodecError::UnexpectedEof);
                    },
                };
                proof {
                    assert(head.skip(2).take(5) =~= head.subrange(2, 7));
                    assert(l == bits_val(head.subrange(2, 7)) as u64);
                    assert(src.remaining() =~= head.skip(7));
                    assert((l as nat) < 32) by {
                        lemma_small_pow2();
                    }
                }
                let mm = match src.read_bits(6) {
                    Ok(v) => v,
                    Err(_) => {
                        proof {
                            assert(head.len() < 13);
                        }
                        return Err(CodecError::UnexpectedEof);
                    },
                };
                proof {
                    assert(head.skip(7).take(6) =~= head.subrange(7, 13));
                    assert(mm == bits_val(head.subrange(7, 13)) as u64);
                    assert(src.remaining() =~= head.skip(13));
                    assert((mm as nat) < 64) by {
                        lemma_small_pow2();
                    }
                }
                let m = mm + 1;
                if l + m > 64 {
                    return Err(CodecError::UnexpectedEof);
                }
                let v = match src.read_bits(m) {
                    Ok(v) => v,
                    Err(_) => {
                        proof {
                            assert(head.len() < 13 + m);
                        }
                        return Err(CodecError::UnexpectedEof);
                    },
                };
                proof {
                    assert(head.skip(13).take(m as int) =~= head.subrange(13, 13 + m as int));
                    assert(v == bits_val(head.subrange(13, 13 + m as int)) as u64);
                    assert(src.remaining() =~= head.skip(13 + m as int));
                }
                let t = 64 - l - m;
                let delta = v << t;
                let cur = prev ^ delta;
                lead = l as u8;
                trail = t as u8;
                if cur == sentinel {
                    proof {
                        assert(out@ + Seq::<u64>::empty() =~= out@);
                    }
                    return Ok(out);
                }
                let ghost out0 = out@;
                out.push(cur);
                proof {
                    match decode_loop(
                        src.remaining(),
                        cur,
                        Window { leading: lead, trailing: trail },
                        sentinel,
                    ) {
                        None => {},
                        Some(r) => {
                            assert(out0 + (seq![cur] + r.0) =~= out@ + r.0);
                        },
                    }
                }
                prev = cur;
            }
        }
    }
}

/// Decodes a byte buffer and checks the recovered count against an
/// externally expected one, for callers that know the cardinality of the
/// original sequence in advance.
pub fn gorilla_decode_checked(bytes: &[u8], sentinel: u64, expected: usize) -> (r: Result<
    Vec<u64>,
    CodecError,
>)
    ensures
        match r {
            Ok(v) => {
                &&& decode_spec(bytes_bits(bytes@), sentinel) == Some(v@)
                &&& v@.len() == expected
            },
            Err(e) => match decode_spec(bytes_bits(bytes@), sentinel) {
                None => e == CodecError::UnexpectedEof,
                Some(s) => e == CodecError::InvariantViolation && s.len() != expected,
            },
        },
{
    let decoded = gorilla_decode(bytes, sentinel)?;
    if decoded.len() != expected {
        return Err(CodecError::InvariantViolation);
    }
    Ok(decoded)
}

/// Small powers of two bounding the fixed header fields.
proof fn lemma_small_pow2()
    ensures
        vstd::arithmetic::power2::pow2(5) == 32,
        vstd::arithmetic::power2::pow2(6) == 64,
{
    vstd::arithmetic::power2::lemma2_to64();
}

} // verus!
