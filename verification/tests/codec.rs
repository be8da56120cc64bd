use gorilla_codec::decoder::gorilla_decode;
use gorilla_codec::decoder::gorilla_decode_checked;
use gorilla_codec::encoder::gorilla_encode;
use gorilla_codec::encoder::DEFAULT_SENTINEL;
use gorilla_codec::errors::CodecError;
use gorilla_codec::sink::BitSink;
use gorilla_codec::source::BitSource;

/// Bit `i` of the buffer, counting most-significant-bit first within each
/// byte, as the codec lays bits out.
fn bit_at(buf: &[u8], i: usize) -> bool {
    (buf[i / 8] >> (7 - i % 8)) & 1 == 1
}

/// The bit length of the terminal (or any fresh-window) step for delta `d`:
/// two control bits, the 5-bit leading count, the 6-bit meaningful count and
/// the meaningful bits themselves, with the leading count clamped to 31.
fn explicit_step_bits(d: u64) -> usize {
    assert!(d != 0);
    let lz = d.leading_zeros().min(31);
    let tz = d.trailing_zeros();
    (2 + 5 + 6 + (64 - lz - tz)) as usize
}

fn round_trip(values: &[u64]) -> Vec<u8> {
    let input: Vec<u64> = values.to_vec();
    let buf = gorilla_encode(&input, DEFAULT_SENTINEL).expect("encode should succeed");
    let decoded = gorilla_decode(&buf, DEFAULT_SENTINEL).expect("decode should succeed");
    assert_eq!(decoded, input);
    buf
}

#[test]
fn round_trip_mixed_values() {
    round_trip(&[
        0x3ff0000000000000,
        0x3ff0000000000000,
        0x4000000000000000,
        0x4008000000000000,
        0x4008000000000000,
        0xbff0000000000000,
        0,
        u64::MAX,
        1,
        0x8000000000000000,
    ]);
}

#[test]
fn round_trip_sawtooth() {
    let mut values = Vec::new();
    for i in 0..500u64 {
        values.push((i % 7) * 0x10000 + (i % 3));
    }
    round_trip(&values);
}

#[test]
fn encode_empty_yields_empty_buffer() {
    let buf = gorilla_encode(&Vec::new(), DEFAULT_SENTINEL).expect("encode should succeed");
    assert!(buf.is_empty());
}

#[test]
fn decode_empty_buffer_yields_empty_sequence() {
    let decoded = gorilla_decode(&[], DEFAULT_SENTINEL).expect("decode should succeed");
    assert!(decoded.is_empty());
}

#[test]
fn single_value_layout() {
    let v: u64 = 0x4037000000000000;
    let buf = round_trip(&[v]);
    // The first-value field is the raw sample, big-endian.
    assert_eq!(&buf[0..8], &v.to_be_bytes());
    // Then only the sentinel's terminal step follows, rounded up to a byte.
    let total_bits = 64 + explicit_step_bits(v ^ DEFAULT_SENTINEL);
    assert_eq!(buf.len(), (total_bits + 7) / 8);
}

#[test]
fn constant_sequence_size_is_minimal() {
    let v: u64 = 0x40f86a0000000000;
    let n = 1000;
    let buf = round_trip(&vec![v; n]);
    // One zero bit per repeated value between the first field and the
    // sentinel's step.
    let total_bits = 64 + (n - 1) + explicit_step_bits(v ^ DEFAULT_SENTINEL);
    assert_eq!(buf.len(), (total_bits + 7) / 8);
    for i in 0..n - 1 {
        assert!(!bit_at(&buf, 64 + i));
    }
}

#[test]
fn sentinel_input_is_refused() {
    let input = vec![1u64, DEFAULT_SENTINEL, 3u64];
    let r = gorilla_encode(&input, DEFAULT_SENTINEL);
    assert_eq!(r, Err(CodecError::ReservedValueCollision));
    // Also when the sentinel is the only value.
    let r = gorilla_encode(&vec![DEFAULT_SENTINEL], DEFAULT_SENTINEL);
    assert_eq!(r, Err(CodecError::ReservedValueCollision));
}

#[test]
fn custom_sentinel_is_honoured() {
    let sentinel = 0x7ff8dead00000001u64;
    let input = vec![5u64, 6, 7, DEFAULT_SENTINEL];
    let buf = gorilla_encode(&input, sentinel).expect("encode should succeed");
    let decoded = gorilla_decode(&buf, sentinel).expect("decode should succeed");
    assert_eq!(decoded, input);
    assert_eq!(
        gorilla_encode(&vec![sentinel], sentinel),
        Err(CodecError::ReservedValueCollision)
    );
}

#[test]
fn truncation_always_fails() {
    let values: Vec<u64> = vec![
        0x3ff0000000000000,
        0x3ff0000000000001,
        0x3ff0000000000001,
        0x40091eb851eb851f,
        0x0000000000000001,
    ];
    let buf = round_trip(&values);
    // Cutting any nonzero number of trailing bytes, leaving at least one,
    // must surface as an unexpected end of stream.
    for k in 1..buf.len() {
        let r = gorilla_decode(&buf[..buf.len() - k], DEFAULT_SENTINEL);
        assert_eq!(r, Err(CodecError::UnexpectedEof), "truncated by {} bytes", k);
    }
}

#[test]
fn wide_leading_zero_delta_round_trips() {
    // Two consecutive values differing only in their lowest byte: the XOR
    // has at least 56 leading zero bits, past the 5-bit field's range.
    let a: u64 = 0x4059000000000000;
    let b: u64 = a ^ 0x00000000000000a5;
    assert!((a ^ b).leading_zeros() >= 32);
    round_trip(&[a, b]);
    // The same with a delta straddling the clamp boundary.
    let c: u64 = a ^ 0x0000000080000000;
    assert_eq!((a ^ c).leading_zeros(), 32);
    round_trip(&[a, c, a, c]);
}

#[test]
fn equal_deltas_reuse_the_window() {
    let d: u64 = 0x0000000000ff0000;
    let v0: u64 = 0x4010000000000000;
    let v1 = v0 ^ d;
    let v2 = v1 ^ d;
    let buf = round_trip(&[v0, v1, v2]);
    // First delta: explicit-window step, control bits 1 1.
    assert!(bit_at(&buf, 64));
    assert!(bit_at(&buf, 65));
    let step1 = explicit_step_bits(d);
    // Second, equal delta: reused-window step, control bits 1 0.
    assert!(bit_at(&buf, 64 + step1));
    assert!(!bit_at(&buf, 64 + step1 + 1));
}

#[test]
fn decode_checked_verifies_the_count() {
    let values = vec![10u64, 11, 11, 12];
    let buf = gorilla_encode(&values, DEFAULT_SENTINEL).expect("encode should succeed");
    let decoded =
        gorilla_decode_checked(&buf, DEFAULT_SENTINEL, 4).expect("count should match");
    assert_eq!(decoded, values);
    assert_eq!(
        gorilla_decode_checked(&buf, DEFAULT_SENTINEL, 3),
        Err(CodecError::InvariantViolation)
    );
    assert_eq!(
        gorilla_decode_checked(&buf[..buf.len() - 1], DEFAULT_SENTINEL, 4),
        Err(CodecError::UnexpectedEof)
    );
}

#[test]
fn corrupt_window_metadata_is_rejected() {
    // A hand-made stream: a first value, then control bits 1 1, a leading
    // count of 31 and a meaningful count of 64, which no 64-bit delta can
    // satisfy.
    let mut buf = 0x4000000000000000u64.to_be_bytes().to_vec();
    buf.push(0xff);
    buf.push(0xf8);
    let r = gorilla_decode(&buf, DEFAULT_SENTINEL);
    assert_eq!(r, Err(CodecError::UnexpectedEof));
}

#[test]
fn buffer_without_sentinel_is_rejected() {
    // Only the first value and zero padding: the stream never reaches the
    // sentinel, so the decoder reports the truncation.
    let buf = 0x3ff0000000000000u64.to_be_bytes().to_vec();
    let r = gorilla_decode(&buf, DEFAULT_SENTINEL);
    assert_eq!(r, Err(CodecError::UnexpectedEof));
}

#[test]
fn error_descriptions_are_distinct() {
    let eof = CodecError::UnexpectedEof.describe();
    let collision = CodecError::ReservedValueCollision.describe();
    let count = CodecError::InvariantViolation.describe();
    assert_eq!(eof, "unexpected end of encoded stream");
    assert_eq!(collision, "input value collides with the sentinel");
    assert_eq!(count, "decoded count disagrees with expected count");
}

#[test]
fn bit_sink_and_source_mirror_each_other() {
    let mut sink = BitSink::new();
    sink.write_bit(true);
    sink.write_bits(0b101, 3);
    sink.write_bits(0xabcd, 16);
    sink.write_bits(u64::MAX, 64);
    let buf = sink.finalize();
    // 84 bits written: 11 bytes, with four zero padding bits at the end.
    assert_eq!(buf.len(), 11);
    assert_eq!(buf[10] & 0x0f, 0);
    let mut source = BitSource::new(&buf);
    assert_eq!(source.read_bit(), Ok(true));
    assert_eq!(source.read_bits(3), Ok(0b101));
    assert_eq!(source.read_bits(16), Ok(0xabcd));
    assert_eq!(source.read_bits(64), Ok(u64::MAX));
    // Only the four padding bits remain.
    assert_eq!(source.read_bits(4), Ok(0));
    assert_eq!(source.read_bit(), Err(CodecError::UnexpectedEof));
    assert_eq!(source.read_bits(1), Err(CodecError::UnexpectedEof));
}

#[test]
fn bit_source_refuses_overlong_reads() {
    let buf = vec![0xffu8, 0xff];
    let mut source = BitSource::new(&buf);
    assert_eq!(source.read_bits(17), Err(CodecError::UnexpectedEof));
}
