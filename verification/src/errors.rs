//! Failure conditions of the codec.

use vstd::prelude::*;

verus! {

/// Everything that can go wrong while encoding or decoding a stream.
#[derive(Clone, Copy, Debug, PartialEq, Eq, Structural)]
pub enum CodecError {
    /// An input value's bit pattern equals the reserved sentinel, so the
    /// encoder refuses it rather than terminate the stream early.
    ReservedValueCollision,
    /// The decoder needed more bits than the buffer holds: the stream is
    /// truncated or corrupt.
    UnexpectedEof,
    /// A decoded sequence's length disagrees with an externally expected
    /// count supplied by the caller.
    InvariantViolation,
}

impl CodecError {
    /// A short description of the failure.
    pub fn describe(&self) -> (r: &'static str)
        ensures
            r@ =~= match self {
                CodecError::ReservedValueCollision => "input value collides with the sentinel"@,
                CodecError::UnexpectedEof => "unexpected end of encoded stream"@,
                CodecError::InvariantViolation => "decoded count disagrees with expected count"@,
            },
    {
        match self {
            CodecError::ReservedValueCollision => "input value collides with the sentinel",
            CodecError::UnexpectedEof => "unexpected end of encoded stream",
            CodecError::InvariantViolation => "decoded count disagrees with expected count",
        }
    }
}

} // verus!
