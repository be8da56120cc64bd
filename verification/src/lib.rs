//! A lossless bit-level codec for sequences of 64-bit samples, following the
//! delta-of-XOR ("Gorilla") design used by time-series stores.
//!
//! The codec operates on `u64` bit patterns (the raw representation of one
//! sample), never on floating-point values, so it is value-format-agnostic.
//! A reserved sentinel pattern terminates the stream in place of a length
//! field; the encoder refuses inputs that contain the sentinel.

pub mod bits;
pub mod decoder;
pub mod encoder;
pub mod errors;
pub mod format;
pub mod laws;
pub mod sink;
pub mod source;
