//! An incremental UTF-8 decoder for bytes that arrive in pieces.
//!
//! A [`Utf8Decoder`] owns a byte source and a buffer of fixed capacity. Whoever drives it
//! reads from the source into the free part of the buffer and tells the decoder what the read
//! came to; the decoder answers with the next chunk of text, with an error, with the end of
//! the stream, or with the request to read again. A character whose bytes are split between
//! two reads is kept in the buffer until the rest of it arrives, so that every chunk is valid
//! text and no chunk is empty.
//!
//! The decoder never reads by itself, so it works with blocking and with asynchronous sources
//! alike.
//!
//! - [`decoder`]: the decoder and a single round of decoding on a buffer.
//! - [`error`]: the ways in which decoding fails.
//! - [`model`]: the decoder as a state machine over what the source delivers.
//! - [`theorems`]: what holds of that state machine, the round trip above all.
//! - [`utf8`]: prefixes of UTF-8, and the validation that the standard library provides.

pub mod decoder;
pub mod error;
pub mod model;
pub mod theorems;
pub mod utf8;

pub use decoder::{decode_next, Next, Phase, Utf8Decoder};
pub use error::{DecodeError, MalformedSequence};
