//! A compressor and decompressor for the body of the stk1 format.
//!
//! The format is a byte-level dictionary scheme: a stream of blocks, each a
//! run of literal bytes followed by back-references into the bytes already
//! produced.  Every variable-length field is written with the [`S7s`]
//! integer code.  Only the compressed body is handled; a caller keeps the
//! decompressed size and any file header on its own.
//!
//! Every function of this crate is verified.  The central statements are
//! [`format::decode_spec`], which says what a stream stands for,
//! [`greedy::encode_spec`], which says which stream the encoder writes, and
//! [`greedy::lemma_round_trip`], which says that decoding inverts encoding.
//!
//! stk1 is a format of Kawai Hidemi.  It has no formal description; what is
//! here follows its decoder.  The limits on distances and lengths are those
//! of this crate and not official ones.

use vstd::prelude::*;

pub mod cache;
pub mod format;
pub mod greedy;
pub mod lz;
pub mod report;
pub mod s7s;
pub mod stk1;
pub mod var_slice;

pub use s7s::S7s;
pub use stk1::{Configuration, Stk1};

verus! {

/// Why a buffer could not be compressed.
#[derive(Debug, Clone, Copy, PartialEq, Eq)]
pub enum EncodeError {
    /// The input is too long: its positions do not fit the 32-bit offsets
    /// of the dictionary.  See [`stk1::encodable_len`].
    InputTooLarge,
}

/// Why a stream could not be decompressed.
#[derive(Debug, Clone, Copy, PartialEq, Eq)]
pub enum DecodeError {
    /// The stream is truncated, holds an integer without a terminator, or
    /// refers to bytes before the start of the output.
    InvalidData,
    /// The output buffer could not be allocated.
    OutOfMemory,
}

} // verus!
