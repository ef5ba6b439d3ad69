//! Byte-stream codecs: run-length encoding and a fixed-window LZ77 variant.
//!
//! Each scheme offers a pure `compress` and `decompress` over in-memory byte
//! vectors. Compression cannot fail; decompression rejects malformed streams
//! with a [`CodecError`] naming the violation.

use vstd::prelude::*;

pub mod lz;
pub mod rle;

verus! {

/// The ways a compressed byte stream can be rejected during decoding.
#[derive(Clone, Copy, Debug, PartialEq, Eq, Structural)]
pub enum CodecError {
    /// A run-length stream has odd length: a count byte with no value byte.
    MalformedInput,
    /// An LZ77 literal tag stands at the end of the stream with no byte after it.
    TruncatedLiteral,
    /// An LZ77 match tag is not followed by both a distance and a length byte.
    TruncatedMatch,
    /// An LZ77 match reaches back past the start of the decoded output,
    /// or has distance zero with bytes still to copy.
    InvalidDistance,
    /// A tag byte is neither the literal nor the match tag.
    UnknownToken,
}

} // verus!
