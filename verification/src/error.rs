//! The errors that decoding can report.

use vstd::prelude::*;

verus! {

/// The way in which an encoded image violates the structure of its format.
#[derive(Clone, Copy, Debug, PartialEq, Eq, Structural)]
pub enum DecodeErrorKind {
    /// A field holds a value that the format, or this decoder, does not allow.
    MalformedHeader,
    /// The input ends before the encoding does.
    TruncatedData,
    /// A stored checksum differs from the checksum of the data it covers.
    ChecksumMismatch,
    /// The declared dimensions describe more pixels than the decoder accepts.
    DimensionOverflow,
}

/// A structural violation, with the offset in the input at which it was found.
#[derive(Clone, Copy, Debug, PartialEq, Eq, Structural)]
pub struct DecodeError {
    pub kind: DecodeErrorKind,
    pub byte_offset: usize,
}

/// Every failure that the library can report.
#[derive(Clone, Copy, Debug, PartialEq, Eq, Structural)]
pub enum Error {
    /// The bytes could not be read from their file. Never produced by the
    /// in-memory functions; callers that read files report it.
    IoError,
    /// The leading bytes match no supported format.
    UnsupportedFormat,
    /// The format was recognised but the encoding is damaged.
    Decode(DecodeError),
    /// An argument is outside its allowed range.
    InvalidArgument,
}

/// The decode error of kind `kind` at offset `at`.
pub open spec fn decode_error(kind: DecodeErrorKind, at: int) -> DecodeError {
    DecodeError { kind, byte_offset: at as usize }
}

} // verus!
