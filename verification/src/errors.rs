use vstd::prelude::*;

verus! {

/// Mathematical mirror of [`Error`], used in contracts: byte-vector payloads
/// become byte sequences and sizes become unbounded naturals.
pub enum ErrorSpec {
    /// A fixed-size field (the 4-byte chunk-type tag) had the wrong length.
    InvalidSize { size: nat },
    /// The input buffer is shorter than a signature or chunk header requires.
    InputTooSmall,
    /// Chunk-type bytes outside the ASCII-letter range; carries the offending tag.
    InvalidCharacterSet(Seq<u8>),
    /// Chunk-type byte 2 is lowercase where validity requires uppercase.
    InvalidReservedBit(Seq<u8>),
    /// The stored CRC does not match the checksum recomputed over type and data.
    CrcMismatch,
    /// No chunk with the requested tag exists in the container.
    ChunkTypeNotFound(Seq<u8>),
    /// A chunk payload that should be text is not valid UTF-8.
    InvalidUtf8,
    /// The file does not begin with the 8-byte PNG magic.
    InvalidPngSignature,
}

/// The single closed set of failure kinds surfaced by every fallible
/// operation of this library. Payload bytes name the offending chunk-type tag.
#[derive(Debug, Clone, PartialEq, Eq)]
pub enum Error {
    InvalidSize { size: usize },
    InputTooSmall,
    InvalidCharacterSet(Vec<u8>),
    InvalidReservedBit(Vec<u8>),
    CrcMismatch,
    ChunkTypeNotFound(Vec<u8>),
    InvalidUtf8,
    InvalidPngSignature,
}

impl View for Error {
    type V = ErrorSpec;

    open spec fn view(&self) -> ErrorSpec {
        match self {
            Error::InvalidSize { size } => ErrorSpec::InvalidSize { size: *size as nat },
            Error::InputTooSmall => ErrorSpec::InputTooSmall,
            Error::InvalidCharacterSet(tag) => ErrorSpec::InvalidCharacterSet(tag@),
            Error::InvalidReservedBit(tag) => ErrorSpec::InvalidReservedBit(tag@),
            Error::CrcMismatch => ErrorSpec::CrcMismatch,
            Error::ChunkTypeNotFound(tag) => ErrorSpec::ChunkTypeNotFound(tag@),
            Error::InvalidUtf8 => ErrorSpec::InvalidUtf8,
            Error::InvalidPngSignature => ErrorSpec::InvalidPngSignature,
        }
    }
}

/// A fallible result as contracts see it: the value and the error by their views.
pub open spec fn res_view<T: View>(r: Result<T, Error>) -> Result<T::V, ErrorSpec> {
    match r {
        Ok(v) => Ok(v@),
        Err(e) => Err(e@),
    }
}

} // verus!
