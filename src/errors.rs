//! Error kinds of the storage engine.
use vstd::prelude::*;

verus! {

/// Category of an operating-system I/O failure.
#[derive(Debug, Clone, Copy, PartialEq, Eq, Structural)]
pub enum IoErrorKind {
    NotFound,
    PermissionDenied,
    AlreadyExists,
    UnexpectedEof,
    Other,
}

/// Failure of a compression codec.
#[derive(Debug, Clone, Copy, PartialEq, Eq, Structural)]
pub enum CompressionError {
    /// The tag byte names no known algorithm.
    UnknownCompression,
    /// The algorithm is recognised but has no implementation.
    UnsupportedCompression,
    GZipError,
    ZlibError,
    LZ4Error,
    ZstdError,
}

/// Failure to decode a chunk document.
#[derive(Debug, Clone, Copy, PartialEq, Eq, Structural)]
pub enum ChunkParsingError {
    /// The bytes are not a well-formed chunk document.
    MalformedDocument,
    /// A section's palette or packed block array is inconsistent.
    InvalidSection,
    /// The document stores a position other than the one requested.
    PositionMismatch,
}

/// Failure to read a chunk or a region.
#[derive(Debug, Clone, Copy, PartialEq, Eq, Structural)]
pub enum ChunkReadingError {
    /// The region file or the chunk slot is absent.
    ChunkNotExist,
    IoError(IoErrorKind),
    /// Signature mismatch, version zero, or a truncated fixed-size header.
    InvalidHeader,
    Compression(CompressionError),
    ParsingError(ChunkParsingError),
}

/// Failure to write a chunk or a region.
#[derive(Debug, Clone, Copy, PartialEq, Eq, Structural)]
pub enum ChunkWritingError {
    IoError(IoErrorKind),
    Compression(CompressionError),
    /// The chunk could not be turned into bytes.
    SerializingError,
}

} // verus!
