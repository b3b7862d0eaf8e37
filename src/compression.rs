//! Byte-in, byte-out compression codecs and the one-byte tags of the Anvil format.
use std::io::Read;
use std::io::Write;
use vstd::prelude::*;

use crate::errors::CompressionError;

verus! {

/// Compression algorithm of a chunk payload.
#[derive(Debug, Clone, Copy, PartialEq, Eq, Structural)]
pub enum Compression {
    GZip,
    ZLib,
    LZ4,
    /// Reserved for a custom algorithm; recognised but not implemented.
    Custom,
}

/// Tag byte of an uncompressed payload.
pub const NO_COMPRESSION: u8 = 3;

/// The tag byte that names `c`.
pub open spec fn tag_of(c: Compression) -> u8 {
    match c {
        Compression::GZip => 1,
        Compression::ZLib => 2,
        Compression::LZ4 => 4,
        Compression::Custom => 127,
    }
}

/// The tag byte of an optional algorithm, `3` standing for none.
pub open spec fn opt_tag_of(c: Option<Compression>) -> u8 {
    match c {
        Some(c) => tag_of(c),
        None => NO_COMPRESSION,
    }
}

/// Whether `b` is one of the tag bytes `1, 2, 3, 4, 127`.
pub open spec fn is_known_tag(b: u8) -> bool {
    b == 1 || b == 2 || b == 3 || b == 4 || b == 127
}

/// The gzip stream that flate2 produces for `data` at `level`.
pub uninterp spec fn gzip_of(data: Seq<u8>, level: u32) -> Seq<u8>;

/// The bytes that flate2 decodes from the gzip stream `data`; `None` when it
/// reports an error.
pub uninterp spec fn gunzip_of(data: Seq<u8>) -> Option<Seq<u8>>;

/// The zlib stream that flate2 produces for `data` at `level`.
pub uninterp spec fn zlib_of(data: Seq<u8>, level: u32) -> Seq<u8>;

/// The bytes that flate2 decodes from the zlib stream `data`; `None` when it
/// reports an error.
pub uninterp spec fn unzlib_of(data: Seq<u8>) -> Option<Seq<u8>>;

/// The LZ4 frame that lz4 produces for `data` at `level`.
pub uninterp spec fn lz4_of(data: Seq<u8>, level: u32) -> Seq<u8>;

/// The bytes that lz4 decodes from the frame `data`; `None` when it reports an
/// error.
pub uninterp spec fn unlz4_of(data: Seq<u8>) -> Option<Seq<u8>>;

/// The zstd frame that zstd produces for `data` at `level`.
pub uninterp spec fn zstd_of(data: Seq<u8>, level: i32) -> Seq<u8>;

/// The bytes that zstd decodes from the frames in `data`; `None` when it reports
/// an error.
pub uninterp spec fn unzstd_of(data: Seq<u8>) -> Option<Seq<u8>>;

/// What compressing `data` with `c` at `level` gives, for the implemented algorithms.
pub open spec fn compressed_of(c: Compression, data: Seq<u8>, level: u32) -> Seq<u8> {
    match c {
        Compression::GZip => gzip_of(data, level),
        Compression::ZLib => zlib_of(data, level),
        Compression::LZ4 => lz4_of(data, level),
        Compression::Custom => Seq::empty(),
    }
}

/// What decompressing `data` with `c` gives; `None` when the codec fails, and
/// always for the custom algorithm, which has no implementation.
pub open spec fn decompressed_of(c: Compression, data: Seq<u8>) -> Option<Seq<u8>> {
    match c {
        Compression::GZip => gunzip_of(data),
        Compression::ZLib => unzlib_of(data),
        Compression::LZ4 => unlz4_of(data),
        Compression::Custom => None,
    }
}

/// The error that a failed call of the codec of `c` reports.
pub open spec fn codec_error(c: Compression) -> CompressionError {
    match c {
        Compression::GZip => CompressionError::GZipError,
        Compression::ZLib => CompressionError::ZlibError,
        Compression::LZ4 => CompressionError::LZ4Error,
        Compression::Custom => CompressionError::UnsupportedCompression,
    }
}

/// Whether a compression level is accepted by the codec of `c`.
pub open spec fn level_ok(c: Compression, level: u32) -> bool {
    (c == Compression::GZip || c == Compression::ZLib) ==> level <= 10
}

/// Relies on flate2's `bufread::GzEncoder` read to the end: the gzip stream of
/// `data` at `level`, which flate2's decoder reads back (flate2 asserts
/// `level <= 10`; reading from a slice cannot fail).
#[verifier::external_body]
fn gzip_compress(data: &[u8], level: u32) -> (r: Result<Vec<u8>, CompressionError>)
    requires
        level <= 10,
    ensures
        r is Ok,
        r matches Ok(v) ==> v@ == gzip_of(data@, level),
        r matches Ok(v) ==> gunzip_of(v@) == Some(data@),
{
    let mut out = Vec::new();
    let mut encoder = flate2::bufread::GzEncoder::new(data, flate2::Compression::new(level));
    match encoder.read_to_end(&mut out) {
        Ok(_) => Ok(out),
        Err(_) => Err(CompressionError::GZipError),
    }
}

/// Relies on flate2's `bufread::GzDecoder` read to the end: the decoded bytes of
/// `data`, or its error.
#[verifier::external_body]
fn gzip_decompress(data: &[u8]) -> (r: Result<Vec<u8>, CompressionError>)
    ensures
        r is Ok <==> gunzip_of(data@) is Some,
        r matches Ok(v) ==> gunzip_of(data@) == Some(v@),
        r matches Err(e) ==> e == CompressionError::GZipError,
{
    let mut out = Vec::new();
    match flate2::bufread::GzDecoder::new(data).read_to_end(&mut out) {
        Ok(_) => Ok(out),
        Err(_) => Err(CompressionError::GZipError),
    }
}

/// Relies on flate2's `bufread::ZlibEncoder` read to the end: the zlib stream of
/// `data` at `level`, which flate2's decoder reads back (flate2 asserts
/// `level <= 10`; reading from a slice cannot fail).
#[verifier::external_body]
fn zlib_compress(data: &[u8], level: u32) -> (r: Result<Vec<u8>, CompressionError>)
    requires
        level <= 10,
    ensures
        r is Ok,
        r matches Ok(v) ==> v@ == zlib_of(data@, level),
        r matches Ok(v) ==> unzlib_of(v@) == Some(data@),
{
    let mut out = Vec::new();
    let mut encoder = flate2::bufread::ZlibEncoder::new(data, flate2::Compression::new(level));
    match encoder.read_to_end(&mut out) {
        Ok(_) => Ok(out),
        Err(_) => Err(CompressionError::ZlibError),
    }
}

/// Relies on flate2's `bufread::ZlibDecoder` read to the end: the decoded bytes of
/// `data`, or its error.
#[verifier::external_body]
fn zlib_decompress(data: &[u8]) -> (r: Result<Vec<u8>, CompressionError>)
    ensures
        r is Ok <==> unzlib_of(data@) is Some,
        r matches Ok(v) ==> unzlib_of(data@) == Some(v@),
        r matches Err(e) ==> e == CompressionError::ZlibError,
{
    let mut out = Vec::new();
    match flate2::bufread::ZlibDecoder::new(data).read_to_end(&mut out) {
        Ok(_) => Ok(out),
        Err(_) => Err(CompressionError::ZlibError),
    }
}

/// Relies on lz4's `EncoderBuilder` with `level`, written to a `Vec` and finished:
/// the LZ4 frame of `data`, which lz4's decoder reads back.
#[verifier::external_body]
fn lz4_compress(data: &[u8], level: u32) -> (r: Result<Vec<u8>, CompressionError>)
    ensures
        r is Ok,
        r matches Ok(v) ==> v@ == lz4_of(data@, level),
        r matches Ok(v) ==> unlz4_of(v@) == Some(data@),
{
    let mut out = Vec::new();
    let mut encoder = match lz4::EncoderBuilder::new().level(level).build(&mut out) {
        Ok(encoder) => encoder,
        Err(_) => return Err(CompressionError::LZ4Error),
    };
    if encoder.write_all(data).is_err() || encoder.finish().1.is_err() {
        return Err(CompressionError::LZ4Error);
    }
    Ok(out)
}

/// Relies on lz4's `Decoder` read to the end: the decoded bytes of the frame
/// `data`, or its error.
#[verifier::external_body]
fn lz4_decompress(data: &[u8]) -> (r: Result<Vec<u8>, CompressionError>)
    ensures
        r is Ok <==> unlz4_of(data@) is Some,
        r matches Ok(v) ==> unlz4_of(data@) == Some(v@),
        r matches Err(e) ==> e == CompressionError::LZ4Error,
{
    let mut out = Vec::new();
    match lz4::Decoder::new(data) {
        Ok(mut decoder) => match decoder.read_to_end(&mut out) {
            Ok(_) => Ok(out),
            Err(_) => Err(CompressionError::LZ4Error),
        },
        Err(_) => Err(CompressionError::LZ4Error),
    }
}

/// Relies on `zstd::encode_all`: the zstd frame of `data` at `level` (zstd clamps
/// the level), which `zstd::decode_all` reads back.
#[verifier::external_body]
pub(crate) fn zstd_compress(data: &[u8], level: i32) -> (r: Result<Vec<u8>, CompressionError>)
    ensures
        r is Ok,
        r matches Ok(v) ==> v@ == zstd_of(data@, level),
        r matches Ok(v) ==> unzstd_of(v@) == Some(data@),
{
    match zstd::encode_all(data, level) {
        Ok(v) => Ok(v),
        Err(_) => Err(CompressionError::ZstdError),
    }
}

/// Relies on `zstd::decode_all`: the decoded bytes of the zstd frames in `data`,
/// or its error.
#[verifier::external_body]
pub(crate) fn zstd_decompress(data: &[u8]) -> (r: Result<Vec<u8>, CompressionError>)
    ensures
        r is Ok <==> unzstd_of(data@) is Some,
        r matches Ok(v) ==> unzstd_of(data@) == Some(v@),
        r matches Err(e) ==> e == CompressionError::ZstdError,
{
    match zstd::decode_all(data) {
        Ok(v) => Ok(v),
        Err(_) => Err(CompressionError::ZstdError),
    }
}

impl Compression {
    /// The algorithm named by an Anvil tag byte: `Ok(None)` for `3` (uncompressed),
    /// `Err(())` for a byte that names nothing.
    pub fn from_byte(byte: u8) -> (r: Result<Option<Compression>, ()>)
        ensures
            r is Err <==> !is_known_tag(byte),
            r matches Ok(c) ==> opt_tag_of(c) == byte,
    {
        match byte {
            1 => Ok(Some(Compression::GZip)),
            2 => Ok(Some(Compression::ZLib)),
            3 => Ok(None),
            4 => Ok(Some(Compression::LZ4)),
            127 => Ok(Some(Compression::Custom)),
            _ => Err(()),
        }
    }

    /// The tag byte of this algorithm.
    pub fn to_byte(&self) -> (r: u8)
        ensures
            r == tag_of(*self),
    {
        match self {
            Compression::GZip => 1,
            Compression::ZLib => 2,
            Compression::LZ4 => 4,
            Compression::Custom => 127,
        }
    }

    /// Decompresses `compressed` with this algorithm. The custom algorithm is
    /// unsupported and always fails.
    pub fn decompress_data(&self, compressed: &[u8]) -> (r: Result<Vec<u8>, CompressionError>)
        ensures
            r is Ok <==> decompressed_of(*self, compressed@) is Some,
            r matches Ok(v) ==> decompressed_of(*self, compressed@) == Some(v@),
            r matches Err(e) ==> e == codec_error(*self),
    {
        match self {
            Compression::GZip => gzip_decompress(compressed),
            Compression::ZLib => zlib_decompress(compressed),
            Compression::LZ4 => lz4_decompress(compressed),
            Compression::Custom => Err(CompressionError::UnsupportedCompression),
        }
    }

    /// Compresses `data` with this algorithm at `level`. The custom algorithm is
    /// unsupported and always fails.
    pub fn compress_data(&self, data: &[u8], level: u32) -> (r: Result<Vec<u8>, CompressionError>)
        requires
            level_ok(*self, level),
        ensures
            r is Ok <==> *self != Compression::Custom,
            r matches Ok(v) ==> v@ == compressed_of(*self, data@, level),
            r matches Ok(v) ==> decompressed_of(*self, v@) == Some(data@),
            r matches Err(e) ==> e == codec_error(*self),
    {
        match self {
            Compression::GZip => gzip_compress(data, level),
            Compression::ZLib => zlib_compress(data, level),
            Compression::LZ4 => lz4_compress(data, level),
            Compression::Custom => Err(CompressionError::UnsupportedCompression),
        }
    }
}

} // verus!
