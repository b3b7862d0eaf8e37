//! The Linear region format: a signature, a 24-byte header, one zstd stream
//! holding 1024 chunk headers and the concatenated chunk documents, and the
//! signature again.
use vstd::prelude::*;

use crate::be::{
    push_u16, push_u32, push_u64, read_u16, read_u32, read_u64, u16_at, u16_be, u32_at, u32_be,
    u64_at, u64_be,
};
use crate::chunk::{chunk_bytes, chunk_to_bytes, chunk_wf, decode_chunk, ChunkData, ChunkPos, ChunkView};
use crate::compression::{unzstd_of, zstd_compress, zstd_decompress, zstd_of};
use crate::coords::{get_chunk_index, index_of, CHUNK_COUNT};
use crate::document::{flat, lemma_flat_push, push_bytes};
use crate::errors::{ChunkParsingError, ChunkReadingError, ChunkWritingError, CompressionError};

verus! {

/// Bytes of the file header that follows the signature.
pub const FILE_HEADER_SIZE: usize = 24;

/// Bytes of the 1024 chunk headers at the start of the decompressed stream.
pub const CHUNK_HEADER_BYTES_SIZE: usize = 8192;

/// The signature `0xC3FF13183CCA9D9A`, big-endian.
pub open spec fn signature() -> Seq<u8> {
    seq![0xc3u8, 0xff, 0x13, 0x18, 0x3c, 0xca, 0x9d, 0x9a]
}

fn signature_bytes() -> (r: [u8; 8])
    ensures
        r@ == signature(),
{
    let s: [u8; 8] = [0xc3u8, 0xff, 0x13, 0x18, 0x3c, 0xca, 0x9d, 0x9a];
    assert(s@ =~= signature());
    s
}

/// Version of a Linear file.
#[derive(Debug, Clone, Copy, PartialEq, Eq, Structural)]
pub enum LinearVersion {
    /// Byte 0, and any byte that names no version.
    Invalid,
    V1,
    /// Reserved.
    V2,
}

/// The version that a header byte names.
pub open spec fn version_of(b: u8) -> LinearVersion {
    if b == 1 {
        LinearVersion::V1
    } else if b == 2 {
        LinearVersion::V2
    } else {
        LinearVersion::Invalid
    }
}

/// The header byte of a version.
pub open spec fn version_byte(v: LinearVersion) -> u8 {
    match v {
        LinearVersion::Invalid => 0,
        LinearVersion::V1 => 1,
        LinearVersion::V2 => 2,
    }
}

impl LinearVersion {
    pub fn from_byte(b: u8) -> (r: LinearVersion)
        ensures
            r == version_of(b),
    {
        match b {
            1 => LinearVersion::V1,
            2 => LinearVersion::V2,
            _ => LinearVersion::Invalid,
        }
    }

    pub fn to_byte(&self) -> (r: u8)
        ensures
            r == version_byte(*self),
    {
        match self {
            LinearVersion::Invalid => 0,
            LinearVersion::V1 => 1,
            LinearVersion::V2 => 2,
        }
    }
}

impl From<u8> for LinearVersion {
    fn from(b: u8) -> (r: LinearVersion) {
        LinearVersion::from_byte(b)
    }
}

impl vstd::std_specs::convert::FromSpecImpl<u8> for LinearVersion {
    open spec fn obeys_from_spec() -> bool {
        true
    }

    open spec fn from_spec(b: u8) -> LinearVersion {
        version_of(b)
    }
}

/// The header that follows the signature.
#[derive(Debug, Clone, Copy, PartialEq, Eq, Structural)]
pub struct LinearFileHeader {
    pub version: LinearVersion,
    /// Newest chunk timestamp.
    pub newest_timestamp: u64,
    /// zstd level the stream was written with.
    pub compression_level: u8,
    /// Number of chunks of non-zero size.
    pub chunks_count: u16,
    /// Bytes of the zstd stream.
    pub chunks_bytes: u32,
    /// Reserved; written as zero.
    pub region_hash: u64,
}

/// The 24 bytes of header `h`.
pub open spec fn header_bytes(h: LinearFileHeader) -> Seq<u8> {
    seq![version_byte(h.version)] + (u64_be(h.newest_timestamp) + (seq![h.compression_level] + (
    u16_be(h.chunks_count) + (u32_be(h.chunks_bytes) + u64_be(h.region_hash)))))
}

/// The header that 24 bytes `b` hold.
pub open spec fn header_of(b: Seq<u8>) -> LinearFileHeader {
    LinearFileHeader {
        version: version_of(b[0]),
        newest_timestamp: u64_at(b, 1),
        compression_level: b[9],
        chunks_count: u16_at(b, 10),
        chunks_bytes: u32_at(b, 12),
        region_hash: u64_at(b, 16),
    }
}

impl LinearFileHeader {
    /// `Err(InvalidHeader)` for version `None`, else `Ok`.
    pub fn check_version(&self) -> (r: Result<(), ChunkReadingError>)
        ensures
            r is Ok <==> self.version != LinearVersion::Invalid,
            r matches Err(e) ==> e == ChunkReadingError::InvalidHeader,
    {
        match self.version {
            LinearVersion::Invalid => Err(ChunkReadingError::InvalidHeader),
            _ => Ok(()),
        }
    }

    /// Reads a header from its 24 bytes.
    pub fn from_bytes(bytes: &[u8]) -> (r: LinearFileHeader)
        requires
            bytes@.len() == FILE_HEADER_SIZE,
        ensures
            r == header_of(bytes@),
    {
        LinearFileHeader {
            version: LinearVersion::from_byte(bytes[0]),
            newest_timestamp: read_u64(bytes, 1),
            compression_level: bytes[9],
            chunks_count: read_u16(bytes, 10),
            chunks_bytes: read_u32(bytes, 12),
            region_hash: read_u64(bytes, 16),
        }
    }

    /// The 24 bytes of this header.
    pub fn to_bytes(&self) -> (r: Vec<u8>)
        ensures
            r@ == header_bytes(*self),
    {
        let mut out: Vec<u8> = Vec::new();
        out.push(self.version.to_byte());
        push_u64(&mut out, self.newest_timestamp);
        out.push(self.compression_level);
        push_u16(&mut out, self.chunks_count);
        push_u32(&mut out, self.chunks_bytes);
        push_u64(&mut out, self.region_hash);
        assert(out@ =~= header_bytes(*self));
        out
    }
}

/// Reading the bytes of a header gives it back.
pub proof fn lemma_header_round_trip(h: LinearFileHeader)
    ensures
        header_bytes(h).len() == FILE_HEADER_SIZE,
        header_of(header_bytes(h)) == h,
{
    let b = header_bytes(h);
    crate::be::lemma_u64_round_trip(h.newest_timestamp);
    crate::be::lemma_u64_round_trip(h.region_hash);
    crate::be::lemma_u16_round_trip(h.chunks_count);
    crate::be::lemma_u32_round_trip(h.chunks_bytes);
    assert(b.subrange(1, 9) =~= u64_be(h.newest_timestamp));
    assert(u64_at(b, 1) == u64_at(u64_be(h.newest_timestamp), 0));
    assert(u16_at(b, 10) == u16_at(u16_be(h.chunks_count), 0));
    assert(u32_at(b, 12) == u32_at(u32_be(h.chunks_bytes), 0));
    assert(u64_at(b, 16) == u64_at(u64_be(h.region_hash), 0));
}

/// Size and timestamp of one chunk slot; size zero means absent.
#[derive(Debug, Clone, Copy, PartialEq, Eq, Structural)]
pub struct LinearChunkHeader {
    pub size: u32,
    pub timestamp: u32,
}

/// The in-memory form of a Linear region: 1024 chunk headers and the chunk
/// documents of the non-empty slots, concatenated in index order.
pub struct LinearFile {
    pub chunks_headers: Vec<LinearChunkHeader>,
    pub chunks_data: Vec<u8>,
}

/// Total size of the first `n` slots.
pub open spec fn sum_sizes(hs: Seq<LinearChunkHeader>, n: nat) -> nat
    decreases n,
{
    if n == 0 {
        0
    } else {
        sum_sizes(hs, (n - 1) as nat) + hs[n - 1].size as nat
    }
}

/// The bytes of the documents in slot `i`.
pub open spec fn slot_bytes(hs: Seq<LinearChunkHeader>, data: Seq<u8>, i: int) -> Seq<u8> {
    data.subrange(sum_sizes(hs, i as nat) as int, sum_sizes(hs, i as nat) + hs[i].size)
}

/// The 8 bytes of a chunk header: size, then timestamp.
pub open spec fn chunk_header_bytes(h: LinearChunkHeader) -> Seq<u8> {
    u32_be(h.size) + u32_be(h.timestamp)
}

/// The decompressed stream of a region: its chunk headers, then its data.
pub open spec fn payload_of(hs: Seq<LinearChunkHeader>, data: Seq<u8>) -> Seq<u8> {
    flat(hs.map_values(|h: LinearChunkHeader| chunk_header_bytes(h)), 8) + data
}

/// Newest timestamp among the first `n` headers.
pub open spec fn newest(hs: Seq<LinearChunkHeader>, n: nat) -> u32
    decreases n,
{
    if n == 0 {
        0
    } else {
        let m = newest(hs, (n - 1) as nat);
        if hs[n - 1].timestamp > m {
            hs[n - 1].timestamp
        } else {
            m
        }
    }
}

/// Number of non-empty slots among the first `n`.
pub open spec fn count_present(hs: Seq<LinearChunkHeader>, n: nat) -> nat
    decreases n,
{
    if n == 0 {
        0
    } else {
        count_present(hs, (n - 1) as nat) + if hs[n - 1].size != 0 {
            1nat
        } else {
            0nat
        }
    }
}

/// The file header written for a region whose zstd stream is `compressed`.
pub open spec fn file_header_of(hs: Seq<LinearChunkHeader>, compressed: Seq<u8>, level: i32) -> LinearFileHeader {
    LinearFileHeader {
        version: LinearVersion::V1,
        newest_timestamp: newest(hs, CHUNK_COUNT as nat) as u64,
        compression_level: level as u8,
        chunks_count: count_present(hs, CHUNK_COUNT as nat) as u16,
        chunks_bytes: compressed.len() as u32,
        region_hash: 0,
    }
}

/// The bytes of a Linear file whose zstd stream is `compressed`.
pub open spec fn file_bytes(hs: Seq<LinearChunkHeader>, compressed: Seq<u8>, level: i32) -> Seq<u8> {
    signature() + (header_bytes(file_header_of(hs, compressed, level)) + (compressed + signature()))
}

proof fn lemma_sum_mono(hs: Seq<LinearChunkHeader>, i: nat, n: nat)
    requires
        i <= n <= hs.len(),
    ensures
        sum_sizes(hs, i) + hs[i as int].size <= sum_sizes(hs, n) || i == n,
        sum_sizes(hs, i) <= sum_sizes(hs, n),
    decreases n,
{
    if i < n {
        lemma_sum_mono(hs, i, (n - 1) as nat);
    }
}

proof fn lemma_count_bound(hs: Seq<LinearChunkHeader>, n: nat)
    ensures
        count_present(hs, n) <= n,
    decreases n,
{
    if n > 0 {
        lemma_count_bound(hs, (n - 1) as nat);
    }
}

impl LinearFile {
    /// 1024 headers and data as long as the sizes together.
    pub open spec fn wf(&self) -> bool {
        &&& self.chunks_headers@.len() == CHUNK_COUNT
        &&& self.chunks_data@.len() == sum_sizes(self.chunks_headers@, CHUNK_COUNT as nat)
    }

    /// An empty region.
    pub fn new() -> (r: LinearFile)
        ensures
            r.wf(),
            forall|i: int| 0 <= i < CHUNK_COUNT ==> #[trigger] r.chunks_headers@[i] == (
            LinearChunkHeader { size: 0, timestamp: 0 }),
            r.chunks_data@.len() == 0,
    {
        let mut hs: Vec<LinearChunkHeader> = Vec::new();
        let mut i: usize = 0;
        while i < CHUNK_COUNT
            invariant
                i <= CHUNK_COUNT,
                hs@.len() == i,
                forall|k: int| 0 <= k < i ==> #[trigger] hs@[k] == (LinearChunkHeader { size: 0, timestamp: 0 }),
                sum_sizes(hs@, i as nat) == 0,
            decreases CHUNK_COUNT - i,
        {
            let ghost before = hs@;
            hs.push(LinearChunkHeader { size: 0, timestamp: 0 });
            proof {
                lemma_sum_prefix(before, hs@, i as nat);
            }
            i = i + 1;
        }
        LinearFile { chunks_headers: hs, chunks_data: Vec::new() }
    }

    /// Offset of slot `index` in the data: the sizes of the slots before it.
    fn offset_of(&self, index: usize) -> (r: usize)
        requires
            self.wf(),
            index < CHUNK_COUNT,
        ensures
            r == sum_sizes(self.chunks_headers@, index as nat),
            r + self.chunks_headers@[index as int].size <= self.chunks_data@.len(),
    {
        let ghost hs = self.chunks_headers@;
        proof {
            lemma_sum_mono(hs, index as nat, CHUNK_COUNT as nat);
        }
        let dlen = self.chunks_data.len();
        let mut acc: usize = 0;
        let mut i: usize = 0;
        while i < index
            invariant
                dlen == self.chunks_data@.len(),
                self.wf(),
                hs == self.chunks_headers@,
                i <= index < CHUNK_COUNT,
                acc == sum_sizes(hs, i as nat),
                sum_sizes(hs, index as nat) <= self.chunks_data@.len(),
            decreases index - i,
        {
            proof {
                lemma_sum_mono(hs, (i + 1) as nat, index as nat);
            }
            acc = acc + self.chunks_headers[i].size as usize;
            i = i + 1;
        }
        acc
    }

    /// Decodes the chunk at `at` from its slot: `ChunkNotExist` for an empty slot.
    pub fn get_chunk(&self, at: ChunkPos) -> (r: Result<ChunkData, ChunkReadingError>)
        requires
            self.wf(),
        ensures
            ({
                let i = index_of(at.x as int, at.z as int);
                if self.chunks_headers@[i].size == 0 {
                    r == Err::<ChunkData, ChunkReadingError>(ChunkReadingError::ChunkNotExist)
                } else {
                    match decode_chunk(slot_bytes(self.chunks_headers@, self.chunks_data@, i), at.x, at.z) {
                        Ok(c) => r matches Ok(d) && d@ == c,
                        Err(e) => r == Err::<ChunkData, ChunkReadingError>(ChunkReadingError::ParsingError(e)),
                    }
                }
            }),
    {
        let index = get_chunk_index(at.x, at.z);
        let size = self.chunks_headers[index].size as usize;
        if size == 0 {
            return Err(ChunkReadingError::ChunkNotExist);
        }
        let start = self.offset_of(index);
        let dlen = self.chunks_data.len();
        let piece = vstd::slice::slice_subrange(self.chunks_data.as_slice(), start, start + size);
        match ChunkData::from_bytes(piece, at) {
            Ok(c) => Ok(c),
            Err(e) => Err(ChunkReadingError::ParsingError(e)),
        }
    }
}

proof fn lemma_sum_prefix(a: Seq<LinearChunkHeader>, b: Seq<LinearChunkHeader>, n: nat)
    requires
        n <= a.len(),
        n <= b.len(),
        a.subrange(0, n as int) == b.subrange(0, n as int) || forall|k: int| 0 <= k < n ==> a[k] == b[k],
    ensures
        sum_sizes(a, n) == sum_sizes(b, n),
    decreases n,
{
    if n > 0 {
        if a.subrange(0, n as int) == b.subrange(0, n as int) {
            assert forall|k: int| 0 <= k < n implies a[k] == b[k] by {
                assert(a.subrange(0, n as int)[k] == b.subrange(0, n as int)[k]);
            }
        }
        lemma_sum_prefix(a, b, (n - 1) as nat);
    }
}

proof fn lemma_sum_update(hs: Seq<LinearChunkHeader>, k: int, h: LinearChunkHeader, n: nat)
    requires
        0 <= k < hs.len(),
        n <= hs.len(),
    ensures
        n <= k ==> sum_sizes(hs.update(k, h), n) == sum_sizes(hs, n),
        n > k ==> sum_sizes(hs.update(k, h), n) + hs[k].size == sum_sizes(hs, n) + h.size,
    decreases n,
{
    if n > 0 {
        lemma_sum_update(hs, k, h, (n - 1) as nat);
    }
}

/// Headers that the first 8192 bytes of a decompressed stream hold.
pub open spec fn headers_of(b: Seq<u8>) -> Seq<LinearChunkHeader> {
    Seq::new(
        CHUNK_COUNT as nat,
        |i: int| LinearChunkHeader { size: u32_at(b, 8 * i), timestamp: u32_at(b, 8 * i + 4) },
    )
}

/// Whether a decompressed stream holds 1024 headers and exactly their data.
pub open spec fn payload_ok(b: Seq<u8>) -> bool {
    b.len() >= CHUNK_HEADER_BYTES_SIZE && b.len() - CHUNK_HEADER_BYTES_SIZE == sum_sizes(
        headers_of(b),
        CHUNK_COUNT as nat,
    )
}

/// Whether `b` starts and ends with the signature around a header and a stream
/// that fits between them.
pub open spec fn frame_ok(b: Seq<u8>) -> bool {
    &&& b.len() >= 40
    &&& b.subrange(0, 8) == signature()
    &&& b.subrange(b.len() - 8, b.len() as int) == signature()
}

/// The zstd stream of a framed file.
pub open spec fn stream_in(b: Seq<u8>) -> Seq<u8> {
    b.subrange(32, 32 + header_of(b.subrange(8, 32)).chunks_bytes)
}

/// What reading file bytes `b` gives: `InvalidHeader` for a missing signature,
/// version zero or a stream that overruns the file, `ZstdError` for a stream that
/// does not decompress, `InvalidHeader` for a stream that is not headers and their
/// data, else those headers and data.
pub open spec fn load_outcome(b: Seq<u8>) -> Result<(Seq<LinearChunkHeader>, Seq<u8>), ChunkReadingError> {
    if !frame_ok(b) || header_of(b.subrange(8, 32)).version == LinearVersion::Invalid || 32
        + header_of(b.subrange(8, 32)).chunks_bytes > b.len() - 8 {
        Err(ChunkReadingError::InvalidHeader)
    } else {
        match unzstd_of(stream_in(b)) {
            None => Err(ChunkReadingError::Compression(CompressionError::ZstdError)),
            Some(p) => if payload_ok(p) {
                Ok((headers_of(p), p.skip(CHUNK_HEADER_BYTES_SIZE as int)))
            } else {
                Err(ChunkReadingError::InvalidHeader)
            },
        }
    }
}

/// Headers and data after chunk `c` is put into the slot of its position with
/// timestamp `ts`.
pub open spec fn put_one(hs: Seq<LinearChunkHeader>, data: Seq<u8>, c: ChunkView, ts: u32) -> (
    Seq<LinearChunkHeader>,
    Seq<u8>,
) {
    let i = index_of(c.0 as int, c.1 as int);
    (
        hs.update(i, LinearChunkHeader { size: chunk_bytes(c).len() as u32, timestamp: ts }),
        spliced(hs, data, i, chunk_bytes(c)),
    )
}

/// Headers and data after each chunk of `cs` is put in turn.
pub open spec fn put_all(hs: Seq<LinearChunkHeader>, data: Seq<u8>, cs: Seq<ChunkView>, ts: u32) -> (
    Seq<LinearChunkHeader>,
    Seq<u8>,
)
    decreases cs.len(),
{
    if cs.len() == 0 {
        (hs, data)
    } else {
        let prev = put_all(hs, data, cs.drop_last(), ts);
        put_one(prev.0, prev.1, cs.last(), ts)
    }
}

impl LinearFile {
    /// Stores `chunk` in the slot of `at` with timestamp `timestamp`, moving the
    /// data of the later slots. Fails, changing nothing, when the chunk cannot be
    /// encoded.
    pub fn put_chunk(&mut self, chunk: &ChunkData, at: ChunkPos, timestamp: u32) -> (r: Result<(), ChunkWritingError>)
        requires
            old(self).wf(),
        ensures
            final(self).wf(),
            r is Ok <==> chunk_wf(chunk@),
            r is Err ==> final(self).chunks_headers@ == old(self).chunks_headers@
                && final(self).chunks_data@ == old(self).chunks_data@,
            r is Ok ==> ({
                let i = index_of(at.x as int, at.z as int);
                let hs = old(self).chunks_headers@;
                &&& final(self).chunks_headers@ == hs.update(
                    i,
                    LinearChunkHeader { size: chunk_bytes(chunk@).len() as u32, timestamp },
                )
                &&& final(self).chunks_data@ == spliced(hs, old(self).chunks_data@, i, chunk_bytes(chunk@))
            }),
            r matches Err(e) ==> e == ChunkWritingError::SerializingError,
    {
        let raw = match chunk_to_bytes(chunk) {
            Ok(b) => b,
            Err(e) => return Err(e),
        };
        let index = get_chunk_index(at.x, at.z);
        let start = self.offset_of(index);
        let old_size = self.chunks_headers[index].size as usize;
        let dlen = self.chunks_data.len();
        let mut data: Vec<u8> = Vec::new();
        push_bytes(&mut data, vstd::slice::slice_subrange(self.chunks_data.as_slice(), 0, start));
        push_bytes(&mut data, raw.as_slice());
        push_bytes(&mut data, vstd::slice::slice_subrange(self.chunks_data.as_slice(), start + old_size, dlen));
        let ghost hs = self.chunks_headers@;
        let h = LinearChunkHeader { size: raw.len() as u32, timestamp };
        self.chunks_headers.set(index, h);
        self.chunks_data = data;
        proof {
            lemma_sum_update(hs, index as int, h, CHUNK_COUNT as nat);
        }
        Ok(())
    }

    /// Puts each chunk in turn into the slot of its position, with `timestamp`.
    /// Stops at the first chunk that cannot be encoded.
    pub fn put_chunks(&mut self, chunks: &[ChunkData], timestamp: u32) -> (r: Result<(), ChunkWritingError>)
        requires
            old(self).wf(),
        ensures
            final(self).wf(),
            r is Ok <==> forall|i: int| 0 <= i < chunks@.len() ==> chunk_wf(#[trigger] chunks@[i]@),
            r is Ok ==> (final(self).chunks_headers@, final(self).chunks_data@) == put_all(
                old(self).chunks_headers@,
                old(self).chunks_data@,
                chunks@.map_values(|c: ChunkData| c@),
                timestamp,
            ),
            r matches Err(e) ==> e == ChunkWritingError::SerializingError,
    {
        let ghost cs = chunks@.map_values(|c: ChunkData| c@);
        let mut i: usize = 0;
        while i < chunks.len()
            invariant
                self.wf(),
                cs == chunks@.map_values(|c: ChunkData| c@),
                i <= chunks@.len(),
                forall|k: int| 0 <= k < i ==> chunk_wf(#[trigger] chunks@[k]@),
                (self.chunks_headers@, self.chunks_data@) == put_all(
                    old(self).chunks_headers@,
                    old(self).chunks_data@,
                    cs.subrange(0, i as int),
                    timestamp,
                ),
            decreases chunks@.len() - i,
        {
            let c = &chunks[i];
            proof {
                let sub = cs.subrange(0, i + 1);
                assert(sub.drop_last() =~= cs.subrange(0, i as int));
                assert(sub.last() == c@);
            }
            match self.put_chunk(c, c.position, timestamp) {
                Ok(()) => {},
                Err(e) => {
                    return Err(e);
                },
            }
            i = i + 1;
        }
        assert(cs.subrange(0, i as int) =~= cs);
        Ok(())
    }

    /// The decompressed stream of this region: each chunk header (size, then
    /// timestamp, big-endian), then the data.
    pub fn to_payload(&self) -> (r: Vec<u8>)
        requires
            self.wf(),
        ensures
            r@ == payload_of(self.chunks_headers@, self.chunks_data@),
    {
        let ghost hs = self.chunks_headers@;
        let mut out: Vec<u8> = Vec::new();
        let mut i: usize = 0;
        assert(hs.subrange(0, 0).map_values(|h: LinearChunkHeader| chunk_header_bytes(h)) =~= Seq::<Seq<u8>>::empty());
        assert(out@ =~= flat(hs.subrange(0, 0).map_values(|h: LinearChunkHeader| chunk_header_bytes(h)), 8));
        while i < CHUNK_COUNT
            invariant
                self.wf(),
                hs == self.chunks_headers@,
                i <= CHUNK_COUNT,
                out@ == flat(hs.subrange(0, i as int).map_values(|h: LinearChunkHeader| chunk_header_bytes(h)), 8),
            decreases CHUNK_COUNT - i,
        {
            let ghost before = hs.subrange(0, i as int).map_values(|h: LinearChunkHeader| chunk_header_bytes(h));
            let h = self.chunks_headers[i];
            push_u32(&mut out, h.size);
            push_u32(&mut out, h.timestamp);
            proof {
                assert(hs.subrange(0, i + 1).map_values(|h: LinearChunkHeader| chunk_header_bytes(h)) =~= before.push(chunk_header_bytes(h)));
                lemma_flat_push(before, 8, chunk_header_bytes(h));
            }
            i = i + 1;
        }
        assert(hs.subrange(0, CHUNK_COUNT as int) =~= hs);
        push_bytes(&mut out, self.chunks_data.as_slice());
        out
    }

    /// Reads a region from its decompressed stream. Fails when the stream is
    /// shorter than the headers or its data is not as long as their sizes together.
    pub fn from_payload(b: &[u8]) -> (r: Result<LinearFile, ChunkReadingError>)
        ensures
            r is Ok <==> payload_ok(b@),
            r matches Ok(f) ==> (f.wf() && f.chunks_headers@ == headers_of(b@) && f.chunks_data@ == b@.skip(
                CHUNK_HEADER_BYTES_SIZE as int,
            )),
            r matches Err(e) ==> e == ChunkReadingError::InvalidHeader,
    {
        if b.len() < CHUNK_HEADER_BYTES_SIZE {
            return Err(ChunkReadingError::InvalidHeader);
        }
        let mut hs: Vec<LinearChunkHeader> = Vec::new();
        let mut total: u64 = 0;
        let mut i: usize = 0;
        while i < CHUNK_COUNT
            invariant
                b@.len() >= CHUNK_HEADER_BYTES_SIZE,
                i <= CHUNK_COUNT,
                hs@.len() == i,
                forall|k: int| 0 <= k < i ==> #[trigger] hs@[k] == headers_of(b@)[k],
                total == sum_sizes(hs@, i as nat),
                total <= i * 0xffff_ffff,
            decreases CHUNK_COUNT - i,
        {
            let h = LinearChunkHeader { size: read_u32(b, 8 * i), timestamp: read_u32(b, 8 * i + 4) };
            let ghost before = hs@;
            hs.push(h);
            proof {
                lemma_sum_prefix(before, hs@, i as nat);
            }
            total = total + h.size as u64;
            i = i + 1;
        }
        assert(hs@ =~= headers_of(b@));
        if (b.len() - CHUNK_HEADER_BYTES_SIZE) as u64 != total {
            return Err(ChunkReadingError::InvalidHeader);
        }
        let data = vstd::slice::slice_to_vec(vstd::slice::slice_subrange(b, CHUNK_HEADER_BYTES_SIZE, b.len()));
        assert(data@ =~= b@.skip(CHUNK_HEADER_BYTES_SIZE as int));
        Ok(LinearFile { chunks_headers: hs, chunks_data: data })
    }

    /// The bytes of this region as a file, the stream compressed by zstd at
    /// `level`: signature, header, stream, signature. Fails when compression
    /// fails or the stream is longer than its 32-bit length field allows.
    pub fn save(&self, level: i32) -> (r: Result<Vec<u8>, ChunkWritingError>)
        requires
            self.wf(),
        ensures
            r is Ok <==> zstd_of(payload_of(self.chunks_headers@, self.chunks_data@), level).len()
                <= 0xffff_ffff,
            r matches Ok(b) ==> (b@ == file_bytes(
                self.chunks_headers@,
                zstd_of(payload_of(self.chunks_headers@, self.chunks_data@), level),
                level,
            ) && b@.subrange(0, 8) == signature() && b@.subrange(b@.len() - 8, b@.len() as int)
                == signature()),
            r matches Ok(b) ==> load_outcome(b@) == Ok::<(Seq<LinearChunkHeader>, Seq<u8>), ChunkReadingError>(
                (self.chunks_headers@, self.chunks_data@),
            ),
            r matches Err(e) ==> e == ChunkWritingError::SerializingError,
    {
        let payload = self.to_payload();
        let compressed = match zstd_compress(payload.as_slice(), level) {
            Ok(c) => c,
            Err(e) => return Err(ChunkWritingError::Compression(e)),
        };
        if compressed.len() > 0xffff_ffff {
            return Err(ChunkWritingError::SerializingError);
        }
        let ghost hs = self.chunks_headers@;
        let mut newest_ts: u32 = 0;
        let mut count: u16 = 0;
        let mut i: usize = 0;
        while i < CHUNK_COUNT
            invariant
                self.wf(),
                hs == self.chunks_headers@,
                i <= CHUNK_COUNT,
                newest_ts == newest(hs, i as nat),
                count as nat == count_present(hs, i as nat),
            decreases CHUNK_COUNT - i,
        {
            proof {
                lemma_count_bound(hs, i as nat);
            }
            let h = self.chunks_headers[i];
            if h.timestamp > newest_ts {
                newest_ts = h.timestamp;
            }
            if h.size != 0 {
                count = count + 1;
            }
            i = i + 1;
        }
        let header = LinearFileHeader {
            version: LinearVersion::V1,
            newest_timestamp: newest_ts as u64,
            compression_level: level as u8,
            chunks_count: count,
            chunks_bytes: compressed.len() as u32,
            region_hash: 0,
        };
        let sig = signature_bytes();
        let mut out: Vec<u8> = Vec::new();
        push_bytes(&mut out, &sig);
        push_bytes(&mut out, header.to_bytes().as_slice());
        push_bytes(&mut out, compressed.as_slice());
        push_bytes(&mut out, &sig);
        assert(out@ =~= file_bytes(hs, compressed@, level));
        assert(out@.subrange(0, 8) =~= signature());
        assert(out@.subrange(out@.len() - 8, out@.len() as int) =~= signature());
        proof {
            lemma_saved_file_loads(hs, self.chunks_data@, compressed@, level);
        }
        Ok(out)
    }

    /// Reads a region from the bytes of a file. Both signatures are checked before
    /// the stream is read; a missing signature, a version of zero or a stream
    /// length that overruns the file is `InvalidHeader`.
    pub fn load(b: &[u8]) -> (r: Result<LinearFile, ChunkReadingError>)
        ensures
            match load_outcome(b@) {
                Ok((hs, data)) => (r matches Ok(f) && f.wf() && f.chunks_headers@ == hs
                    && f.chunks_data@ == data),
                Err(e) => r == Err::<LinearFile, ChunkReadingError>(e),
            },
    {
        let n = b.len();
        if n < 40 {
            return Err(ChunkReadingError::InvalidHeader);
        }
        let sig = signature_bytes();
        let mut k: usize = 0;
        while k < 8
            invariant
                n == b@.len() >= 40,
                sig@ == signature(),
                k <= 8,
                forall|t: int| 0 <= t < k ==> b@[t] == sig@[t] && b@[n - 8 + t] == sig@[t],
            decreases 8 - k,
        {
            if b[k] != sig[k] || b[n - 8 + k] != sig[k] {
                assert(b@.subrange(0, 8)[k as int] != signature()[k as int] || b@.subrange(n - 8, n as int)[k as int] != signature()[k as int]);
                return Err(ChunkReadingError::InvalidHeader);
            }
            k = k + 1;
        }
        assert(b@.subrange(0, 8) =~= signature());
        assert(b@.subrange(n - 8, n as int) =~= signature());
        let header = LinearFileHeader::from_bytes(vstd::slice::slice_subrange(b, 8, 32));
        match header.check_version() {
            Ok(()) => {},
            Err(e) => return Err(e),
        }
        let cb = header.chunks_bytes as usize;
        if cb > n - 40 {
            return Err(ChunkReadingError::InvalidHeader);
        }
        let stream = vstd::slice::slice_subrange(b, 32, 32 + cb);
        let payload = match zstd_decompress(stream) {
            Ok(p) => p,
            Err(e) => return Err(ChunkReadingError::Compression(e)),
        };
        LinearFile::from_payload(payload.as_slice())
    }
}

/// After a chunk is put into its slot, that slot holds exactly the chunk's bytes,
/// which read back as the chunk, and every other slot holds what it held.
pub proof fn lemma_put_get(
    hs: Seq<LinearChunkHeader>,
    data: Seq<u8>,
    c: ChunkView,
    timestamp: u32,
)
    requires
        hs.len() == CHUNK_COUNT,
        data.len() == sum_sizes(hs, CHUNK_COUNT as nat),
        chunk_wf(c),
        chunk_bytes(c).len() <= 0xffff_ffff,
    ensures
        ({
            let i = index_of(c.0 as int, c.1 as int);
            let raw = chunk_bytes(c);
            let hs2 = hs.update(i, LinearChunkHeader { size: raw.len() as u32, timestamp });
            let data2 = spliced(hs, data, i, raw);
            &&& data2.len() == sum_sizes(hs2, CHUNK_COUNT as nat)
            &&& slot_bytes(hs2, data2, i) == raw
            &&& decode_chunk(slot_bytes(hs2, data2, i), c.0, c.1) == Ok::<ChunkView, ChunkParsingError>(c)
            &&& forall|j: int| 0 <= j < CHUNK_COUNT && j != i ==> #[trigger] slot_bytes(hs2, data2, j)
                == slot_bytes(hs, data, j)
        }),
{
    let i = index_of(c.0 as int, c.1 as int);
    crate::coords::lemma_grid_indexing(c.0 as int, c.1 as int, 0, 0);
    let off = sum_sizes(hs, i as nat);
    let raw = chunk_bytes(c);
    let h = LinearChunkHeader { size: raw.len() as u32, timestamp };
    let hs2 = hs.update(i, h);
    let old_size = hs[i].size as int;
    let data2 = spliced(hs, data, i, raw);
    lemma_sum_mono(hs, i as nat, CHUNK_COUNT as nat);
    lemma_sum_update(hs, i, h, CHUNK_COUNT as nat);
    lemma_sum_update(hs, i, h, i as nat);
    assert(data2.len() == sum_sizes(hs2, CHUNK_COUNT as nat));
    assert(slot_bytes(hs2, data2, i) =~= raw);
    crate::chunk::lemma_chunk_round_trip(c);
    assert forall|j: int| 0 <= j < CHUNK_COUNT && j != i implies #[trigger] slot_bytes(hs2, data2, j)
        == slot_bytes(hs, data, j) by {
        lemma_sum_update(hs, i, h, j as nat);
        assert(hs2[j] == hs[j]);
        if j < i {
            lemma_sum_mono(hs, j as nat, i as nat);
            assert(slot_bytes(hs2, data2, j) =~= slot_bytes(hs, data, j));
        } else {
            lemma_sum_mono(hs, (i + 1) as nat, j as nat);
            lemma_sum_mono(hs, j as nat, CHUNK_COUNT as nat);
            assert(sum_sizes(hs, (i + 1) as nat) == off + old_size);
            let sj = sum_sizes(hs, j as nat) as int;
            let sj2 = sum_sizes(hs2, j as nat) as int;
            assert(sj2 == sj - old_size + raw.len());
            assert forall|t: int| 0 <= t < hs[j].size implies slot_bytes(hs2, data2, j)[t] == #[trigger] slot_bytes(hs, data, j)[t] by {
                assert(data2[sj2 + t] == data[sj + t]);
            }
            assert(slot_bytes(hs2, data2, j) =~= slot_bytes(hs, data, j));
        }
    }
}

proof fn lemma_payload_entry(hs: Seq<LinearChunkHeader>, data: Seq<u8>, i: int)
    requires
        hs.len() == CHUNK_COUNT,
        0 <= i < CHUNK_COUNT,
    ensures
        headers_of(payload_of(hs, data))[i] == hs[i],
{
    let recs = hs.map_values(|h: LinearChunkHeader| chunk_header_bytes(h));
    let f = flat(recs, 8);
    let p = payload_of(hs, data);
    crate::document::lemma_flat_at(recs, 8, i);
    let e = chunk_header_bytes(hs[i]);
    assert(recs[i] == e);
    assert(f.subrange(i * 8, i * 8 + 8) == e);
    assert forall|t: int| 0 <= t < 8 implies p[8 * i + t] == #[trigger] e[t] by {
        assert(f.subrange(i * 8, i * 8 + 8)[t] == f[8 * i + t]);
    }
    crate::be::lemma_u32_round_trip(hs[i].size);
    crate::be::lemma_u32_round_trip(hs[i].timestamp);
    assert(u32_at(p, 8 * i) == u32_at(u32_be(hs[i].size), 0));
    assert(u32_at(p, 8 * i + 4) == u32_at(u32_be(hs[i].timestamp), 0));
}

/// The data after the bytes of slot `i` are replaced by `raw`.
pub open spec fn spliced(hs: Seq<LinearChunkHeader>, data: Seq<u8>, i: int, raw: Seq<u8>) -> Seq<u8> {
    let off = sum_sizes(hs, i as nat) as int;
    data.subrange(0, off) + raw + data.subrange(off + hs[i].size, data.len() as int)
}

/// Putting the same chunk bytes into a slot a second time leaves the data as the
/// first put left it; only the slot's timestamp changes.
pub proof fn lemma_put_twice(
    hs: Seq<LinearChunkHeader>,
    data: Seq<u8>,
    i: int,
    raw: Seq<u8>,
    t1: u32,
    t2: u32,
)
    requires
        hs.len() == CHUNK_COUNT,
        data.len() == sum_sizes(hs, CHUNK_COUNT as nat),
        0 <= i < CHUNK_COUNT,
        raw.len() <= 0xffff_ffff,
    ensures
        ({
            let hs1 = hs.update(i, LinearChunkHeader { size: raw.len() as u32, timestamp: t1 });
            let data1 = spliced(hs, data, i, raw);
            let hs2 = hs1.update(i, LinearChunkHeader { size: raw.len() as u32, timestamp: t2 });
            &&& spliced(hs1, data1, i, raw) == data1
            &&& hs2 == hs.update(i, LinearChunkHeader { size: raw.len() as u32, timestamp: t2 })
        }),
{
    let h1 = LinearChunkHeader { size: raw.len() as u32, timestamp: t1 };
    let hs1 = hs.update(i, h1);
    let data1 = spliced(hs, data, i, raw);
    lemma_sum_update(hs, i, h1, i as nat);
    lemma_sum_mono(hs, i as nat, CHUNK_COUNT as nat);
    let off = sum_sizes(hs, i as nat) as int;
    assert(sum_sizes(hs1, i as nat) == off);
    assert(spliced(hs1, data1, i, raw) =~= data1);
    let hs2 = hs1.update(i, LinearChunkHeader { size: raw.len() as u32, timestamp: t2 });
    assert(hs2 =~= hs.update(i, LinearChunkHeader { size: raw.len() as u32, timestamp: t2 }));
}

/// Reading the decompressed stream of a region gives its headers and data back.
pub proof fn lemma_payload_round_trip(hs: Seq<LinearChunkHeader>, data: Seq<u8>)
    requires
        hs.len() == CHUNK_COUNT,
        data.len() == sum_sizes(hs, CHUNK_COUNT as nat),
    ensures
        payload_ok(payload_of(hs, data)),
        headers_of(payload_of(hs, data)) == hs,
        payload_of(hs, data).skip(CHUNK_HEADER_BYTES_SIZE as int) == data,
{
    let p = payload_of(hs, data);
    assert forall|i: int| 0 <= i < CHUNK_COUNT implies #[trigger] headers_of(p)[i] == hs[i] by {
        lemma_payload_entry(hs, data, i);
    }
    assert(headers_of(p) =~= hs);
    assert(p.skip(CHUNK_HEADER_BYTES_SIZE as int) =~= data);
}

/// The bytes of a saved file carry both signatures, a header that reads back as
/// the one written, and exactly the compressed stream between them.
pub proof fn lemma_file_frame(hs: Seq<LinearChunkHeader>, compressed: Seq<u8>, level: i32)
    requires
        compressed.len() <= 0xffff_ffff,
    ensures
        frame_ok(file_bytes(hs, compressed, level)),
        header_of(file_bytes(hs, compressed, level).subrange(8, 32)) == file_header_of(hs, compressed, level),
        stream_in(file_bytes(hs, compressed, level)) == compressed,
{
    let h = file_header_of(hs, compressed, level);
    let b = file_bytes(hs, compressed, level);
    lemma_header_round_trip(h);
    assert(b.subrange(0, 8) =~= signature());
    assert(b.subrange(b.len() - 8, b.len() as int) =~= signature());
    assert(b.subrange(8, 32) =~= header_bytes(h));
    assert(stream_in(b) =~= compressed);
}

/// The Linear format: where a chunk's region and slot are.
#[derive(Debug, Clone, Copy, Default)]
pub struct LinearChunkFormat;

impl LinearChunkFormat {
    /// Region coordinates `(x >> 5, z >> 5)` of the chunk at `at`.
    pub fn get_region_coords(at: ChunkPos) -> (r: (i32, i32))
        ensures
            r.0 as int == crate::coords::region_of(at.x as int),
            r.1 as int == crate::coords::region_of(at.z as int),
    {
        crate::coords::get_region_coords(at.x, at.z)
    }

    /// Slot of the chunk at `at` in its region.
    pub fn get_chunk_index(at: ChunkPos) -> (r: usize)
        ensures
            r as int == index_of(at.x as int, at.z as int),
            r as int == ((((at.z & 31i32) << 5i32) | (at.x & 31i32)) as int),
            r < CHUNK_COUNT,
    {
        get_chunk_index(at.x, at.z)
    }
}

/// A file written around a stream that decompresses to a region's headers and
/// data reads back as that region.
#[verifier::rlimit(50)]
pub proof fn lemma_saved_file_loads(
    hs: Seq<LinearChunkHeader>,
    data: Seq<u8>,
    compressed: Seq<u8>,
    level: i32,
)
    requires
        hs.len() == CHUNK_COUNT,
        data.len() == sum_sizes(hs, CHUNK_COUNT as nat),
        compressed.len() <= 0xffff_ffff,
        unzstd_of(compressed) == Some(payload_of(hs, data)),
    ensures
        load_outcome(file_bytes(hs, compressed, level)) == Ok::<(Seq<LinearChunkHeader>, Seq<u8>), ChunkReadingError>((hs, data)),
{
    lemma_file_frame(hs, compressed, level);
    lemma_payload_round_trip(hs, data);
    let b = file_bytes(hs, compressed, level);
    let h = header_of(b.subrange(8, 32));
    let p = payload_of(hs, data);
    lemma_header_round_trip(file_header_of(hs, compressed, level));
    assert(b.len() == 40 + compressed.len());
    assert(h == file_header_of(hs, compressed, level));
    assert(h.version == LinearVersion::V1);
    assert(h.chunks_bytes as int == compressed.len());
    assert(frame_ok(b));
    assert(stream_in(b) == compressed);
    assert(unzstd_of(stream_in(b)) == Some(p));
    assert(payload_ok(p));
}

} // verus!
