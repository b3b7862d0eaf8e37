//! The Anvil region format: a location table and a timestamp table of 1024
//! entries each, then each present chunk's payload padded to 4096-byte sectors.
use vstd::prelude::*;

use crate::be::{push_u32, read_u32, u32_at, u32_be};
use crate::chunk::{chunk_bytes, chunk_to_bytes, chunk_wf, decode_chunk, ChunkData, ChunkPos};
use crate::compression::{
    codec_error, compressed_of, decompressed_of, is_known_tag, level_ok, opt_tag_of, Compression,
    NO_COMPRESSION,
};
use crate::coords::{get_chunk_index, index_of, CHUNK_COUNT};
use crate::document::{flat, lemma_flat_push, push_bytes};
use crate::errors::{ChunkParsingError, ChunkReadingError, ChunkWritingError, CompressionError};

verus! {

/// Bytes in one sector.
pub const SECTOR_BYTES: usize = 4096;

/// Bytes of the two tables at the start of a region file.
pub const TABLE_BYTES: usize = 8192;

/// Most sectors one chunk can take: its count is stored in eight bits.
pub const MAX_CHUNK_SECTORS: usize = 255;

/// One stored chunk: `length` counts the tag byte and the compressed stream.
pub struct AnvilChunkData {
    pub length: u32,
    pub compression: Option<Compression>,
    pub compressed_data: Vec<u8>,
}

/// Length field, algorithm and stored bytes of a chunk record.
pub type AnvilView = (u32, Option<Compression>, Seq<u8>);

impl View for AnvilChunkData {
    type V = AnvilView;

    open spec fn view(&self) -> AnvilView {
        (self.length, self.compression, self.compressed_data@)
    }
}

/// `n` zero bytes.
pub open spec fn zeros(n: nat) -> Seq<u8> {
    Seq::new(n, |i: int| 0u8)
}

/// Sectors taken by a record whose stored bytes number `n`.
pub open spec fn sectors_for(n: nat) -> nat {
    ((n + 5 + 4095) as nat / 4096) as nat
}

/// Whether a record fits in the largest sector count.
pub open spec fn record_fits(d: AnvilView) -> bool {
    d.2.len() + 5 <= MAX_CHUNK_SECTORS * SECTOR_BYTES
}

/// The sector image of a record: length, tag, stored bytes, zero padding.
pub open spec fn payload_bytes(d: AnvilView) -> Seq<u8> {
    u32_be(d.0) + (seq![opt_tag_of(d.1)] + (d.2 + zeros(
        (sectors_for(d.2.len()) * 4096 - (d.2.len() + 5)) as nat,
    )))
}

/// The algorithm that a known tag byte names; `None` for `3`.
pub open spec fn compression_of_tag(b: u8) -> Option<Compression> {
    if b == 1 {
        Some(Compression::GZip)
    } else if b == 2 {
        Some(Compression::ZLib)
    } else if b == 4 {
        Some(Compression::LZ4)
    } else if b == 127 {
        Some(Compression::Custom)
    } else {
        None
    }
}

/// The compressed stream of a record: the first `length - 1` stored bytes.
pub open spec fn stream_of(d: AnvilView) -> Seq<u8> {
    d.2.subrange(0, d.0 - 1)
}

/// Whether the length field of a record lies within its stored bytes.
pub open spec fn length_ok(d: AnvilView) -> bool {
    1 <= d.0 && d.0 - 1 <= d.2.len()
}

/// The chunk bytes inside a record, once decompressed; `None` when the codec
/// fails on its stream.
pub open spec fn raw_of(d: AnvilView) -> Option<Seq<u8>> {
    match d.1 {
        Some(c) => decompressed_of(c, stream_of(d)),
        None => Some(stream_of(d)),
    }
}

/// What decoding the chunk at `(x, z)` from record `d` gives: `InvalidHeader` for
/// a length field outside the stored bytes, the codec's error when its stream
/// does not decompress, else the outcome of decoding the chunk document.
pub open spec fn chunk_outcome(d: AnvilView, x: i32, z: i32) -> Result<
    crate::chunk::ChunkView,
    ChunkReadingError,
> {
    if !length_ok(d) {
        Err(ChunkReadingError::InvalidHeader)
    } else {
        match raw_of(d) {
            None => Err(ChunkReadingError::Compression(codec_error(d.1->0))),
            Some(raw) => match decode_chunk(raw, x, z) {
                Ok(c) => Ok(c),
                Err(e) => Err(ChunkReadingError::ParsingError(e)),
            },
        }
    }
}

/// The record that stores chunk `c` compressed with `comp` at `level`.
pub open spec fn record_of(c: crate::chunk::ChunkView, comp: Compression, level: u32) -> AnvilView {
    let data = compressed_of(comp, chunk_bytes(c), level);
    ((data.len() + 1) as u32, Some(comp), data)
}

/// Whether chunk `c` can be stored as a record: it encodes, the algorithm has an
/// implementation, and the record fits in 255 sectors.
pub open spec fn storable(c: crate::chunk::ChunkView, comp: Compression, level: u32) -> bool {
    chunk_wf(c) && comp != Compression::Custom && record_fits(record_of(c, comp, level))
}

proof fn lemma_sectors(n: nat)
    requires
        n + 5 <= MAX_CHUNK_SECTORS * SECTOR_BYTES,
    ensures
        1 <= sectors_for(n) <= MAX_CHUNK_SECTORS,
        sectors_for(n) * 4096 >= n + 5,
        sectors_for(n) * 4096 < n + 5 + 4096,
{
    let s = sectors_for(n);
    assert(s * 4096 <= n + 5 + 4095 < s * 4096 + 4096);
}

impl AnvilChunkData {
    /// Reads a record from its sector image: length, tag byte, then the stored
    /// bytes (padding included).
    pub fn from_bytes(bytes: &[u8]) -> (r: Result<AnvilChunkData, ChunkReadingError>)
        ensures
            bytes@.len() < 5 ==> r == Err::<AnvilChunkData, ChunkReadingError>(
                ChunkReadingError::InvalidHeader,
            ),
            bytes@.len() >= 5 && !is_known_tag(bytes@[4]) ==> r == Err::<
                AnvilChunkData,
                ChunkReadingError,
            >(ChunkReadingError::Compression(CompressionError::UnknownCompression)),
            bytes@.len() >= 5 && is_known_tag(bytes@[4]) ==> (r matches Ok(d) && d@ == (
                u32_at(bytes@, 0),
                compression_of_tag(bytes@[4]),
                bytes@.skip(5),
            )),
    {
        if bytes.len() < 5 {
            return Err(ChunkReadingError::InvalidHeader);
        }
        let length = read_u32(bytes, 0);
        let compression = match Compression::from_byte(bytes[4]) {
            Ok(c) => c,
            Err(_) => {
                return Err(ChunkReadingError::Compression(CompressionError::UnknownCompression));
            },
        };
        let data = vstd::slice::slice_to_vec(vstd::slice::slice_subrange(bytes, 5, bytes.len()));
        assert(data@ =~= bytes@.skip(5));
        Ok(AnvilChunkData { length, compression, compressed_data: data })
    }

    /// Appends the sector image of this record to `out`.
    pub fn write_to(&self, out: &mut Vec<u8>)
        requires
            record_fits(self@),
        ensures
            final(out)@ == old(out)@ + payload_bytes(self@),
    {
        let ghost o = out@;
        let n = self.compressed_data.len();
        proof {
            lemma_sectors(n as nat);
        }
        let sectors = (n + 5 + 4095) / 4096;
        let padded = sectors * 4096;
        push_u32(out, self.length);
        let tag = match self.compression {
            Some(c) => c.to_byte(),
            None => NO_COMPRESSION,
        };
        out.push(tag);
        push_bytes(out, self.compressed_data.as_slice());
        let mut k: usize = n + 5;
        let ghost mid = out@;
        while k < padded
            invariant
                n + 5 <= k <= padded,
                out@ == mid + zeros((k - (n + 5)) as nat),
            decreases padded - k,
        {
            out.push(0u8);
            k = k + 1;
            assert(out@ =~= mid + zeros((k - (n + 5)) as nat));
        }
        assert(out@ =~= o + payload_bytes(self@));
    }

    /// The sector image of this record.
    pub fn to_bytes(&self) -> (r: Vec<u8>)
        requires
            record_fits(self@),
        ensures
            r@ == payload_bytes(self@),
    {
        let mut out: Vec<u8> = Vec::new();
        self.write_to(&mut out);
        assert(out@ =~= payload_bytes(self@));
        out
    }

    /// Decodes the chunk at `pos` stored in this record: the first `length - 1`
    /// stored bytes, decompressed with the record's algorithm, are a chunk document.
    pub fn to_chunk(&self, pos: ChunkPos) -> (r: Result<ChunkData, ChunkReadingError>)
        ensures
            match chunk_outcome(self@, pos.x, pos.z) {
                Ok(c) => (r matches Ok(d) && d@ == c),
                Err(e) => r == Err::<ChunkData, ChunkReadingError>(e),
            },
    {
        if self.length == 0 || (self.length - 1) as usize > self.compressed_data.len() {
            return Err(ChunkReadingError::InvalidHeader);
        }
        let stream = vstd::slice::slice_subrange(
            self.compressed_data.as_slice(),
            0,
            (self.length - 1) as usize,
        );
        let parsed = match self.compression {
            Some(c) => match c.decompress_data(stream) {
                Ok(raw) => ChunkData::from_bytes(raw.as_slice(), pos),
                Err(e) => {
                    return Err(ChunkReadingError::Compression(e));
                },
            },
            None => ChunkData::from_bytes(stream, pos),
        };
        match parsed {
            Ok(c) => Ok(c),
            Err(e) => Err(ChunkReadingError::ParsingError(e)),
        }
    }

    /// The record that stores `chunk` compressed with `compression` at `level`.
    /// Fails when the chunk cannot be encoded, when the codec fails, and when the
    /// record would take more than 255 sectors.
    pub fn from_chunk(chunk: &ChunkData, compression: Compression, level: u32) -> (r: Result<
        AnvilChunkData,
        ChunkWritingError,
    >)
        requires
            level_ok(compression, level),
        ensures
            r is Ok <==> storable(chunk@, compression, level),
            !chunk_wf(chunk@) ==> r == Err::<AnvilChunkData, ChunkWritingError>(
                ChunkWritingError::SerializingError,
            ),
            r matches Ok(d) ==> (d@ == record_of(chunk@, compression, level) && record_fits(d@)
                && length_ok(d@) && raw_of(d@) == Some(chunk_bytes(chunk@))),
            r matches Err(e) ==> (e == ChunkWritingError::SerializingError || e
                == ChunkWritingError::Compression(codec_error(compression))),
    {
        let raw = match chunk_to_bytes(chunk) {
            Ok(b) => b,
            Err(e) => return Err(e),
        };
        let data = match compression.compress_data(raw.as_slice(), level) {
            Ok(d) => d,
            Err(e) => return Err(ChunkWritingError::Compression(e)),
        };
        if data.len() > MAX_CHUNK_SECTORS * SECTOR_BYTES - 5 {
            return Err(ChunkWritingError::SerializingError);
        }
        let d = AnvilChunkData { length: (data.len() + 1) as u32, compression: Some(compression), compressed_data: data };
        assert(d.compressed_data@.subrange(0, d.length - 1) =~= d.compressed_data@);
        Ok(d)
    }
}

/// The in-memory form of an Anvil region: 1024 slots and their timestamps.
pub struct AnvilChunkFile {
    pub timestamp_table: Vec<u32>,
    pub chunks_data: Vec<Option<AnvilChunkData>>,
}

/// The record view of a slot.
pub open spec fn slot_view(o: Option<AnvilChunkData>) -> Option<AnvilView> {
    match o {
        Some(d) => Some(d@),
        None => None,
    }
}

impl AnvilChunkFile {
    /// The records of the 1024 slots.
    pub open spec fn slots(&self) -> Seq<Option<AnvilView>> {
        self.chunks_data@.map_values(|o: Option<AnvilChunkData>| slot_view(o))
    }

    /// 1024 slots and 1024 timestamps, each present record within 255 sectors.
    pub open spec fn wf(&self) -> bool {
        &&& self.timestamp_table@.len() == CHUNK_COUNT
        &&& self.chunks_data@.len() == CHUNK_COUNT
        &&& forall|i: int| 0 <= i < CHUNK_COUNT ==> (#[trigger] self.slots()[i] matches Some(d)
            ==> record_fits(d))
    }
}

/// Sectors taken by slot `o`.
pub open spec fn slot_sectors(o: Option<AnvilView>) -> nat {
    match o {
        Some(d) => sectors_for(d.2.len()),
        None => 0,
    }
}

/// First sector of slot `i`: the tables take sectors 0 and 1, then the slots
/// before `i` follow in index order.
pub open spec fn start_sector(slots: Seq<Option<AnvilView>>, i: nat) -> nat
    decreases i,
{
    if i == 0 {
        2
    } else {
        start_sector(slots, (i - 1) as nat) + slot_sectors(slots[i - 1])
    }
}

/// Location table entry of slot `i`: first sector in the high 24 bits, sector
/// count in the low 8; zero for an empty slot.
pub open spec fn location_entry(slots: Seq<Option<AnvilView>>, i: int) -> u32 {
    match slots[i] {
        Some(d) => (start_sector(slots, i as nat) * 256 + sectors_for(d.2.len())) as u32,
        None => 0,
    }
}

/// Timestamp table entry of slot `i`; zero for an empty slot.
pub open spec fn timestamp_entry(slots: Seq<Option<AnvilView>>, ts: Seq<u32>, i: int) -> u32 {
    match slots[i] {
        Some(_) => ts[i],
        None => 0,
    }
}

/// Sector images of the first `n` slots, in index order.
pub open spec fn payloads(slots: Seq<Option<AnvilView>>, n: nat) -> Seq<u8>
    decreases n,
{
    if n == 0 {
        Seq::empty()
    } else {
        payloads(slots, (n - 1) as nat) + match slots[n - 1] {
            Some(d) => payload_bytes(d),
            None => Seq::empty(),
        }
    }
}

/// A table of 1024 big-endian entries.
pub open spec fn table_bytes(entries: Seq<u32>) -> Seq<u8> {
    flat(entries.map_values(|e: u32| u32_be(e)), 4)
}

/// The bytes of a region file with these slots and timestamps.
pub open spec fn region_bytes(slots: Seq<Option<AnvilView>>, ts: Seq<u32>) -> Seq<u8> {
    table_bytes(Seq::new(CHUNK_COUNT as nat, |i: int| location_entry(slots, i))) + table_bytes(
        Seq::new(CHUNK_COUNT as nat, |i: int| timestamp_entry(slots, ts, i)),
    ) + payloads(slots, CHUNK_COUNT as nat)
}

/// Location table entry `i` of file bytes `b`.
pub open spec fn location_at(b: Seq<u8>, i: int) -> u32 {
    u32_at(b, 4 * i)
}

/// Byte offset of the payload that location `loc` points at.
pub open spec fn payload_start(loc: u32) -> int {
    (loc as int / 256 - 2) * 4096
}

/// Byte length of the payload that location `loc` points at.
pub open spec fn payload_len(loc: u32) -> int {
    (loc as int % 256) * 4096
}

/// The error that slot `i` of file bytes `b` gives, if any.
pub open spec fn slot_error(b: Seq<u8>, i: int) -> Option<ChunkReadingError> {
    let loc = location_at(b, i);
    let start = TABLE_BYTES + payload_start(loc);
    if loc == 0 {
        None
    } else if loc as int / 256 < 2 || start + payload_len(loc) > b.len() || payload_len(loc) < 5 {
        Some(ChunkReadingError::InvalidHeader)
    } else if !is_known_tag(b[start + 4]) {
        Some(ChunkReadingError::Compression(CompressionError::UnknownCompression))
    } else {
        None
    }
}

/// The record that slot `i` of file bytes `b` holds.
pub open spec fn slot_at(b: Seq<u8>, i: int) -> Option<AnvilView> {
    let loc = location_at(b, i);
    let start = TABLE_BYTES + payload_start(loc);
    if loc == 0 {
        None
    } else {
        Some((u32_at(b, start), compression_of_tag(b[start + 4]), b.subrange(start + 5, start + payload_len(loc))))
    }
}

proof fn lemma_start_sector_bound(slots: Seq<Option<AnvilView>>, i: nat)
    requires
        i <= slots.len(),
        forall|k: int| 0 <= k < slots.len() ==> (#[trigger] slots[k] matches Some(d) ==> record_fits(d)),
    ensures
        2 <= start_sector(slots, i) <= 2 + MAX_CHUNK_SECTORS * i,
    decreases i,
{
    if i > 0 {
        lemma_start_sector_bound(slots, (i - 1) as nat);
        match slots[i - 1] {
            Some(d) => { lemma_sectors(d.2.len()); },
            None => {},
        }
    }
}

proof fn lemma_payloads_len(slots: Seq<Option<AnvilView>>, n: nat)
    requires
        n <= slots.len(),
        forall|k: int| 0 <= k < slots.len() ==> (#[trigger] slots[k] matches Some(d) ==> record_fits(d)),
    ensures
        payloads(slots, n).len() == (start_sector(slots, n) - 2) * 4096,
    decreases n,
{
    if n > 0 {
        lemma_payloads_len(slots, (n - 1) as nat);
        match slots[n - 1] {
            Some(d) => { lemma_sectors(d.2.len()); },
            None => {},
        }
    }
}

impl Default for AnvilChunkFile {
    /// An empty region: every slot empty, every timestamp zero.
    fn default() -> (r: AnvilChunkFile)
        ensures
            r.wf(),
            forall|i: int| 0 <= i < CHUNK_COUNT ==> (#[trigger] r.slots()[i]) is None,
            forall|i: int| 0 <= i < CHUNK_COUNT ==> #[trigger] r.timestamp_table@[i] == 0,
    {
        let mut ts: Vec<u32> = Vec::new();
        let mut slots: Vec<Option<AnvilChunkData>> = Vec::new();
        let mut i: usize = 0;
        while i < CHUNK_COUNT
            invariant
                i <= CHUNK_COUNT,
                ts@.len() == i,
                slots@.len() == i,
                forall|k: int| 0 <= k < i ==> (#[trigger] slots@[k]) is None,
                forall|k: int| 0 <= k < i ==> #[trigger] ts@[k] == 0,
            decreases CHUNK_COUNT - i,
        {
            ts.push(0);
            slots.push(None);
            i = i + 1;
        }
        let r = AnvilChunkFile { timestamp_table: ts, chunks_data: slots };
        assert forall|k: int| 0 <= k < CHUNK_COUNT implies (#[trigger] r.slots()[k]) is None by {
            assert(r.slots()[k] == slot_view(slots@[k]));
        }
        r
    }
}

impl AnvilChunkFile {
    /// The bytes of this region as a file: both tables, then each present record's
    /// sector image in index order.
    pub fn to_bytes(&self) -> (r: Vec<u8>)
        requires
            self.wf(),
        ensures
            r@ == region_bytes(self.slots(), self.timestamp_table@),
    {
        let ghost slots = self.slots();
        let ghost ts = self.timestamp_table@;
        let ghost locs = Seq::new(CHUNK_COUNT as nat, |i: int| location_entry(slots, i));
        let ghost stamps = Seq::new(CHUNK_COUNT as nat, |i: int| timestamp_entry(slots, ts, i));
        let mut loc_bytes: Vec<u8> = Vec::new();
        let mut ts_bytes: Vec<u8> = Vec::new();
        let mut data: Vec<u8> = Vec::new();
        let mut current: u32 = 2;
        let mut i: usize = 0;
        assert(locs.subrange(0, 0).map_values(|e: u32| u32_be(e)) =~= Seq::<Seq<u8>>::empty());
        assert(stamps.subrange(0, 0).map_values(|e: u32| u32_be(e)) =~= Seq::<Seq<u8>>::empty());
        assert(loc_bytes@ =~= table_bytes(locs.subrange(0, 0)));
        assert(ts_bytes@ =~= table_bytes(stamps.subrange(0, 0)));
        while i < CHUNK_COUNT
            invariant
                self.wf(),
                slots == self.slots(),
                ts == self.timestamp_table@,
                locs == Seq::new(CHUNK_COUNT as nat, |i: int| location_entry(slots, i)),
                stamps == Seq::new(CHUNK_COUNT as nat, |i: int| timestamp_entry(slots, ts, i)),
                i <= CHUNK_COUNT,
                current as nat == start_sector(slots, i as nat),
                loc_bytes@ == table_bytes(locs.subrange(0, i as int)),
                ts_bytes@ == table_bytes(stamps.subrange(0, i as int)),
                data@ == payloads(slots, i as nat),
            decreases CHUNK_COUNT - i,
        {
            proof {
                lemma_start_sector_bound(slots, i as nat);
                lemma_start_sector_bound(slots, (i + 1) as nat);
            }
            let ghost before_l = locs.subrange(0, i as int).map_values(|e: u32| u32_be(e));
            let ghost before_t = stamps.subrange(0, i as int).map_values(|e: u32| u32_be(e));
            assert(slots[i as int] == slot_view(self.chunks_data@[i as int]));
            match &self.chunks_data[i] {
                Some(d) => {
                    let n = d.compressed_data.len();
                    proof {
                        lemma_sectors(n as nat);
                    }
                    let count = ((n + 5 + 4095) / 4096) as u32;
                    let entry = current * 256 + count;
                    push_u32(&mut loc_bytes, entry);
                    push_u32(&mut ts_bytes, self.timestamp_table[i]);
                    d.write_to(&mut data);
                    current = current + count;
                },
                None => {
                    push_u32(&mut loc_bytes, 0);
                    push_u32(&mut ts_bytes, 0);
                },
            }
            proof {
                assert(locs.subrange(0, i + 1).map_values(|e: u32| u32_be(e)) =~= before_l.push(
                    u32_be(locs[i as int]),
                ));
                assert(stamps.subrange(0, i + 1).map_values(|e: u32| u32_be(e)) =~= before_t.push(
                    u32_be(stamps[i as int]),
                ));
                lemma_flat_push(before_l, 4, u32_be(locs[i as int]));
                lemma_flat_push(before_t, 4, u32_be(stamps[i as int]));
            }
            i = i + 1;
        }
        assert(locs.subrange(0, CHUNK_COUNT as int) =~= locs);
        assert(stamps.subrange(0, CHUNK_COUNT as int) =~= stamps);
        let mut out = loc_bytes;
        out.append(&mut ts_bytes);
        out.append(&mut data);
        out
    }

    /// Reads a region file: the tables, then for each non-zero location the
    /// record in the sectors it points at. Fails on a file shorter than the two
    /// tables and on the first slot, in index order, whose location points outside
    /// the file or whose record is unreadable.
    pub fn from_bytes(bytes: &[u8]) -> (r: Result<AnvilChunkFile, ChunkReadingError>)
        ensures
            bytes@.len() < TABLE_BYTES ==> r == Err::<AnvilChunkFile, ChunkReadingError>(
                ChunkReadingError::InvalidHeader,
            ),
            r is Ok <==> bytes@.len() >= TABLE_BYTES && forall|i: int|
                0 <= i < CHUNK_COUNT ==> #[trigger] slot_error(bytes@, i) is None,
            r matches Ok(f) ==> f.wf(),
            r matches Ok(f) ==> (forall|i: int| 0 <= i < CHUNK_COUNT ==> #[trigger] f.slots()[i] == slot_at(bytes@, i)),
            r matches Ok(f) ==> (f.timestamp_table@.len() == CHUNK_COUNT && f.chunks_data@.len()
                == CHUNK_COUNT && forall|i: int|
                0 <= i < CHUNK_COUNT ==> #[trigger] f.timestamp_table@[i] == u32_at(
                    bytes@,
                    4096 + 4 * i,
                ) && f.slots()[i] == slot_at(bytes@, i)),
            r matches Err(e) ==> (bytes@.len() < TABLE_BYTES || exists|i: int|
                0 <= i < CHUNK_COUNT && #[trigger] slot_error(bytes@, i) == Some(e) && forall|j: int|
                    0 <= j < i ==> #[trigger] slot_error(bytes@, j) is None),
    {
        if bytes.len() < TABLE_BYTES {
            return Err(ChunkReadingError::InvalidHeader);
        }
        let mut ts: Vec<u32> = Vec::new();
        let mut slots: Vec<Option<AnvilChunkData>> = Vec::new();
        let mut i: usize = 0;
        while i < CHUNK_COUNT
            invariant
                bytes@.len() >= TABLE_BYTES,
                i <= CHUNK_COUNT,
                ts@.len() == i,
                slots@.len() == i,
                forall|k: int| 0 <= k < i ==> #[trigger] slot_error(bytes@, k) is None,
                forall|k: int| 0 <= k < i ==> #[trigger] ts@[k] == u32_at(bytes@, 4096 + 4 * k),
                forall|k: int| 0 <= k < i ==> slot_view(#[trigger] slots@[k]) == slot_at(bytes@, k),
            decreases CHUNK_COUNT - i,
        {
            ts.push(read_u32(bytes, 4096 + 4 * i));
            let loc = read_u32(bytes, 4 * i);
            if loc == 0 {
                slots.push(None);
            } else {
                let offset = (loc / 256) as usize;
                let count = (loc % 256) as usize;
                if offset < 2 || count * SECTOR_BYTES < 5 || (bytes.len() - TABLE_BYTES) / SECTOR_BYTES
                    < offset - 2 || (bytes.len() - TABLE_BYTES - (offset - 2) * SECTOR_BYTES)
                    / SECTOR_BYTES < count {
                    assert(slot_error(bytes@, i as int) == Some(ChunkReadingError::InvalidHeader));
                    return Err(ChunkReadingError::InvalidHeader);
                }
                let start = TABLE_BYTES + (offset - 2) * SECTOR_BYTES;
                let piece = vstd::slice::slice_subrange(bytes, start, start + count * SECTOR_BYTES);
                match AnvilChunkData::from_bytes(piece) {
                    Ok(d) => {
                        proof {
                            assert(u32_at(piece@, 0) == u32_at(bytes@, start as int));
                            assert(piece@[4] == bytes@[start + 4]);
                            assert(piece@.skip(5) =~= bytes@.subrange(start + 5, start + count * 4096));
                        }
                        slots.push(Some(d));
                    },
                    Err(e) => {
                        assert(piece@[4] == bytes@[start + 4]);
                        assert(slot_error(bytes@, i as int) == Some(e));
                        return Err(e);
                    },
                }
            }
            i = i + 1;
        }
        let f = AnvilChunkFile { timestamp_table: ts, chunks_data: slots };
        assert forall|k: int| 0 <= k < CHUNK_COUNT implies f.slots()[k] == slot_at(bytes@, k) by {
            assert(f.slots()[k] == slot_view(slots@[k]));
        }
        assert forall|k: int| 0 <= k < CHUNK_COUNT implies (#[trigger] f.slots()[k] matches Some(d)
            ==> record_fits(d)) by {
            let loc = location_at(bytes@, k);
            assert(slot_error(bytes@, k) is None);
            assert(f.slots()[k] == slot_at(bytes@, k));
            assert(loc as int % 256 <= 255);
        }
        Ok(f)
    }
}

/// The slots after storing each chunk of `cs` in turn, compressed with `comp` at
/// `level`, at the index of its position.
pub open spec fn updated_slots(
    slots: Seq<Option<AnvilView>>,
    cs: Seq<crate::chunk::ChunkView>,
    comp: Compression,
    level: u32,
) -> Seq<Option<AnvilView>>
    decreases cs.len(),
{
    if cs.len() == 0 {
        slots
    } else {
        let c = cs.last();
        updated_slots(slots, cs.drop_last(), comp, level).update(
            index_of(c.0 as int, c.1 as int),
            Some(record_of(c, comp, level)),
        )
    }
}

/// What a load of one chunk gives: the chunk, its absence, or an error.
pub enum LoadedData {
    Loaded(ChunkData),
    Missing(ChunkPos),
    Error(ChunkPos, ChunkReadingError),
}

impl AnvilChunkFile {
    /// Stores each chunk, compressed with `compression` at `level`, in the slot of
    /// its position, later chunks overwriting earlier ones; timestamps are kept.
    /// Stops at the first chunk that cannot be stored, keeping the ones before it.
    pub fn add_chunk_data(&mut self, chunks: &[ChunkData], compression: Compression, level: u32) -> (r: Result<(), ChunkWritingError>)
        requires
            old(self).wf(),
            level_ok(compression, level),
        ensures
            final(self).wf(),
            final(self).timestamp_table@ == old(self).timestamp_table@,
            r is Ok ==> final(self).slots() == updated_slots(
                old(self).slots(),
                chunks@.map_values(|c: ChunkData| c@),
                compression,
                level,
            ),
            r is Ok <==> forall|i: int| 0 <= i < chunks@.len() ==> storable(#[trigger] chunks@[i]@, compression, level),
            r is Ok ==> forall|i: int| 0 <= i < chunks@.len() ==> raw_of(record_of(#[trigger] chunks@[i]@, compression, level))
                == Some(chunk_bytes(chunks@[i]@)),
            r matches Err(e) ==> (e == ChunkWritingError::SerializingError || e
                == ChunkWritingError::Compression(codec_error(compression))),
    {
        let ghost cs = chunks@.map_values(|c: ChunkData| c@);
        let ghost s0 = self.slots();
        let mut i: usize = 0;
        while i < chunks.len()
            invariant
                self.wf(),
                level_ok(compression, level),
                cs == chunks@.map_values(|c: ChunkData| c@),
                self.timestamp_table@ == old(self).timestamp_table@,
                s0 == old(self).slots(),
                i <= chunks@.len(),
                self.slots() == updated_slots(s0, cs.subrange(0, i as int), compression, level),
                forall|k: int| 0 <= k < i ==> storable(#[trigger] chunks@[k]@, compression, level),
                forall|k: int| 0 <= k < i ==> raw_of(record_of(#[trigger] chunks@[k]@, compression, level))
                    == Some(chunk_bytes(chunks@[k]@)),
            decreases chunks@.len() - i,
        {
            let chunk = &chunks[i];
            let index = get_chunk_index(chunk.position.x, chunk.position.z);
            let record = match AnvilChunkData::from_chunk(chunk, compression, level) {
                Ok(d) => d,
                Err(e) => {
                    return Err(e);
                },
            };
            let ghost before = self.slots();
            self.chunks_data.set(index, Some(record));
            proof {
                let sub = cs.subrange(0, i + 1);
                assert(sub.drop_last() =~= cs.subrange(0, i as int));
                assert(sub.last() == chunk@);
                assert(self.slots() =~= before.update(index as int, Some(record_of(chunk@, compression, level))));
                assert forall|k: int| 0 <= k < CHUNK_COUNT implies (#[trigger] self.slots()[k] matches Some(d)
                    ==> record_fits(d)) by {
                    if k != index {
                        assert(self.slots()[k] == before[k]);
                    }
                }
            }
            i = i + 1;
        }
        assert(cs.subrange(0, i as int) =~= cs);
        Ok(())
    }

    /// Loads the chunk at `pos` from its slot: `Missing` for an empty slot, else
    /// the decoded chunk or the error that decoding gave.
    pub fn load_chunk(&self, pos: ChunkPos) -> (r: LoadedData)
        requires
            self.wf(),
        ensures
            match self.slots()[index_of(pos.x as int, pos.z as int)] {
                None => r == LoadedData::Missing(pos),
                Some(d) => match chunk_outcome(d, pos.x, pos.z) {
                    Ok(c) => (r matches LoadedData::Loaded(x) && x@ == c),
                    Err(e) => r == LoadedData::Error(pos, e),
                },
            },
            self.slots()[index_of(pos.x as int, pos.z as int)] is None <==> r == LoadedData::Missing(pos),
            r matches LoadedData::Error(p, _) ==> p == pos,
            r matches LoadedData::Missing(p) ==> p == pos,
            r matches LoadedData::Loaded(c) ==> c.position == pos,
    {
        let index = get_chunk_index(pos.x, pos.z);
        assert(self.slots()[index as int] == slot_view(self.chunks_data@[index as int]));
        match &self.chunks_data[index] {
            None => LoadedData::Missing(pos),
            Some(d) => match d.to_chunk(pos) {
                Ok(c) => LoadedData::Loaded(c),
                Err(e) => LoadedData::Error(pos, e),
            },
        }
    }
}

/// Whether some chunk of `cs` has its slot at index `k`.
pub open spec fn touches(cs: Seq<crate::chunk::ChunkView>, k: int) -> bool {
    exists|j: int| 0 <= j < cs.len() && index_of((#[trigger] cs[j]).0 as int, cs[j].1 as int) == k
}

proof fn lemma_untouched(
    s: Seq<Option<AnvilView>>,
    cs: Seq<crate::chunk::ChunkView>,
    comp: Compression,
    level: u32,
    k: int,
)
    requires
        s.len() == CHUNK_COUNT,
        0 <= k < s.len(),
        !touches(cs, k),
    ensures
        updated_slots(s, cs, comp, level)[k] == s[k],
    decreases cs.len(),
{
    if cs.len() > 0 {
        let t = cs.drop_last();
        lemma_updated_len(s, t, comp, level);
        crate::coords::lemma_grid_indexing(cs.last().0 as int, cs.last().1 as int, 0, 0);
        assert(!touches(t, k)) by {
            if touches(t, k) {
                let j = choose|j: int| 0 <= j < t.len() && index_of((#[trigger] t[j]).0 as int, t[j].1 as int) == k;
                assert(cs[j] == t[j]);
            }
        }
        assert(index_of(cs.last().0 as int, cs.last().1 as int) != k) by {
            assert(cs[cs.len() - 1] == cs.last());
        }
        lemma_untouched(s, t, comp, level, k);
    }
}

proof fn lemma_touched(
    s1: Seq<Option<AnvilView>>,
    s2: Seq<Option<AnvilView>>,
    cs: Seq<crate::chunk::ChunkView>,
    comp: Compression,
    level: u32,
    k: int,
)
    requires
        0 <= k < s1.len(),
        s1.len() == CHUNK_COUNT,
        s2.len() == CHUNK_COUNT,
        touches(cs, k),
    ensures
        updated_slots(s1, cs, comp, level)[k] == updated_slots(s2, cs, comp, level)[k],
    decreases cs.len(),
{
    let t = cs.drop_last();
    let c = cs.last();
    crate::coords::lemma_grid_indexing(c.0 as int, c.1 as int, 0, 0);
    if index_of(c.0 as int, c.1 as int) != k {
        assert(touches(t, k)) by {
            let j = choose|j: int| 0 <= j < cs.len() && index_of((#[trigger] cs[j]).0 as int, cs[j].1 as int) == k;
            assert(j != cs.len() - 1);
            assert(t[j] == cs[j]);
        }
        lemma_touched(s1, s2, t, comp, level, k);
        lemma_updated_len(s1, t, comp, level);
        lemma_updated_len(s2, t, comp, level);
    } else {
        lemma_updated_len(s1, t, comp, level);
        lemma_updated_len(s2, t, comp, level);
    }
}

proof fn lemma_updated_len(
    s: Seq<Option<AnvilView>>,
    cs: Seq<crate::chunk::ChunkView>,
    comp: Compression,
    level: u32,
)
    requires
        s.len() == CHUNK_COUNT,
    ensures
        updated_slots(s, cs, comp, level).len() == s.len(),
    decreases cs.len(),
{
    if cs.len() > 0 {
        lemma_updated_len(s, cs.drop_last(), comp, level);
        crate::coords::lemma_grid_indexing(cs.last().0 as int, cs.last().1 as int, 0, 0);
    }
}

/// Storing the same chunks a second time leaves the slots, and so the bytes of
/// the region, as storing them once left them.
pub proof fn lemma_save_idempotent(
    s: Seq<Option<AnvilView>>,
    ts: Seq<u32>,
    cs: Seq<crate::chunk::ChunkView>,
    comp: Compression,
    level: u32,
)
    requires
        s.len() == CHUNK_COUNT,
    ensures
        updated_slots(updated_slots(s, cs, comp, level), cs, comp, level) == updated_slots(
            s,
            cs,
            comp,
            level,
        ),
        region_bytes(updated_slots(updated_slots(s, cs, comp, level), cs, comp, level), ts)
            == region_bytes(updated_slots(s, cs, comp, level), ts),
{
    let once = updated_slots(s, cs, comp, level);
    let twice = updated_slots(once, cs, comp, level);
    lemma_updated_len(s, cs, comp, level);
    lemma_updated_len(once, cs, comp, level);
    assert forall|k: int| 0 <= k < s.len() implies twice[k] == once[k] by {
        if touches(cs, k) {
            lemma_touched(once, s, cs, comp, level, k);
        } else {
            lemma_untouched(once, cs, comp, level, k);
        }
    }
    assert(twice =~= once);
}

/// A record as read back from its sector image: the padding stays in its bytes.
pub open spec fn padded(o: Option<AnvilView>) -> Option<AnvilView> {
    match o {
        Some(d) => Some(
            (d.0, d.1, d.2 + zeros((sectors_for(d.2.len()) * 4096 - (d.2.len() + 5)) as nat)),
        ),
        None => None,
    }
}

proof fn lemma_payloads_prefix(slots: Seq<Option<AnvilView>>, m: nat, n: nat)
    requires
        m <= n <= slots.len(),
    ensures
        payloads(slots, m).len() <= payloads(slots, n).len(),
        payloads(slots, n).subrange(0, payloads(slots, m).len() as int) == payloads(slots, m),
    decreases n,
{
    if m < n {
        lemma_payloads_prefix(slots, m, (n - 1) as nat);
        let p = payloads(slots, (n - 1) as nat);
        assert(payloads(slots, n).subrange(0, payloads(slots, m).len() as int) =~= p.subrange(
            0,
            payloads(slots, m).len() as int,
        ));
    } else {
        assert(payloads(slots, n).subrange(0, payloads(slots, m).len() as int) =~= payloads(slots, m));
    }
}

proof fn lemma_table_entry(entries: Seq<u32>, i: int, rest: Seq<u8>)
    requires
        0 <= i < entries.len(),
    ensures
        u32_at(table_bytes(entries) + rest, 4 * i) == entries[i],
{
    let recs = entries.map_values(|e: u32| u32_be(e));
    crate::document::lemma_flat_at(recs, 4, i);
    let f = flat(recs, 4);
    let b = table_bytes(entries) + rest;
    assert(recs[i] == u32_be(entries[i]));
    crate::be::lemma_u32_round_trip(entries[i]);
    assert(f.subrange(i * 4, i * 4 + 4)[0] == f[4 * i]);
    assert(f.subrange(i * 4, i * 4 + 4)[1] == f[4 * i + 1]);
    assert(f.subrange(i * 4, i * 4 + 4)[2] == f[4 * i + 2]);
    assert(f.subrange(i * 4, i * 4 + 4)[3] == f[4 * i + 3]);
    assert(b[4 * i] == f[4 * i] && b[4 * i + 1] == f[4 * i + 1] && b[4 * i + 2] == f[4 * i + 2]
        && b[4 * i + 3] == f[4 * i + 3]);
}

/// Reading back the bytes of a region gives every slot's record, with its
/// padding, and the timestamp of every present slot; no slot fails.
pub proof fn lemma_region_round_trip(slots: Seq<Option<AnvilView>>, ts: Seq<u32>)
    requires
        slots.len() == CHUNK_COUNT,
        ts.len() == CHUNK_COUNT,
        forall|k: int| 0 <= k < CHUNK_COUNT ==> (#[trigger] slots[k] matches Some(d) ==> record_fits(d)),
    ensures
        region_bytes(slots, ts).len() >= TABLE_BYTES,
        forall|i: int| 0 <= i < CHUNK_COUNT ==> #[trigger] slot_error(region_bytes(slots, ts), i) is None,
        forall|i: int| 0 <= i < CHUNK_COUNT ==> #[trigger] slot_at(region_bytes(slots, ts), i) == padded(slots[i]),
        forall|i: int| 0 <= i < CHUNK_COUNT ==> #[trigger] u32_at(region_bytes(slots, ts), 4096 + 4 * i) == timestamp_entry(slots, ts, i),
{
    let locs = Seq::new(CHUNK_COUNT as nat, |i: int| location_entry(slots, i));
    let stamps = Seq::new(CHUNK_COUNT as nat, |i: int| timestamp_entry(slots, ts, i));
    let t1 = table_bytes(locs);
    let t2 = table_bytes(stamps);
    let all = payloads(slots, CHUNK_COUNT as nat);
    let b = region_bytes(slots, ts);
    assert(t1.len() == 4096 && t2.len() == 4096);
    assert(b =~= t1 + (t2 + all));
    assert forall|i: int| 0 <= i < CHUNK_COUNT implies #[trigger] u32_at(b, 4096 + 4 * i)
        == timestamp_entry(slots, ts, i) by {
        lemma_table_entry(stamps, i, all);
        let tail = t2 + all;
        assert(u32_at(b, 4096 + 4 * i) == u32_at(tail, 4 * i));
    }
    assert forall|i: int| 0 <= i < CHUNK_COUNT implies #[trigger] slot_error(b, i) is None by {
        lemma_slot_round_trip(slots, ts, i);
    }
    assert forall|i: int| 0 <= i < CHUNK_COUNT implies #[trigger] slot_at(b, i) == padded(slots[i]) by {
        lemma_slot_round_trip(slots, ts, i);
    }
}

proof fn lemma_slot_round_trip(slots: Seq<Option<AnvilView>>, ts: Seq<u32>, i: int)
    requires
        slots.len() == CHUNK_COUNT,
        ts.len() == CHUNK_COUNT,
        0 <= i < CHUNK_COUNT,
        forall|k: int| 0 <= k < CHUNK_COUNT ==> (#[trigger] slots[k] matches Some(d) ==> record_fits(d)),
    ensures
        slot_error(region_bytes(slots, ts), i) is None,
        slot_at(region_bytes(slots, ts), i) == padded(slots[i]),
{
    let locs = Seq::new(CHUNK_COUNT as nat, |i: int| location_entry(slots, i));
    let stamps = Seq::new(CHUNK_COUNT as nat, |i: int| timestamp_entry(slots, ts, i));
    let t1 = table_bytes(locs);
    let t2 = table_bytes(stamps);
    let all = payloads(slots, CHUNK_COUNT as nat);
    let b = region_bytes(slots, ts);
    assert(t1.len() == 4096 && t2.len() == 4096);
    assert(b =~= t1 + (t2 + all));
        lemma_table_entry(locs, i, t2 + all);
        assert(location_at(b, i) == location_entry(slots, i));
        match slots[i] {
            None => {},
            Some(d) => {
                let n = d.2.len();
                lemma_sectors(n);
                lemma_start_sector_bound(slots, i as nat);
                let st = start_sector(slots, i as nat);
                let cnt = sectors_for(n);
                let loc = location_entry(slots, i);
                assert(st * 256 + cnt < 0x1_0000_0000);
                assert(loc as int == st * 256 + cnt);
                assert(loc as int / 256 == st);
                assert(loc as int % 256 == cnt);
                lemma_payloads_len(slots, i as nat);
                lemma_payloads_prefix(slots, (i + 1) as nat, CHUNK_COUNT as nat);
                let pi = payloads(slots, i as nat);
                let pb = payload_bytes(d);
                assert(payloads(slots, (i + 1) as nat) == pi + pb);
                let start = TABLE_BYTES + payload_start(loc);
                assert(start == 8192 + pi.len());
                assert(pb.len() == cnt * 4096);
                assert forall|t: int| 0 <= t < pb.len() implies b[start + t] == #[trigger] pb[t] by {
                    assert(all.subrange(0, payloads(slots, (i + 1) as nat).len() as int)[pi.len() + t] == (pi + pb)[pi.len() + t]);
                }
                assert(start + payload_len(loc) <= b.len());
                assert(b[start + 4] == pb[4]);
                assert(pb[4] == opt_tag_of(d.1));
                assert(u32_at(b, start) == u32_at(pb, 0)) by {
                    assert(b[start] == pb[0] && b[start + 1] == pb[1] && b[start + 2] == pb[2] && b[start + 3] == pb[3]);
                }
                crate::be::lemma_u32_round_trip(d.0);
                assert(u32_at(pb, 0) == u32_at(u32_be(d.0), 0));
                assert(b.subrange(start + 5, start + payload_len(loc)) =~= pb.skip(5));
                assert(pb.skip(5) =~= d.2 + zeros((cnt * 4096 - (n + 5)) as nat));
            },
        }
}

/// The padding that reading back adds changes neither the stream nor the chunk
/// bytes of a record.
pub proof fn lemma_padded_raw(d: AnvilView)
    requires
        length_ok(d),
    ensures
        padded(Some(d)) matches Some(p) && length_ok(p) && stream_of(p) == stream_of(d) && raw_of(p) == raw_of(d),
{
    let p = d.2 + zeros((sectors_for(d.2.len()) * 4096 - (d.2.len() + 5)) as nat);
    assert(p.subrange(0, d.0 - 1) =~= d.2.subrange(0, d.0 - 1));
}

/// Chunk `j` of `cs`, saved into slots `s` with timestamps `ts`, reads back from
/// the region's bytes as its record with padding, and decodes to the chunk.
pub open spec fn reads_back(
    s: Seq<Option<AnvilView>>,
    ts: Seq<u32>,
    cs: Seq<crate::chunk::ChunkView>,
    comp: Compression,
    level: u32,
    j: int,
) -> bool {
    let b = region_bytes(updated_slots(s, cs, comp, level), ts);
    let k = index_of(cs[j].0 as int, cs[j].1 as int);
    &&& slot_error(b, k) is None
    &&& slot_at(b, k) == padded(Some(record_of(cs[j], comp, level)))
    &&& chunk_outcome(slot_at(b, k)->0, cs[j].0, cs[j].1) == Ok::<crate::chunk::ChunkView, ChunkReadingError>(cs[j])
}

proof fn lemma_last_writer(
    s: Seq<Option<AnvilView>>,
    cs: Seq<crate::chunk::ChunkView>,
    comp: Compression,
    level: u32,
    j0: int,
)
    requires
        s.len() == CHUNK_COUNT,
        0 <= j0 < cs.len(),
        forall|j: int| 0 <= j < cs.len() && j != j0 ==> index_of(#[trigger] cs[j].0 as int, cs[j].1 as int)
            != index_of(cs[j0].0 as int, cs[j0].1 as int),
    ensures
        updated_slots(s, cs, comp, level)[index_of(cs[j0].0 as int, cs[j0].1 as int)] == Some(
            record_of(cs[j0], comp, level),
        ),
    decreases cs.len(),
{
    let t = cs.drop_last();
    crate::coords::lemma_grid_indexing(cs.last().0 as int, cs.last().1 as int, 0, 0);
    lemma_updated_len(s, t, comp, level);
    if j0 < cs.len() - 1 {
        assert forall|j: int| 0 <= j < t.len() && j != j0 implies index_of(#[trigger] t[j].0 as int, t[j].1 as int)
            != index_of(t[j0].0 as int, t[j0].1 as int) by {
            assert(t[j] == cs[j]);
        }
        assert(cs[cs.len() - 1] == cs.last());
        lemma_last_writer(s, t, comp, level, j0);
    }
}

proof fn lemma_updated_fit(
    s: Seq<Option<AnvilView>>,
    cs: Seq<crate::chunk::ChunkView>,
    comp: Compression,
    level: u32,
)
    requires
        s.len() == CHUNK_COUNT,
        forall|k: int| 0 <= k < CHUNK_COUNT ==> (#[trigger] s[k] matches Some(d) ==> record_fits(d)),
        forall|j: int| 0 <= j < cs.len() ==> record_fits(record_of(#[trigger] cs[j], comp, level)),
    ensures
        forall|k: int| 0 <= k < CHUNK_COUNT ==> (#[trigger] updated_slots(s, cs, comp, level)[k] matches Some(d) ==> record_fits(d)),
    decreases cs.len(),
{
    if cs.len() > 0 {
        let t = cs.drop_last();
        assert forall|j: int| 0 <= j < t.len() implies record_fits(record_of(#[trigger] t[j], comp, level)) by {
            assert(t[j] == cs[j]);
        }
        assert(cs[cs.len() - 1] == cs.last());
        lemma_updated_fit(s, t, comp, level);
        lemma_updated_len(s, t, comp, level);
        crate::coords::lemma_grid_indexing(cs.last().0 as int, cs.last().1 as int, 0, 0);
    }
}

/// Chunks of one region saved together, at distinct positions, read back from the
/// region's bytes: each slot holds the chunk's record (with its padding), and
/// decoding that record gives the chunk back, whenever each record decompresses to
/// the chunk's bytes (as `add_chunk_data` ensures of the records it stores).
pub proof fn lemma_saved_chunks_read_back(
    s: Seq<Option<AnvilView>>,
    ts: Seq<u32>,
    cs: Seq<crate::chunk::ChunkView>,
    comp: Compression,
    level: u32,
)
    requires
        s.len() == CHUNK_COUNT,
        ts.len() == CHUNK_COUNT,
        forall|k: int| 0 <= k < CHUNK_COUNT ==> (#[trigger] s[k] matches Some(d) ==> record_fits(d)),
        forall|j: int| 0 <= j < cs.len() ==> record_fits(record_of(#[trigger] cs[j], comp, level)),
        forall|a: int, b: int| 0 <= a < cs.len() && 0 <= b < cs.len() ==> crate::grouping::key_of(
            crate::chunk::ChunkPos { x: cs[a].0, z: cs[a].1 },
        ) == crate::grouping::key_of(crate::chunk::ChunkPos { x: cs[b].0, z: cs[b].1 }),
        forall|a: int, b: int| 0 <= a < cs.len() && 0 <= b < cs.len() && a != b ==> (cs[a].0, cs[a].1) != (cs[b].0, cs[b].1),
        forall|j: int| 0 <= j < cs.len() ==> chunk_wf(#[trigger] cs[j]),
        forall|j: int| 0 <= j < cs.len() ==> raw_of(record_of(#[trigger] cs[j], comp, level)) == Some(chunk_bytes(cs[j])),
    ensures
        forall|j: int| 0 <= j < cs.len() ==> #[trigger] reads_back(s, ts, cs, comp, level, j),
{
    let u = updated_slots(s, cs, comp, level);
    lemma_updated_len(s, cs, comp, level);
    lemma_updated_fit(s, cs, comp, level);
    lemma_region_round_trip(u, ts);
    assert forall|j: int| 0 <= j < cs.len() implies #[trigger] reads_back(s, ts, cs, comp, level, j) by {
        assert forall|i: int| 0 <= i < cs.len() && i != j implies index_of(#[trigger] cs[i].0 as int, cs[i].1 as int)
            != index_of(cs[j].0 as int, cs[j].1 as int) by {
            let pa = crate::chunk::ChunkPos { x: cs[i].0, z: cs[i].1 };
            let pb = crate::chunk::ChunkPos { x: cs[j].0, z: cs[j].1 };
            assert(crate::grouping::key_of(pa) == crate::grouping::key_of(pb));
            crate::coords::lemma_grid_indexing(cs[i].0 as int, cs[i].1 as int, cs[j].0 as int, cs[j].1 as int);
        }
        lemma_last_writer(s, cs, comp, level, j);
        let k = index_of(cs[j].0 as int, cs[j].1 as int);
        crate::coords::lemma_grid_indexing(cs[j].0 as int, cs[j].1 as int, 0, 0);
        let d = record_of(cs[j], comp, level);
        assert(record_fits(d));
        assert(length_ok(d));
        lemma_padded_raw(d);
        crate::chunk::lemma_chunk_round_trip(cs[j]);
        assert(d.2.subrange(0, d.0 - 1) =~= d.2);
        let b = region_bytes(u, ts);
        assert(0 <= k < CHUNK_COUNT);
        assert(slot_error(b, k) is None);
        assert(slot_at(b, k) == padded(u[k]));
        assert(u[k] == Some(d));
    }
}

/// A record made from a chunk, whose stream decompresses to the chunk's bytes (as
/// `from_chunk` ensures of the records it returns), decodes back to the chunk.
pub proof fn lemma_record_round_trip(c: crate::chunk::ChunkView, comp: Compression, level: u32)
    requires
        chunk_wf(c),
        record_fits(record_of(c, comp, level)),
        raw_of(record_of(c, comp, level)) == Some(chunk_bytes(c)),
    ensures
        chunk_outcome(record_of(c, comp, level), c.0, c.1) == Ok::<crate::chunk::ChunkView, ChunkReadingError>(c),
{
    crate::chunk::lemma_chunk_round_trip(c);
}

/// The Anvil format.
#[derive(Debug, Clone, Copy, Default)]
pub struct AnvilChunkFormat;

impl AnvilChunkFile {
    /// Region coordinates `(x >> 5, z >> 5)` of the chunk at `at`.
    pub fn get_region_coords(at: ChunkPos) -> (r: (i32, i32))
        ensures
            r.0 as int == crate::coords::region_of(at.x as int),
            r.1 as int == crate::coords::region_of(at.z as int),
    {
        crate::coords::get_region_coords(at.x, at.z)
    }

    /// Slot `((z & 31) << 5) | (x & 31)` of the chunk at `at`.
    pub fn get_chunk_index(at: ChunkPos) -> (r: usize)
        ensures
            r as int == index_of(at.x as int, at.z as int),
            r as int == ((((at.z & 31i32) << 5i32) | (at.x & 31i32)) as int),
            r < CHUNK_COUNT,
    {
        get_chunk_index(at.x, at.z)
    }
}

} // verus!
