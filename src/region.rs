//! A region in either on-disk format behind one interface.
use vstd::prelude::*;

use crate::anvil::{chunk_outcome, storable, updated_slots, AnvilChunkFile, LoadedData};
use crate::chunk::{chunk_wf, decode_chunk, ChunkData, ChunkPos};
use crate::compression::level_ok;
use crate::config::ChunkCompression;
use crate::compression::zstd_of;
use crate::coords::{index_of, CHUNK_COUNT};
use crate::errors::{ChunkReadingError, ChunkWritingError};
use crate::linear::{
    file_bytes, load_outcome, payload_of, put_all, slot_bytes, LinearChunkHeader, LinearFile,
};

verus! {

/// The on-disk format of the regions of a world.
#[derive(Debug, Clone, Copy, PartialEq, Eq, Structural)]
pub enum RegionFormat {
    /// Sector-aligned `.mca` files.
    Anvil,
    /// zstd-compressed `.linear` files.
    Linear,
}

/// A region held in memory, in the form of its format.
pub enum RegionFile {
    Anvil(AnvilChunkFile),
    Linear(LinearFile),
}

impl RegionFile {
    pub open spec fn wf(&self) -> bool {
        match self {
            RegionFile::Anvil(f) => f.wf(),
            RegionFile::Linear(f) => f.wf(),
        }
    }

    pub open spec fn format(&self) -> RegionFormat {
        match self {
            RegionFile::Anvil(_) => RegionFormat::Anvil,
            RegionFile::Linear(_) => RegionFormat::Linear,
        }
    }

    /// An empty region of `format`.
    pub fn empty(format: RegionFormat) -> (r: RegionFile)
        ensures
            r.wf(),
            r.format() == format,
            match r {
                RegionFile::Anvil(f) => (forall|i: int| 0 <= i < CHUNK_COUNT ==> (#[trigger] f.slots()[i]) is None)
                    && (forall|i: int| 0 <= i < CHUNK_COUNT ==> #[trigger] f.timestamp_table@[i] == 0),
                RegionFile::Linear(f) => (forall|i: int| 0 <= i < CHUNK_COUNT ==> #[trigger] f.chunks_headers@[i]
                    == (LinearChunkHeader { size: 0, timestamp: 0 })) && f.chunks_data@.len() == 0,
            },
    {
        match format {
            RegionFormat::Anvil => RegionFile::Anvil(AnvilChunkFile::default()),
            RegionFormat::Linear => RegionFile::Linear(LinearFile::new()),
        }
    }

    /// Reads a region of `format` from the bytes of its file.
    pub fn parse(format: RegionFormat, bytes: &[u8]) -> (r: Result<RegionFile, ChunkReadingError>)
        ensures
            r matches Ok(f) ==> f.wf() && f.format() == format,
            format == RegionFormat::Anvil ==> (r is Ok <==> bytes@.len() >= crate::anvil::TABLE_BYTES
                && forall|i: int| 0 <= i < crate::coords::CHUNK_COUNT ==> #[trigger] crate::anvil::slot_error(bytes@, i) is None),
            r matches Ok(RegionFile::Anvil(f)) ==> (forall|i: int| 0 <= i < CHUNK_COUNT ==> #[trigger] f.slots()[i]
                == crate::anvil::slot_at(bytes@, i)),
            format == RegionFormat::Linear ==> match load_outcome(bytes@) {
                Ok((hs, data)) => (r matches Ok(RegionFile::Linear(f)) && f.chunks_headers@ == hs
                    && f.chunks_data@ == data),
                Err(e) => r == Err::<RegionFile, ChunkReadingError>(e),
            },
    {
        match format {
            RegionFormat::Anvil => match AnvilChunkFile::from_bytes(bytes) {
                Ok(f) => Ok(RegionFile::Anvil(f)),
                Err(e) => Err(e),
            },
            RegionFormat::Linear => match LinearFile::load(bytes) {
                Ok(f) => Ok(RegionFile::Linear(f)),
                Err(e) => Err(e),
            },
        }
    }

    /// The bytes of this region's file; a Linear stream is compressed at the
    /// configured level.
    pub fn encode(&self, config: &ChunkCompression) -> (r: Result<Vec<u8>, ChunkWritingError>)
        requires
            self.wf(),
        ensures
            match *self {
                RegionFile::Anvil(f) => (r matches Ok(b) && b@ == crate::anvil::region_bytes(f.slots(), f.timestamp_table@)),
                RegionFile::Linear(f) => {
                    let z = zstd_of(payload_of(f.chunks_headers@, f.chunks_data@), config.level as i32);
                    &&& (r is Ok <==> z.len() <= 0xffff_ffff)
                    &&& (r matches Ok(b) ==> b@ == file_bytes(f.chunks_headers@, z, config.level as i32)
                        && load_outcome(b@) == Ok::<(Seq<LinearChunkHeader>, Seq<u8>), ChunkReadingError>(
                            (f.chunks_headers@, f.chunks_data@)))
                    &&& (r matches Err(e) ==> e == ChunkWritingError::SerializingError)
                },
            },
    {
        match self {
            RegionFile::Anvil(f) => Ok(f.to_bytes()),
            RegionFile::Linear(f) => match f.save(config.linear_level()) {
                Ok(b) => Ok(b),
                Err(e) => Err(e),
            },
        }
    }

    /// Stores `chunks` in this region, each at the slot of its position, later
    /// ones overwriting earlier ones. Anvil records are compressed with the
    /// configured algorithm; Linear slots take `timestamp`.
    pub fn apply_updates(&mut self, chunks: &[ChunkData], config: &ChunkCompression, timestamp: u32) -> (r: Result<(), ChunkWritingError>)
        requires
            old(self).wf(),
            level_ok(config.algorithm, config.level),
        ensures
            final(self).wf(),
            final(self).format() == old(self).format(),
            (exists|i: int| 0 <= i < chunks@.len() && !chunk_wf(#[trigger] chunks@[i]@)) ==> r is Err,
            old(self).format() == RegionFormat::Anvil ==> (r is Ok <==> forall|i: int| 0 <= i < chunks@.len() ==> storable(#[trigger] chunks@[i]@, config.algorithm, config.level)),
            old(self).format() == RegionFormat::Linear ==> (r is Ok <==> forall|i: int| 0 <= i < chunks@.len() ==> chunk_wf(#[trigger] chunks@[i]@)),
            r is Ok ==> match (*old(self), *final(self)) {
                (RegionFile::Anvil(a), RegionFile::Anvil(b)) => b.slots() == updated_slots(
                    a.slots(),
                    chunks@.map_values(|c: ChunkData| c@),
                    config.algorithm,
                    config.level,
                ) && b.timestamp_table@ == a.timestamp_table@,
                (RegionFile::Linear(a), RegionFile::Linear(b)) => (b.chunks_headers@, b.chunks_data@) == put_all(
                    a.chunks_headers@,
                    a.chunks_data@,
                    chunks@.map_values(|c: ChunkData| c@),
                    timestamp,
                ),
                _ => false,
            },
    {
        match self {
            RegionFile::Anvil(f) => f.add_chunk_data(chunks, config.algorithm, config.level),
            RegionFile::Linear(f) => f.put_chunks(chunks, timestamp),
        }
    }

    /// Loads the chunk at `pos`: `Missing` when its slot is empty.
    pub fn load_chunk(&self, pos: ChunkPos) -> (r: LoadedData)
        requires
            self.wf(),
        ensures
            r matches LoadedData::Missing(p) ==> p == pos,
            r matches LoadedData::Error(p, _) ==> p == pos,
            r matches LoadedData::Loaded(c) ==> c.position == pos,
            match *self {
                RegionFile::Anvil(f) => match f.slots()[index_of(pos.x as int, pos.z as int)] {
                    None => r == LoadedData::Missing(pos),
                    Some(d) => match chunk_outcome(d, pos.x, pos.z) {
                        Ok(c) => (r matches LoadedData::Loaded(x) && x@ == c),
                        Err(e) => r == LoadedData::Error(pos, e),
                    },
                },
                RegionFile::Linear(f) => {
                    let i = index_of(pos.x as int, pos.z as int);
                    if f.chunks_headers@[i].size == 0 {
                        r == LoadedData::Missing(pos)
                    } else {
                        match decode_chunk(slot_bytes(f.chunks_headers@, f.chunks_data@, i), pos.x, pos.z) {
                            Ok(c) => (r matches LoadedData::Loaded(x) && x@ == c),
                            Err(e) => r == LoadedData::Error(pos, ChunkReadingError::ParsingError(e)),
                        }
                    }
                },
            },
    {
        match self {
            RegionFile::Anvil(f) => f.load_chunk(pos),
            RegionFile::Linear(f) => match f.get_chunk(pos) {
                Ok(c) => LoadedData::Loaded(c),
                Err(ChunkReadingError::ChunkNotExist) => LoadedData::Missing(pos),
                Err(e) => LoadedData::Error(pos, e),
            },
        }
    }
}

} // verus!
