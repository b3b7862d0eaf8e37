//! The settings that the storage engine reads.
use vstd::prelude::*;

use crate::compression::{level_ok, Compression};

verus! {

/// Algorithm and level that chunks are compressed with when written.
#[derive(Debug, Clone, Copy, PartialEq, Eq, Structural)]
pub struct ChunkCompression {
    pub algorithm: Compression,
    pub level: u32,
}

/// Chunk storage settings.
#[derive(Debug, Clone, Copy, PartialEq, Eq, Structural)]
pub struct ChunkConfig {
    pub compression: ChunkCompression,
}

/// The advanced settings; the storage engine reads the chunk section.
#[derive(Debug, Clone, Copy, PartialEq, Eq, Structural)]
pub struct AdvancedConfiguration {
    pub chunk: ChunkConfig,
}

impl Default for ChunkCompression {
    /// LZ4 at level 6.
    fn default() -> (r: ChunkCompression)
        ensures
            r.algorithm == Compression::LZ4,
            r.level == 6,
    {
        ChunkCompression { algorithm: Compression::LZ4, level: 6 }
    }
}

impl Default for ChunkConfig {
    fn default() -> (r: ChunkConfig)
        ensures
            r.compression.algorithm == Compression::LZ4,
            r.compression.level == 6,
    {
        ChunkConfig { compression: ChunkCompression::default() }
    }
}

impl Default for AdvancedConfiguration {
    fn default() -> (r: AdvancedConfiguration)
        ensures
            r.chunk.compression.algorithm == Compression::LZ4,
            r.chunk.compression.level == 6,
    {
        AdvancedConfiguration { chunk: ChunkConfig::default() }
    }
}

impl ChunkCompression {
    /// Whether chunks can be written with these settings: the algorithm has an
    /// implementation and the level is one its codec accepts.
    pub fn validate(&self) -> (r: bool)
        ensures
            r <==> self.algorithm != Compression::Custom && level_ok(self.algorithm, self.level),
    {
        match self.algorithm {
            Compression::Custom => false,
            Compression::GZip | Compression::ZLib => self.level <= 10,
            Compression::LZ4 => true,
        }
    }

    /// The zstd level of Linear files: the configured level, as a signed integer.
    pub fn linear_level(&self) -> (r: i32)
        ensures
            r == self.level as i32,
    {
        self.level as i32
    }
}

} // verus!
