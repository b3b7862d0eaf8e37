//! Decoded chunks and their canonical byte form.
use vstd::prelude::*;

use crate::document::{
    doc_wf, document_bytes, lemma_document_round_trip, parse_document, read_document,
    write_document, ChunkDocument, DocView, ARRAY_LIMIT, SECTION_COUNT,
};
use crate::errors::{ChunkParsingError, ChunkWritingError};
use crate::palette::{
    bits_for, decode_section, encode_section, indices_of, lemma_section_round_trip, packed,
    palette_of, section_valid, unpacked, PalettedSection, SECTION_VOLUME,
};

verus! {

/// World-space chunk coordinate.
#[derive(Debug, Clone, Copy, PartialEq, Eq, Structural)]
pub struct ChunkPos {
    pub x: i32,
    pub z: i32,
}

impl ChunkPos {
    pub fn new(x: i32, z: i32) -> (r: ChunkPos)
        ensures
            r.x == x,
            r.z == z,
    {
        ChunkPos { x, z }
    }
}

/// Heightmaps of a chunk, each a packed long array.
#[derive(Debug, Clone, PartialEq, Eq)]
pub struct ChunkHeightmaps {
    pub motion_blocking: Vec<u64>,
    pub world_surface: Vec<u64>,
}

/// A fully decoded chunk: its position, 24 sub-chunks of 4096 block states each
/// (lowest first), and its heightmaps.
#[derive(Debug, Clone, PartialEq, Eq)]
pub struct ChunkData {
    pub position: ChunkPos,
    pub subchunks: Vec<Vec<u16>>,
    pub heightmap: ChunkHeightmaps,
}

/// Position, heightmaps and sub-chunks of a chunk.
pub type ChunkView = (i32, i32, Seq<u64>, Seq<u64>, Seq<Seq<u16>>);

impl View for ChunkData {
    type V = ChunkView;

    open spec fn view(&self) -> ChunkView {
        (
            self.position.x,
            self.position.z,
            self.heightmap.motion_blocking@,
            self.heightmap.world_surface@,
            self.subchunks@.map_values(|s: Vec<u16>| s@),
        )
    }
}

/// Whether a chunk has 24 sub-chunks of 4096 states and heightmaps that fit a document.
pub open spec fn chunk_wf(c: ChunkView) -> bool {
    &&& c.2.len() <= ARRAY_LIMIT
    &&& c.3.len() <= ARRAY_LIMIT
    &&& c.4.len() == SECTION_COUNT
    &&& forall|i: int| 0 <= i < c.4.len() ==> (#[trigger] c.4[i]).len() == SECTION_VOLUME
}

/// The palette-compressed form of sub-chunk `s`.
pub open spec fn section_of(s: Seq<u16>) -> (Seq<u16>, Seq<u64>) {
    (palette_of(s), packed(indices_of(s), bits_for(palette_of(s).len())))
}

/// The document that stores chunk `c`.
pub open spec fn doc_of(c: ChunkView) -> DocView {
    (c.0, c.1, c.2, c.3, c.4.map_values(|s: Seq<u16>| section_of(s)))
}

/// The canonical bytes of chunk `c`.
pub open spec fn chunk_bytes(c: ChunkView) -> Seq<u8> {
    document_bytes(doc_of(c))
}

/// The chunk at `(x, z)` that `b` encodes, or why it encodes none.
pub open spec fn decode_chunk(b: Seq<u8>, x: i32, z: i32) -> Result<ChunkView, ChunkParsingError> {
    match parse_document(b) {
        None => Err(ChunkParsingError::MalformedDocument),
        Some(d) => if d.0 != x || d.1 != z {
            Err(ChunkParsingError::PositionMismatch)
        } else if !(forall|i: int|
            0 <= i < d.4.len() ==> #[trigger] section_valid(
                d.4[i].0,
                d.4[i].1,
                SECTION_VOLUME as nat,
            )) {
            Err(ChunkParsingError::InvalidSection)
        } else {
            Ok(
                (
                    x,
                    z,
                    d.2,
                    d.3,
                    d.4.map_values(
                        |s: (Seq<u16>, Seq<u64>)| unpacked(s.0, s.1, SECTION_VOLUME as nat),
                    ),
                ),
            )
        },
    }
}

proof fn lemma_words_bound(n: nat, per: nat)
    requires
        per >= 1,
        n >= 1,
    ensures
        ((n + per - 1) as nat / per) as nat <= n,
{
    assert(((n + per - 1) as nat / per) as nat <= n) by (nonlinear_arith)
        requires
            per >= 1,
            n >= 1,
    ;
}

/// A chunk read back from its bytes, at its own position, is the chunk itself:
/// same position, same sub-chunks, same heightmaps.
pub proof fn lemma_chunk_round_trip(c: ChunkView)
    requires
        chunk_wf(c),
    ensures
        decode_chunk(chunk_bytes(c), c.0, c.1) == Ok::<ChunkView, ChunkParsingError>(c),
{
    let d = doc_of(c);
    assert forall|i: int| 0 <= i < d.4.len() implies (#[trigger] d.4[i]).0.len() <= ARRAY_LIMIT
        && d.4[i].1.len() <= ARRAY_LIMIT && section_valid(d.4[i].0, d.4[i].1, SECTION_VOLUME as nat)
        && unpacked(d.4[i].0, d.4[i].1, SECTION_VOLUME as nat) == c.4[i] by {
        let s = c.4[i];
        assert(s.len() == SECTION_VOLUME);
        lemma_section_round_trip(s);
        let b = bits_for(palette_of(s).len());
        crate::palette::lemma_bits_for(palette_of(s).len());
        assert(4 <= 64nat / b) by (nonlinear_arith)
            requires
                4 <= b <= 16,
        {
        }
        lemma_words_bound(SECTION_VOLUME as nat, 64nat / b);
    }
    lemma_document_round_trip(d);
    let r = d.4.map_values(|s: (Seq<u16>, Seq<u64>)| unpacked(s.0, s.1, SECTION_VOLUME as nat));
    assert(r =~= c.4);
}

impl ChunkData {
    /// Encodes the chunk: each sub-chunk palette-compressed, the document in the
    /// NBT binary encoding. Fails when the chunk does not have 24 sub-chunks of
    /// 4096 states, or a heightmap longer than 4096 words.
    pub fn to_bytes(&self) -> (r: Result<Vec<u8>, ChunkWritingError>)
        ensures
            r is Ok <==> chunk_wf(self@),
            r matches Ok(b) ==> b@ == chunk_bytes(self@),
            r matches Err(e) ==> e == ChunkWritingError::SerializingError,
    {
        chunk_to_bytes(self)
    }

    /// Decodes the chunk at `pos` from `bytes`; see `decode_chunk`.
    pub fn from_bytes(bytes: &[u8], pos: ChunkPos) -> (r: Result<ChunkData, ChunkParsingError>)
        ensures
            match decode_chunk(bytes@, pos.x, pos.z) {
                Ok(c) => r matches Ok(d) && d@ == c,
                Err(e) => r == Err::<ChunkData, ChunkParsingError>(e),
            },
    {
        let doc = match read_document(bytes) {
            Some(d) => d,
            None => return Err(ChunkParsingError::MalformedDocument),
        };
        if doc.x != pos.x || doc.z != pos.z {
            return Err(ChunkParsingError::PositionMismatch);
        }
        let ghost dv = doc@;
        let mut subchunks: Vec<Vec<u16>> = Vec::new();
        let mut i: usize = 0;
        while i < doc.sections.len()
            invariant
                dv == doc@,
                parse_document(bytes@) == Some(dv),
                dv.0 == pos.x,
                dv.1 == pos.z,
                i <= doc.sections@.len(),
                dv.4.len() == doc.sections@.len(),
                subchunks@.len() == i,
                forall|k: int| 0 <= k < i ==> section_valid(#[trigger] dv.4[k].0, dv.4[k].1, SECTION_VOLUME as nat),
                forall|k: int| 0 <= k < i ==> (#[trigger] subchunks@[k])@ == unpacked(dv.4[k].0, dv.4[k].1, SECTION_VOLUME as nat),
            decreases doc.sections@.len() - i,
        {
            let sec = &doc.sections[i];
            assert(dv.4[i as int] == sec@);
            match decode_section(sec.palette.as_slice(), sec.data.as_slice(), SECTION_VOLUME) {
                Ok(blocks) => {
                    subchunks.push(blocks);
                },
                Err(e) => {
                    assert(!section_valid(dv.4[i as int].0, dv.4[i as int].1, SECTION_VOLUME as nat));
                    return Err(e);
                },
            }
            i = i + 1;
        }
        let chunk = ChunkData {
            position: pos,
            subchunks,
            heightmap: ChunkHeightmaps {
                motion_blocking: doc.motion_blocking,
                world_surface: doc.world_surface,
            },
        };
        assert(chunk@.4 =~= dv.4.map_values(
            |s: (Seq<u16>, Seq<u64>)| unpacked(s.0, s.1, SECTION_VOLUME as nat),
        ));
        Ok(chunk)
    }
}

/// Encodes `chunk` to its canonical bytes: each sub-chunk palette-compressed, the
/// document in the NBT binary encoding.
pub fn chunk_to_bytes(chunk: &ChunkData) -> (r: Result<Vec<u8>, ChunkWritingError>)
    ensures
        r is Ok <==> chunk_wf(chunk@),
        r matches Ok(b) ==> b@ == chunk_bytes(chunk@) && b@.len() <= 2_000_000,
        r matches Err(e) ==> e == ChunkWritingError::SerializingError,
{
    if chunk.heightmap.motion_blocking.len() > ARRAY_LIMIT || chunk.heightmap.world_surface.len()
        > ARRAY_LIMIT || chunk.subchunks.len() != SECTION_COUNT {
        return Err(ChunkWritingError::SerializingError);
    }
    let ghost cv = chunk@;
    let mut sections: Vec<PalettedSection> = Vec::new();
    let mut i: usize = 0;
    while i < SECTION_COUNT
        invariant
            cv == chunk@,
            cv.4.len() == SECTION_COUNT,
            i <= SECTION_COUNT,
            sections@.len() == i,
            forall|k: int| 0 <= k < i ==> (#[trigger] cv.4[k]).len() == SECTION_VOLUME,
            forall|k: int| 0 <= k < i ==> (#[trigger] sections@[k])@ == section_of(cv.4[k]),
        decreases SECTION_COUNT - i,
    {
        let blocks = &chunk.subchunks[i];
        assert(cv.4[i as int] == blocks@);
        if blocks.len() != SECTION_VOLUME {
            return Err(ChunkWritingError::SerializingError);
        }
        let sec = encode_section(blocks.as_slice());
        sections.push(sec);
        i = i + 1;
    }
    let doc = ChunkDocument {
        x: chunk.position.x,
        z: chunk.position.z,
        motion_blocking: chunk.heightmap.motion_blocking.clone(),
        world_surface: chunk.heightmap.world_surface.clone(),
        sections,
    };
    assert(doc@.4 =~= cv.4.map_values(|s: Seq<u16>| section_of(s)));
    proof {
        assert forall|k: int| 0 <= k < doc@.4.len() implies (#[trigger] doc@.4[k]).0.len()
            <= ARRAY_LIMIT && doc@.4[k].1.len() <= ARRAY_LIMIT by {
            lemma_section_round_trip(cv.4[k]);
            let b = bits_for(palette_of(cv.4[k]).len());
            crate::palette::lemma_bits_for(palette_of(cv.4[k]).len());
            assert(4 <= 64nat / b) by (nonlinear_arith)
                requires
                    4 <= b <= 16,
            {
            }
            lemma_words_bound(SECTION_VOLUME as nat, 64nat / b);
        }
    }
    proof {
        crate::document::lemma_document_len(doc@);
    }
    Ok(write_document(&doc))
}

} // verus!
