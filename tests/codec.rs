use region_store::be::{push_u32, read_u32, read_u64};
use region_store::chunk::{chunk_to_bytes, ChunkData, ChunkHeightmaps, ChunkPos};
use region_store::compression::Compression;
use region_store::coords::{get_chunk_index, get_region_coords};
use region_store::document::read_document;
use region_store::errors::{ChunkParsingError, ChunkWritingError, CompressionError};
use region_store::palette::{bits_for_palette, ceil_log2_u32, decode_section, encode_section};

fn uniform_chunk(x: i32, z: i32, state: u16) -> ChunkData {
    ChunkData {
        position: ChunkPos::new(x, z),
        subchunks: vec![vec![state; 4096]; 24],
        heightmap: ChunkHeightmaps { motion_blocking: vec![], world_surface: vec![] },
    }
}

#[test]
fn region_coords_shift_with_sign() {
    assert_eq!(get_region_coords(0, 0), (0, 0));
    assert_eq!(get_region_coords(31, 32), (0, 1));
    assert_eq!(get_region_coords(-1, -32), (-1, -1));
    assert_eq!(get_region_coords(-33, 1_000_000), (-2, 31250));
    assert_eq!(get_region_coords(i32::MIN, i32::MAX), (i32::MIN >> 5, i32::MAX >> 5));
}

#[test]
fn chunk_index_in_grid() {
    assert_eq!(get_chunk_index(0, 0), 0);
    assert_eq!(get_chunk_index(3, 2), 67);
    assert_eq!(get_chunk_index(-1, -1), 1023);
    assert_eq!(get_chunk_index(-32, 33), 32);
    for x in -70..70 {
        for z in -70..70 {
            let i = get_chunk_index(x, z);
            assert!(i < 1024);
            assert_eq!(i, (((z & 31) << 5) | (x & 31)) as usize);
        }
    }
}

#[test]
fn grid_indexing_is_unique() {
    let mut seen = std::collections::HashSet::new();
    for x in -40..40 {
        for z in -40..40 {
            assert!(seen.insert((get_region_coords(x, z), get_chunk_index(x, z))));
        }
    }
}

#[test]
fn bit_width_rule() {
    assert_eq!(ceil_log2_u32(1), 0);
    assert_eq!(ceil_log2_u32(16), 4);
    assert_eq!(ceil_log2_u32(17), 5);
    assert_eq!(ceil_log2_u32(4096), 12);
    assert_eq!(bits_for_palette(1), 4);
    assert_eq!(bits_for_palette(15), 4);
    assert_eq!(bits_for_palette(16), 4);
    assert_eq!(bits_for_palette(17), 5);
    assert_eq!(bits_for_palette(33), 6);
    assert_eq!(bits_for_palette(4096), 12);
}

#[test]
fn palette_and_packing_of_a_section() {
    let mut blocks = vec![7u16; 4096];
    blocks[1] = 3;
    blocks[2] = 7;
    blocks[3] = 9;
    let sec = encode_section(&blocks);
    assert_eq!(sec.palette, vec![7, 3, 9]);
    assert_eq!(sec.data.len(), 256);
    assert_eq!(sec.data[0], 0x2010);
    assert_eq!(sec.data[1], 0);
    assert_eq!(decode_section(&sec.palette, &sec.data, 4096).unwrap(), blocks);
}

#[test]
fn wide_palette_does_not_straddle_words() {
    let blocks: Vec<u16> = (0..4096).map(|i| (i % 40) as u16).collect();
    let sec = encode_section(&blocks);
    assert_eq!(sec.palette.len(), 40);
    // six bits per entry, ten entries per word
    assert_eq!(sec.data.len(), 410);
    let expected0: u64 = (0..10u64).map(|j| j << (6 * j)).sum();
    assert_eq!(sec.data[0], expected0);
    assert_eq!(decode_section(&sec.palette, &sec.data, 4096).unwrap(), blocks);
    let mut distinct = sec.palette.clone();
    distinct.sort();
    distinct.dedup();
    assert_eq!(distinct.len(), sec.palette.len());
}

#[test]
fn every_state_distinct_takes_twelve_bits() {
    let blocks: Vec<u16> = (0..4096).map(|i| (4095 - i) as u16).collect();
    let sec = encode_section(&blocks);
    assert_eq!(sec.palette.len(), 4096);
    assert_eq!(sec.data.len(), 820);
    assert_eq!(decode_section(&sec.palette, &sec.data, 4096).unwrap(), blocks);
}

#[test]
fn inconsistent_sections_are_rejected() {
    assert_eq!(decode_section(&[1, 2], &[0; 255], 4096), Err(ChunkParsingError::InvalidSection));
    let mut data = vec![0u64; 256];
    data[0] = 5;
    assert_eq!(decode_section(&[1, 2], &data, 4096), Err(ChunkParsingError::InvalidSection));
    assert_eq!(decode_section(&[], &[0; 256], 4096), Err(ChunkParsingError::InvalidSection));
}

#[test]
fn chunk_document_layout() {
    let chunk = uniform_chunk(-3, 4, 1);
    let bytes = chunk_to_bytes(&chunk).unwrap();
    assert_eq!(&bytes[..3], &[10, 0, 0]);
    assert_eq!(&bytes[6..17], b"DataVersion");
    assert_eq!(read_u32(&bytes, 17), 4189);
    assert_eq!(&bytes[24..28], b"xPos");
    assert_eq!(read_u32(&bytes, 28) as i32, -3);
    assert_eq!(read_u32(&bytes, 39) as i32, 4);
    assert_eq!(*bytes.last().unwrap(), 0);
    let doc = read_document(&bytes).unwrap();
    assert_eq!(doc.sections.len(), 24);
    assert_eq!(doc.sections[0].palette, vec![1]);
    assert_eq!(doc.sections[0].data.len(), 256);
    let y_at = bytes.windows(4).position(|w| w == [1, 0, 1, 89]).unwrap();
    assert_eq!(bytes[y_at + 4] as i8, -4);
}

#[test]
fn chunk_round_trip() {
    let mut chunk = uniform_chunk(10, -20, 0);
    for (s, sub) in chunk.subchunks.iter_mut().enumerate() {
        for (k, b) in sub.iter_mut().enumerate() {
            *b = ((k * (s + 1)) % (s * 9 + 2)) as u16;
        }
    }
    chunk.heightmap.motion_blocking = vec![u64::MAX, 0, 42];
    let bytes = chunk.to_bytes().unwrap();
    let back = ChunkData::from_bytes(&bytes, ChunkPos::new(10, -20)).unwrap();
    assert_eq!(back, chunk);
    assert_eq!(ChunkData::from_bytes(&bytes, ChunkPos::new(10, -21)).unwrap_err(), ChunkParsingError::PositionMismatch);
    assert_eq!(ChunkData::from_bytes(&bytes[1..], ChunkPos::new(10, -20)).unwrap_err(), ChunkParsingError::MalformedDocument);
}

#[test]
fn malformed_chunks_cannot_be_written() {
    let mut chunk = uniform_chunk(0, 0, 0);
    chunk.subchunks.pop();
    assert_eq!(chunk_to_bytes(&chunk), Err(ChunkWritingError::SerializingError));
    let mut chunk = uniform_chunk(0, 0, 0);
    chunk.subchunks[3].push(1);
    assert_eq!(chunk_to_bytes(&chunk), Err(ChunkWritingError::SerializingError));
}

#[test]
fn compression_tags() {
    assert_eq!(Compression::from_byte(1), Ok(Some(Compression::GZip)));
    assert_eq!(Compression::from_byte(2), Ok(Some(Compression::ZLib)));
    assert_eq!(Compression::from_byte(3), Ok(None));
    assert_eq!(Compression::from_byte(4), Ok(Some(Compression::LZ4)));
    assert_eq!(Compression::from_byte(127), Ok(Some(Compression::Custom)));
    assert_eq!(Compression::from_byte(0), Err(()));
    assert_eq!(Compression::from_byte(5), Err(()));
    assert_eq!(Compression::LZ4.to_byte(), 4);
    assert_eq!(Compression::Custom.to_byte(), 127);
}

#[test]
fn codecs_transform_and_restore() {
    let data: Vec<u8> = (0..5000u32).map(|i| (i % 7) as u8).collect();
    for c in [Compression::GZip, Compression::ZLib, Compression::LZ4] {
        let packed = c.compress_data(&data, 6).unwrap();
        assert_ne!(packed, data);
        assert_eq!(c.decompress_data(&packed).unwrap(), data);
    }
    assert_eq!(Compression::GZip.decompress_data(&[1, 2, 3]), Err(CompressionError::GZipError));
    assert_eq!(Compression::Custom.compress_data(&data, 1), Err(CompressionError::UnsupportedCompression));
}

#[test]
fn big_endian_helpers() {
    let mut out = Vec::new();
    push_u32(&mut out, 0x01020304);
    assert_eq!(out, vec![1, 2, 3, 4]);
    assert_eq!(read_u32(&out, 0), 0x01020304);
    assert_eq!(read_u64(&[0, 0, 0, 0, 0, 0, 1, 2], 0), 258);
}

#[test]
fn codec_errors_name_their_codec() {
    assert_eq!(Compression::ZLib.decompress_data(&[9, 9, 9]), Err(CompressionError::ZlibError));
    assert_eq!(Compression::LZ4.decompress_data(&[9, 9, 9, 9, 9, 9, 9]), Err(CompressionError::LZ4Error));
}
