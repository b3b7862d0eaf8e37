use region_store::anvil::{AnvilChunkData, AnvilChunkFile, LoadedData};
use region_store::chunk::{ChunkData, ChunkHeightmaps, ChunkPos};
use region_store::compression::Compression;
use region_store::errors::{ChunkReadingError, CompressionError};

fn sample_chunk(x: i32, z: i32) -> ChunkData {
    let mut subchunks = Vec::new();
    for s in 0..24i32 {
        let mut blocks = Vec::with_capacity(4096);
        for k in 0..4096i32 {
            let v = if s < 8 {
                ((x * 7 + z * 13 + s * 3 + k / 256) & 15) as u16
            } else if s < 12 {
                ((k * 31 + x + z) % 40) as u16
            } else {
                0
            };
            blocks.push(v);
        }
        subchunks.push(blocks);
    }
    let heights: Vec<u64> = (0..37u64).map(|i| i * 0x0101_0101 + x as u64).collect();
    ChunkData {
        position: ChunkPos::new(x, z),
        subchunks,
        heightmap: ChunkHeightmaps { motion_blocking: heights.clone(), world_surface: heights },
    }
}

fn read_be_u32(b: &[u8], i: usize) -> u32 {
    u32::from_be_bytes([b[i], b[i + 1], b[i + 2], b[i + 3]])
}

#[test]
fn anvil_not_existing() {
    let region = AnvilChunkFile::default();
    let result = region.load_chunk(ChunkPos::new(0, 0));
    assert!(matches!(result, LoadedData::Missing(_)));
}

#[test]
fn anvil_test_writing() {
    let mut chunks = vec![];
    for x in -5..5 {
        for y in -5..5 {
            chunks.push(sample_chunk(x, y));
        }
    }
    let mut bytes_by_region: Vec<((i32, i32), Vec<u8>)> = Vec::new();
    for i in 0..5 {
        println!("Iteration {}", i + 1);
        let mut regions: Vec<((i32, i32), AnvilChunkFile)> = Vec::new();
        for chunk in &chunks {
            let key = (chunk.position.x >> 5, chunk.position.z >> 5);
            let existing = bytes_by_region.iter().find(|(k, _)| *k == key);
            if regions.iter().all(|(k, _)| *k != key) {
                let region = match existing {
                    Some((_, b)) => AnvilChunkFile::from_bytes(b).expect("region must parse"),
                    None => AnvilChunkFile::default(),
                };
                regions.push((key, region));
            }
            let region = &mut regions.iter_mut().find(|(k, _)| *k == key).unwrap().1;
            region
                .add_chunk_data(std::slice::from_ref(chunk), Compression::LZ4, 6)
                .expect("Failed to write chunk");
        }
        bytes_by_region = regions.iter().map(|(k, r)| (*k, r.to_bytes())).collect();

        let mut read_chunks = vec![];
        for chunk in &chunks {
            let key = (chunk.position.x >> 5, chunk.position.z >> 5);
            let bytes = &bytes_by_region.iter().find(|(k, _)| *k == key).unwrap().1;
            let region = AnvilChunkFile::from_bytes(bytes).expect("region must parse");
            match region.load_chunk(chunk.position) {
                LoadedData::Loaded(c) => read_chunks.push(c),
                LoadedData::Missing(_) => {}
                LoadedData::Error(position, error) => {
                    panic!("Error reading chunk at {:?} | Error: {:?}", position, error)
                }
            }
        }
        for chunk in &chunks {
            let read_chunk = read_chunks
                .iter()
                .find(|c| c.position == chunk.position)
                .expect("Missing chunk");
            assert_eq!(chunk.subchunks, read_chunk.subchunks, "Chunks don't match");
        }
    }
    println!("Checked chunks successfully");
}

#[test]
fn single_chunk_location_table() {
    let mut region = AnvilChunkFile::default();
    let chunk = sample_chunk(3, 2);
    region.add_chunk_data(&[chunk], Compression::ZLib, 6).unwrap();
    let bytes = region.to_bytes();
    let index = (2 << 5) | 3;
    let sector_count = ((bytes.len() - 8192) / 4096) as u32;
    assert!(sector_count >= 1);
    for i in 0..1024 {
        let entry = read_be_u32(&bytes, 4 * i);
        if i == index {
            assert_eq!(entry, (2 << 8) | sector_count);
        } else {
            assert_eq!(entry, 0);
            assert_eq!(read_be_u32(&bytes, 4096 + 4 * i), 0);
        }
    }
    assert_eq!(bytes.len() % 4096, 0);
}

#[test]
fn saving_twice_gives_identical_bytes() {
    let chunks: Vec<ChunkData> = (0..4).map(|i| sample_chunk(i, -i)).collect();
    let mut once = AnvilChunkFile::default();
    once.add_chunk_data(&chunks, Compression::GZip, 6).unwrap();
    let first = once.to_bytes();
    once.add_chunk_data(&chunks, Compression::GZip, 6).unwrap();
    assert_eq!(first, once.to_bytes());
}

#[test]
fn record_round_trip_through_sector_image() {
    let chunk = sample_chunk(-1, 4);
    let record = AnvilChunkData::from_chunk(&chunk, Compression::GZip, 6).unwrap();
    assert_eq!(record.length as usize, record.compressed_data.len() + 1);
    assert_eq!(record.compression, Some(Compression::GZip));
    let image = record.to_bytes();
    assert_eq!(image.len() % 4096, 0);
    assert_eq!(&image[5..5 + record.compressed_data.len()], &record.compressed_data[..]);
    assert_ne!(record.compressed_data, chunk.to_bytes().unwrap());
    let back = AnvilChunkData::from_bytes(&image).unwrap();
    let decoded = back.to_chunk(ChunkPos::new(-1, 4)).unwrap();
    assert_eq!(decoded, chunk);
}

#[test]
fn every_codec_round_trips_a_chunk() {
    let chunk = sample_chunk(9, 9);
    for c in [Compression::GZip, Compression::ZLib, Compression::LZ4] {
        let record = AnvilChunkData::from_chunk(&chunk, c, 4).unwrap();
        let decoded = record.to_chunk(ChunkPos::new(9, 9)).unwrap();
        assert_eq!(decoded.subchunks, chunk.subchunks);
    }
}

#[test]
fn custom_compression_is_unsupported() {
    let chunk = sample_chunk(0, 0);
    assert!(AnvilChunkData::from_chunk(&chunk, Compression::Custom, 1).is_err());
    let record = AnvilChunkData { length: 3, compression: Some(Compression::Custom), compressed_data: vec![1, 2, 3] };
    assert_eq!(
        record.to_chunk(ChunkPos::new(0, 0)).unwrap_err(),
        ChunkReadingError::Compression(CompressionError::UnsupportedCompression)
    );
}

#[test]
fn unknown_tag_and_short_records_are_rejected() {
    assert_eq!(
        AnvilChunkData::from_bytes(&[0, 0, 0, 2, 9, 0]).err(),
        Some(ChunkReadingError::Compression(CompressionError::UnknownCompression))
    );
    assert_eq!(AnvilChunkData::from_bytes(&[0, 0, 1]).err(), Some(ChunkReadingError::InvalidHeader));
    let ok = AnvilChunkData::from_bytes(&[0, 0, 0, 2, 3, 7, 0]).unwrap();
    assert_eq!(ok.length, 2);
    assert_eq!(ok.compression, None);
    assert_eq!(ok.compressed_data, vec![7, 0]);
}

#[test]
fn truncated_region_is_invalid_header() {
    assert_eq!(AnvilChunkFile::from_bytes(&[0u8; 100]).err(), Some(ChunkReadingError::InvalidHeader));
    let mut bytes = vec![0u8; 8192];
    bytes[3] = 5;
    bytes[2] = 1;
    assert_eq!(AnvilChunkFile::from_bytes(&bytes).err(), Some(ChunkReadingError::InvalidHeader));
    let empty = AnvilChunkFile::from_bytes(&vec![0u8; 8192]).unwrap();
    assert!(matches!(empty.load_chunk(ChunkPos::new(7, 7)), LoadedData::Missing(p) if p == ChunkPos::new(7, 7)));
}

#[test]
fn corrupted_length_field_is_invalid_header() {
    let record = AnvilChunkData { length: 0, compression: None, compressed_data: vec![] };
    assert_eq!(record.to_chunk(ChunkPos::new(0, 0)).unwrap_err(), ChunkReadingError::InvalidHeader);
    let record = AnvilChunkData { length: 10, compression: None, compressed_data: vec![1, 2] };
    assert_eq!(record.to_chunk(ChunkPos::new(0, 0)).unwrap_err(), ChunkReadingError::InvalidHeader);
}

#[test]
fn garbage_document_is_a_parsing_error() {
    let record = AnvilChunkData { length: 4, compression: None, compressed_data: vec![1, 2, 3, 0, 0] };
    assert_eq!(
        record.to_chunk(ChunkPos::new(0, 0)).unwrap_err(),
        ChunkReadingError::ParsingError(region_store::errors::ChunkParsingError::MalformedDocument)
    );
    assert_eq!(
        AnvilChunkData::from_chunk(&sample_chunk(0, 0), Compression::Custom, 1).err(),
        Some(region_store::errors::ChunkWritingError::Compression(CompressionError::UnsupportedCompression))
    );
}
