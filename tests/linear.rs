use region_store::chunk::{ChunkData, ChunkHeightmaps, ChunkPos};
use region_store::errors::ChunkReadingError;
use region_store::linear::{LinearFile, LinearFileHeader, LinearVersion};

fn sample_chunk(x: i32, z: i32) -> ChunkData {
    let mut subchunks = Vec::new();
    for s in 0..24i32 {
        let mut blocks = Vec::with_capacity(4096);
        for k in 0..4096i32 {
            let v = if s < 6 { ((x * 5 + z * 11 + k / 512 + s) & 7) as u16 } else { 0 };
            blocks.push(v);
        }
        subchunks.push(blocks);
    }
    ChunkData {
        position: ChunkPos::new(x, z),
        subchunks,
        heightmap: ChunkHeightmaps { motion_blocking: vec![1, 2, 3], world_surface: vec![x as u64] },
    }
}

const SIGNATURE: [u8; 8] = [0xC3, 0xFF, 0x13, 0x18, 0x3C, 0xCA, 0x9D, 0x9A];

#[test]
fn linear_not_existing() {
    let file = LinearFile::new();
    let result = file.get_chunk(ChunkPos::new(0, 0));
    assert!(matches!(result, Err(ChunkReadingError::ChunkNotExist)));
}

#[test]
fn linear_test_writing() {
    let mut chunks = vec![];
    for x in -5..5 {
        for y in -5..5 {
            chunks.push(sample_chunk(x, y));
        }
    }
    let mut files: Vec<((i32, i32), Vec<u8>)> = Vec::new();
    for i in 0..5u32 {
        println!("Iteration {}", i + 1);
        for chunk in &chunks {
            let key = (chunk.position.x >> 5, chunk.position.z >> 5);
            let mut file = match files.iter().find(|(k, _)| *k == key) {
                Some((_, b)) => LinearFile::load(b).expect("Could not read chunk"),
                None => LinearFile::new(),
            };
            file.put_chunk(chunk, chunk.position, 1000 + i).expect("Failed to write chunk");
            let bytes = file.save(3).expect("Failed to write chunk");
            files.retain(|(k, _)| *k != key);
            files.push((key, bytes));
        }
        let mut read_chunks = vec![];
        for chunk in &chunks {
            let key = (chunk.position.x >> 5, chunk.position.z >> 5);
            let bytes = &files.iter().find(|(k, _)| *k == key).unwrap().1;
            let file = LinearFile::load(bytes).expect("Could not read chunk");
            read_chunks.push(file.get_chunk(chunk.position).expect("Could not read chunk"));
        }
        for chunk in &chunks {
            let read_chunk = read_chunks
                .iter()
                .find(|c| c.position == chunk.position)
                .expect("Missing chunk");
            assert_eq!(chunk.subchunks, read_chunk.subchunks, "Chunks don't match");
        }
    }
    println!("Checked chunks successfully");
}

#[test]
fn linear_file_is_framed_by_signature() {
    let mut file = LinearFile::new();
    file.put_chunk(&sample_chunk(1, 1), ChunkPos::new(1, 1), 77).unwrap();
    let bytes = file.save(1).unwrap();
    assert_eq!(&bytes[..8], &SIGNATURE);
    assert_eq!(&bytes[bytes.len() - 8..], &SIGNATURE);
    let header = LinearFileHeader::from_bytes(&bytes[8..32]);
    assert!(header.version == LinearVersion::V1);
    assert_eq!(header.newest_timestamp, 77);
    assert_eq!(header.chunks_count, 1);
    assert_eq!(header.compression_level, 1);
    assert_eq!(header.region_hash, 0);
    assert_eq!(header.chunks_bytes as usize, bytes.len() - 40);
    let payload = file.to_payload();
    assert_ne!(&bytes[32..bytes.len() - 8], &payload[..]);
    assert_eq!(LinearFile::load(&bytes).unwrap().to_payload(), payload);
}

#[test]
fn missing_signature_is_invalid_header() {
    let mut file = LinearFile::new();
    file.put_chunk(&sample_chunk(0, 0), ChunkPos::new(0, 0), 1).unwrap();
    let bytes = file.save(1).unwrap();
    let mut front = bytes.clone();
    front[0] ^= 1;
    assert_eq!(LinearFile::load(&front).err(), Some(ChunkReadingError::InvalidHeader));
    let mut back = bytes.clone();
    let n = back.len();
    back[n - 1] ^= 1;
    assert_eq!(LinearFile::load(&back).err(), Some(ChunkReadingError::InvalidHeader));
    let mut version = bytes.clone();
    version[8] = 0;
    assert_eq!(LinearFile::load(&version).err(), Some(ChunkReadingError::InvalidHeader));
    assert_eq!(LinearFile::load(&SIGNATURE).err(), Some(ChunkReadingError::InvalidHeader));
}

#[test]
fn header_round_trip_and_layout() {
    let header = LinearFileHeader {
        version: LinearVersion::V2,
        newest_timestamp: 0x0102030405060708,
        compression_level: 9,
        chunks_count: 0x0A0B,
        chunks_bytes: 0x0C0D0E0F,
        region_hash: 0x1112131415161718,
    };
    let bytes = header.to_bytes();
    assert_eq!(
        bytes,
        vec![2, 1, 2, 3, 4, 5, 6, 7, 8, 9, 0x0A, 0x0B, 0x0C, 0x0D, 0x0E, 0x0F, 0x11, 0x12, 0x13, 0x14, 0x15, 0x16, 0x17, 0x18]
    );
    assert_eq!(LinearFileHeader::from_bytes(&bytes), header);
    assert!(header.check_version().is_ok());
    let invalid = LinearFileHeader { version: LinearVersion::Invalid, ..header };
    assert_eq!(invalid.check_version(), Err(ChunkReadingError::InvalidHeader));
}

#[test]
fn version_bytes() {
    assert!(LinearVersion::from(1u8) == LinearVersion::V1);
    assert!(LinearVersion::from(2u8) == LinearVersion::V2);
    assert!(LinearVersion::from(0u8) == LinearVersion::Invalid);
    assert!(LinearVersion::from(200u8) == LinearVersion::Invalid);
}

#[test]
fn put_moves_later_slots_and_replaces_in_place() {
    let mut file = LinearFile::new();
    let a = sample_chunk(0, 0);
    let b = sample_chunk(1, 0);
    file.put_chunk(&b, b.position, 5).unwrap();
    file.put_chunk(&a, a.position, 6).unwrap();
    let a2 = sample_chunk(0, 0);
    let mut a2 = a2;
    a2.subchunks[0][0] = 900;
    file.put_chunk(&a2, a2.position, 7).unwrap();
    assert_eq!(file.get_chunk(a.position).unwrap(), a2);
    assert_eq!(file.get_chunk(b.position).unwrap(), b);
    assert_eq!(file.chunks_headers[0].timestamp, 7);
    assert_eq!(file.chunks_headers[1].timestamp, 5);
    let total: usize = file.chunks_headers.iter().map(|h| h.size as usize).sum();
    assert_eq!(total, file.chunks_data.len());
    let payload = file.to_payload();
    let back = LinearFile::from_payload(&payload).unwrap();
    assert_eq!(back.chunks_data, file.chunks_data);
    assert_eq!(back.chunks_headers, file.chunks_headers);
}

#[test]
fn short_payload_is_rejected() {
    assert_eq!(LinearFile::from_payload(&[0u8; 100]).err(), Some(ChunkReadingError::InvalidHeader));
    let mut p = vec![0u8; 8192];
    p[3] = 4;
    assert_eq!(LinearFile::from_payload(&p).err(), Some(ChunkReadingError::InvalidHeader));
    p.extend_from_slice(&[1, 2, 3, 4]);
    let f = LinearFile::from_payload(&p).unwrap();
    assert_eq!(f.chunks_headers[0].size, 4);
}

#[test]
fn corrupted_stream_is_a_zstd_error() {
    let mut file = LinearFile::new();
    file.put_chunk(&sample_chunk(2, 3), ChunkPos::new(2, 3), 9).unwrap();
    let mut bytes = file.save(1).unwrap();
    for b in bytes[32..40].iter_mut() {
        *b = 0;
    }
    assert_eq!(
        LinearFile::load(&bytes).err(),
        Some(ChunkReadingError::Compression(region_store::errors::CompressionError::ZstdError))
    );
}
