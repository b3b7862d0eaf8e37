use region_store::anvil::LoadedData;
use region_store::block_property::Unstable;
use region_store::cache::RegionCache;
use region_store::chunk::{ChunkData, ChunkHeightmaps, ChunkPos};
use region_store::command::{init_command_tree, ArgumentConsumer, CommandExecutor, CommandNode};
use region_store::compression::Compression;
use region_store::config::{AdvancedConfiguration, ChunkCompression};
use region_store::grouping::{group_by_region, region_key, RegionKey};
use region_store::region::{RegionFile, RegionFormat};

fn chunk(x: i32, z: i32) -> ChunkData {
    ChunkData {
        position: ChunkPos::new(x, z),
        subchunks: (0..24).map(|s| vec![(s + x.unsigned_abs() as usize) as u16; 4096]).collect(),
        heightmap: ChunkHeightmaps { motion_blocking: vec![3], world_surface: vec![4] },
    }
}

#[test]
fn grouping_by_region() {
    let ps = vec![ChunkPos::new(0, 0), ChunkPos::new(40, 0), ChunkPos::new(5, 5), ChunkPos::new(-1, 0)];
    let g = group_by_region(&ps);
    assert_eq!(g.keys, vec![RegionKey { x: 0, z: 0 }, RegionKey { x: 1, z: 0 }, RegionKey { x: -1, z: 0 }]);
    assert_eq!(g.group_of, vec![0, 1, 0, 2]);
    assert_eq!(g.members(0), vec![0, 2]);
    assert_eq!(region_key(ChunkPos::new(-33, 64)), RegionKey { x: -2, z: 2 });
}

#[test]
fn cache_evicts_released_regions() {
    let mut cache = RegionCache::new();
    let k = RegionKey { x: 1, z: -2 };
    let other = RegionKey { x: 0, z: 0 };
    assert!(cache.acquire(k));
    cache.mark_loaded(k);
    assert!(!cache.acquire(k));
    assert!(cache.acquire(other));
    cache.release(k);
    assert!(cache.sweep().is_empty());
    cache.release(k);
    assert!(!cache.is_quiescent());
    assert_eq!(cache.sweep(), vec![k]);
    assert!(cache.find(k).is_none());
    assert!(cache.find(other).is_some());
    cache.release(other);
    assert!(cache.is_quiescent());
    assert!(cache.sweep().is_empty());
    assert_eq!(cache.entries.len(), 1);
}

#[test]
fn absent_slot_yields_one_missing() {
    for format in [RegionFormat::Anvil, RegionFormat::Linear] {
        let region = RegionFile::empty(format);
        let results: Vec<LoadedData> = [ChunkPos::new(0, 0)].iter().map(|p| region.load_chunk(*p)).collect();
        assert_eq!(results.len(), 1);
        assert!(matches!(results[0], LoadedData::Missing(p) if p == ChunkPos::new(0, 0)));
    }
}

#[test]
fn region_round_trip_in_both_formats() {
    let config = ChunkCompression { algorithm: Compression::ZLib, level: 5 };
    for format in [RegionFormat::Anvil, RegionFormat::Linear] {
        let mut region = RegionFile::empty(format);
        let chunks: Vec<ChunkData> = (0..6).map(|i| chunk(i, 31 - i)).collect();
        region.apply_updates(&chunks, &config, 12).unwrap();
        let bytes = region.encode(&config).unwrap();
        let back = RegionFile::parse(format, &bytes).unwrap();
        for c in &chunks {
            match back.load_chunk(c.position) {
                LoadedData::Loaded(d) => assert_eq!(&d, c),
                _ => panic!("chunk not loaded"),
            }
        }
        assert!(matches!(back.load_chunk(ChunkPos::new(20, 0)), LoadedData::Missing(_)));
        assert!(RegionFile::parse(format, &bytes[..bytes.len() - 1]).is_err());
    }
}

#[test]
fn default_configuration() {
    let config = AdvancedConfiguration::default();
    assert_eq!(config.chunk.compression.algorithm, Compression::LZ4);
    assert_eq!(config.chunk.compression.level, 6);
    assert!(config.chunk.compression.validate());
    assert!(!ChunkCompression { algorithm: Compression::GZip, level: 11 }.validate());
    assert!(!ChunkCompression { algorithm: Compression::Custom, level: 1 }.validate());
    assert_eq!(ChunkCompression { algorithm: Compression::LZ4, level: 19 }.linear_level(), 19);
}

#[test]
fn unstable_toggles() {
    let p = Unstable(false);
    assert_eq!(p.on_interact("true"), "false");
    assert_eq!(p.on_interact("false"), "true");
    assert_eq!(p.on_interact("tru"), "true");
    assert_eq!(Unstable(true).value(), "true");
}

#[test]
fn gamemode_command_tree() {
    let tree = init_command_tree();
    assert_eq!(tree.names, vec!["gamemode".to_string()]);
    assert_eq!(tree.description, "Change a player's gamemode.");
    assert_eq!(tree.branches.len(), 2);
    assert!(matches!(&tree.branches[0].path[0], CommandNode::Argument(n, ArgumentConsumer::GameMode) if n == "gamemode"));
    assert!(matches!(tree.branches[0].path[1], CommandNode::RequirePlayer));
    assert_eq!(tree.branches[0].executor, CommandExecutor::GamemodeTargetSelf);
    assert!(matches!(&tree.branches[1].path[1], CommandNode::Argument(n, ArgumentConsumer::Players) if n == "target"));
    assert_eq!(tree.branches[1].executor, CommandExecutor::GamemodeTargetPlayer);
}
