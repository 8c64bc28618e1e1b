use chunkworld::coords::{CellCoord, ChunkCoord};
use chunkworld::generation::{Block, Chance, Floor, OreConfig};
use chunkworld::world::{ChunkMap, MapConfig, TileKind, DEFAULT_RENDER_DISTANCE};

fn config(seed: u64) -> MapConfig {
    MapConfig::with_seed(seed)
}

fn sorted(mut v: Vec<ChunkCoord>) -> Vec<(i32, i32)> {
    let mut r: Vec<(i32, i32)> = v.drain(..).map(|c| (c.x, c.y)).collect();
    r.sort();
    r
}

#[test]
fn default_config_has_gold_then_iron() {
    let c = MapConfig::default();
    assert_eq!(c.render_distance, DEFAULT_RENDER_DISTANCE);
    assert_eq!(c.ores.len(), 2);
    assert_eq!(c.ores[0].block, Block::Gold);
    assert_eq!(c.ores[0].chunk_probability, Chance { numerator: 1, denominator: 4 });
    assert_eq!(c.ores[0].vein_sizes, vec![(3, 4), (4, 2), (5, 1)]);
    assert_eq!(c.ores[1].block, Block::Iron);
    assert_eq!(c.ores[1].chunk_probability, Chance { numerator: 3, denominator: 5 });
    assert_eq!(c.ores[1].vein_sizes, vec![(4, 3), (6, 2), (8, 1)]);
}

#[test]
fn generated_chunk_is_floor_under_rock_and_ore() {
    let map = ChunkMap::new();
    let cfg = config(11);
    let chunk = map.generate_chunk(ChunkCoord { x: 3, y: -2 }, &cfg);
    assert_eq!(chunk.floor, vec![Floor::Floor; 64]);
    assert!(chunk.block.iter().all(|b| *b == Block::Rock || *b == Block::Gold || *b == Block::Iron));
}

#[test]
fn generation_is_reproducible() {
    let map = ChunkMap::new();
    let cfg = config(99);
    for x in -2..3 {
        let c = ChunkCoord { x, y: 1 };
        assert_eq!(map.generate_chunk(c, &cfg).block, map.generate_chunk(c, &cfg).block);
    }
}

#[test]
fn carve_origin_clears_spawn_square() {
    let mut map = ChunkMap::new();
    map.carve_origin();
    let cfg = config(5);
    for x in -12..12 {
        for y in -12..12 {
            let cell = CellCoord { x, y };
            let chunk = map.generate_chunk(cell.chunk(), &cfg);
            let b = chunk.block[cell.index_in_chunk()];
            if x.abs() <= 4 && y.abs() <= 4 {
                assert_eq!(b, Block::Empty);
            } else {
                assert_ne!(b, Block::Empty);
            }
        }
    }
}

#[test]
fn broken_block_stays_broken() {
    let mut map = ChunkMap::new();
    let cfg = config(21);
    let cell = CellCoord { x: 17, y: -30 };
    map.insert_loaded(cell.chunk(), vec![10, 11, 12]);
    map.record_block_death(cell, 11);
    let chunk = map.generate_chunk(cell.chunk(), &cfg);
    assert_eq!(chunk.block[cell.index_in_chunk()], Block::Empty);
    let plan = map.begin_stream(ChunkCoord { x: 100, y: 100 }, 1).unwrap();
    assert_eq!(plan.unload.len(), 1);
    assert_eq!(plan.unload[0].0, cell.chunk());
    assert_eq!(plan.unload[0].1, vec![10, 12]);
}

#[test]
fn block_death_in_unloaded_chunk_only_edits() {
    let mut map = ChunkMap::new();
    map.record_block_death(CellCoord { x: 0, y: 0 }, 7);
    let plan = map.begin_stream(ChunkCoord { x: 0, y: 0 }, 1).unwrap();
    assert!(plan.unload.is_empty());
    assert_eq!(sorted(plan.load), vec![(0, 0)]);
}

#[test]
fn streaming_loads_square_and_unloads_outside() {
    let mut map = ChunkMap::new();
    let plan = map.begin_stream(ChunkCoord { x: 0, y: 0 }, 3).unwrap();
    assert!(plan.unload.is_empty());
    let load = plan.load.clone();
    assert_eq!(sorted(plan.load), {
        let mut v = vec![];
        for x in -1..=1 {
            for y in -1..=1 {
                v.push((x, y));
            }
        }
        v
    });
    for (i, c) in load.iter().enumerate() {
        map.insert_loaded(*c, vec![i as u64]);
    }
    assert!(map.begin_stream(ChunkCoord { x: 0, y: 0 }, 3).is_none());
    let plan = map.begin_stream(ChunkCoord { x: 1, y: 0 }, 3).unwrap();
    let mut gone: Vec<(i32, i32)> = plan.unload.iter().map(|(c, _)| (c.x, c.y)).collect();
    gone.sort();
    assert_eq!(gone, vec![(-1, -1), (-1, 0), (-1, 1)]);
    for (c, ents) in plan.unload.iter() {
        let i = load.iter().position(|d| d == c).unwrap();
        assert_eq!(ents, &vec![i as u64]);
    }
    assert_eq!(sorted(plan.load), vec![(2, -1), (2, 0), (2, 1)]);
}

#[test]
fn non_positive_render_distance() {
    let mut map = ChunkMap::new();
    let plan = map.begin_stream(ChunkCoord { x: 4, y: 4 }, 1).unwrap();
    assert_eq!(sorted(plan.load), vec![(4, 4)]);
    map.insert_loaded(ChunkCoord { x: 4, y: 4 }, vec![1]);
    let plan = map.begin_stream(ChunkCoord { x: 5, y: 4 }, -3).unwrap();
    assert!(plan.load.is_empty());
    assert_eq!(plan.unload.len(), 1);
}

#[test]
fn chunk_tiles_list_floor_then_block() {
    let mut map = ChunkMap::new();
    map.carve_origin();
    let cfg = config(3);
    let coord = ChunkCoord { x: 0, y: 0 };
    let tiles = map.load_chunk(coord, &cfg);
    assert_eq!(tiles[0].cell, CellCoord { x: 0, y: 0 });
    assert_eq!(tiles[0].kind, TileKind::Floor);
    let floors = tiles.iter().filter(|t| t.kind == TileKind::Floor).count();
    assert_eq!(floors, 64);
    // the 5 x 5 cleared corner of chunk (0, 0) has no block tiles
    assert_eq!(tiles.len(), 64 + 64 - 25);
    for t in &tiles {
        assert_eq!(t.cell.chunk(), coord);
    }
}

#[test]
fn custom_ore_config_is_used() {
    let map = ChunkMap::new();
    let cfg = MapConfig {
        seed: 1,
        render_distance: 3,
        ores: vec![OreConfig {
            block: Block::Gold,
            chunk_probability: Chance { numerator: 1, denominator: 1 },
            vein_sizes: vec![(2, 1)],
        }],
    };
    let chunk = map.generate_chunk(ChunkCoord { x: 9, y: 9 }, &cfg);
    assert_eq!(chunk.block.iter().filter(|b| **b == Block::Gold).count(), 2);
}

#[test]
fn with_seed_keeps_the_seed() {
    let c = MapConfig::with_seed(1234);
    assert_eq!(c.seed, 1234);
    assert_eq!(c.render_distance, DEFAULT_RENDER_DISTANCE);
    assert_eq!(c.ores.len(), 2);
}

#[test]
fn chunk_regenerates_identically_after_streaming_out_and_in() {
    let mut map = ChunkMap::new();
    let cfg = config(77);
    let coord = ChunkCoord { x: 1, y: 1 };
    let plan = map.begin_stream(ChunkCoord { x: 0, y: 0 }, 3).unwrap();
    for c in plan.load {
        map.insert_loaded(c, vec![]);
    }
    let first = map.load_chunk(coord, &cfg);
    map.record_block_death(CellCoord { x: -20, y: 3 }, 5);
    map.begin_stream(ChunkCoord { x: 10, y: 10 }, 3).unwrap();
    map.begin_stream(ChunkCoord { x: 0, y: 0 }, 3).unwrap();
    assert_eq!(map.load_chunk(coord, &cfg), first);
}

#[test]
fn config_validity_check() {
    assert!(MapConfig::with_seed(0).is_valid());
    let bad = MapConfig {
        seed: 0,
        render_distance: 3,
        ores: vec![OreConfig { block: Block::Gold, chunk_probability: Chance { numerator: 1, denominator: 2 }, vein_sizes: vec![] }],
    };
    assert!(!bad.is_valid());
    let never = OreConfig { block: Block::Gold, chunk_probability: Chance { numerator: 0, denominator: 2 }, vein_sizes: vec![] };
    assert!(never.is_valid());
    let overflow = OreConfig { block: Block::Iron, chunk_probability: Chance { numerator: 1, denominator: 1 }, vein_sizes: vec![(1, u32::MAX), (2, 1)] };
    assert!(!overflow.is_valid());
    let huge_unused = OreConfig { block: Block::Iron, chunk_probability: Chance { numerator: 1, denominator: 1 }, vein_sizes: vec![(usize::MAX, 0), (2, 1)] };
    assert!(huge_unused.is_valid());
    let huge_used = OreConfig { block: Block::Iron, chunk_probability: Chance { numerator: 1, denominator: 1 }, vein_sizes: vec![(usize::MAX, 1)] };
    assert!(!huge_used.is_valid());
    let bad_chance = OreConfig { block: Block::Iron, chunk_probability: Chance { numerator: 3, denominator: 2 }, vein_sizes: vec![(2, 1)] };
    assert!(!bad_chance.is_valid());
}

#[test]
fn same_chunk_needs_no_range() {
    let mut map = ChunkMap::new();
    let far = ChunkCoord { x: i32::MAX, y: i32::MAX };
    assert!(map.current_chunk().is_none());
    map.begin_stream(far, 1).unwrap();
    assert_eq!(map.current_chunk(), Some(far));
    assert!(map.begin_stream(far, i32::MAX).is_none());
}
