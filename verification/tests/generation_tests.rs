use chunkworld::coords::ChunkCoord;
use chunkworld::generation::{
    apply_overlay, chunk_rng, chunk_seed, generate_base, generate_ores, place_vein, Block, Chance,
    Chunk, Floor, OreConfig,
};
use std::collections::HashMap;

fn rock_chunk() -> Chunk {
    let mut chunk = Chunk::new();
    generate_base(&mut chunk);
    chunk
}

fn count(chunk: &Chunk, b: Block) -> usize {
    chunk.block.iter().filter(|x| **x == b).count()
}

#[test]
fn defaults_are_empty() {
    assert_eq!(Floor::default(), Floor::Empty);
    assert_eq!(Block::default(), Block::Empty);
    let chunk = Chunk::new();
    assert_eq!(chunk.floor.len(), 64);
    assert!(chunk.block.iter().all(|b| *b == Block::Empty));
}

#[test]
fn base_is_floor_under_rock() {
    let chunk = rock_chunk();
    assert_eq!(chunk.floor, vec![Floor::Floor; 64]);
    assert_eq!(chunk.block, vec![Block::Rock; 64]);
}

#[test]
fn chunk_seed_known_values() {
    assert_eq!(chunk_seed(0, ChunkCoord { x: 0, y: 0 }), 0);
    assert_eq!(chunk_seed(1, ChunkCoord { x: 0, y: 0 }), 5878998237028904013);
    assert_eq!(chunk_seed(42, ChunkCoord { x: -1, y: 2 }), 2894731288495469093);
    assert_eq!(chunk_seed(42, ChunkCoord { x: 2, y: -1 }), 9479261399090670062);
}

#[test]
fn overlay_replaces_edited_cells() {
    let mut chunk = rock_chunk();
    let mut edits = HashMap::new();
    edits.insert(0usize, Block::Empty);
    edits.insert(63usize, Block::Gold);
    apply_overlay(&mut chunk, Some(&edits));
    assert_eq!(chunk.block[0], Block::Empty);
    assert_eq!(chunk.block[63], Block::Gold);
    assert_eq!(count(&chunk, Block::Rock), 62);
    let mut untouched = rock_chunk();
    apply_overlay(&mut untouched, None);
    assert_eq!(untouched.block, vec![Block::Rock; 64]);
}

#[test]
fn vein_of_size_zero_changes_nothing() {
    let mut chunk = rock_chunk();
    let mut rng = chunk_rng(7, ChunkCoord { x: 0, y: 0 });
    place_vein(&mut chunk, &mut rng, Block::Gold, 0, 3, 3);
    assert_eq!(chunk.block, vec![Block::Rock; 64]);
}

#[test]
fn vein_converts_rock_up_to_its_size() {
    for seed in 0..50u64 {
        let mut chunk = rock_chunk();
        let mut rng = chunk_rng(seed, ChunkCoord { x: 1, y: -1 });
        place_vein(&mut chunk, &mut rng, Block::Iron, 5, 0, 7);
        let iron = count(&chunk, Block::Iron);
        assert!(iron >= 1 && iron <= 5);
        assert_eq!(iron + count(&chunk, Block::Rock), 64);
        assert_eq!(chunk.block[7 * 8], Block::Iron);
    }
}

#[test]
fn vein_leaves_non_rock_alone() {
    let mut chunk = Chunk::new();
    let mut rng = chunk_rng(3, ChunkCoord { x: 0, y: 0 });
    place_vein(&mut chunk, &mut rng, Block::Gold, 4, 4, 4);
    assert!(chunk.block.iter().all(|b| *b == Block::Empty));
}

fn ore(block: Block, numerator: u32, denominator: u32, sizes: Vec<(usize, u32)>) -> OreConfig {
    OreConfig { block, chunk_probability: Chance { numerator, denominator }, vein_sizes: sizes }
}

#[test]
fn zero_chance_ore_never_spawns() {
    let ores = vec![ore(Block::Gold, 0, 4, vec![(5, 1)])];
    for seed in 0..20u64 {
        let mut chunk = rock_chunk();
        let mut rng = chunk_rng(seed, ChunkCoord { x: 0, y: 0 });
        generate_ores(&mut chunk, &mut rng, &ores);
        assert_eq!(chunk.block, vec![Block::Rock; 64]);
    }
}

#[test]
fn zero_weight_sizes_are_never_picked() {
    let ores = vec![ore(Block::Gold, 1, 1, vec![(64, 0), (1, 5), (32, 0)])];
    for seed in 0..20u64 {
        let mut chunk = rock_chunk();
        let mut rng = chunk_rng(seed, ChunkCoord { x: 2, y: 2 });
        generate_ores(&mut chunk, &mut rng, &ores);
        assert_eq!(count(&chunk, Block::Gold), 1);
    }
}

#[test]
fn earlier_ores_keep_their_cells() {
    for seed in 0..30u64 {
        let mut gold_only = rock_chunk();
        let mut rng = chunk_rng(seed, ChunkCoord { x: 0, y: 0 });
        let first = vec![ore(Block::Gold, 1, 1, vec![(6, 1)])];
        generate_ores(&mut gold_only, &mut rng, &first);

        let mut both = rock_chunk();
        let mut rng = chunk_rng(seed, ChunkCoord { x: 0, y: 0 });
        let ores = vec![ore(Block::Gold, 1, 1, vec![(6, 1)]), ore(Block::Iron, 1, 1, vec![(20, 1)])];
        generate_ores(&mut both, &mut rng, &ores);

        for i in 0..64 {
            if gold_only.block[i] == Block::Gold {
                assert_eq!(both.block[i], Block::Gold);
            } else {
                assert!(both.block[i] == Block::Rock || both.block[i] == Block::Iron);
            }
        }
        assert!(count(&both, Block::Iron) >= 1);
    }
}

#[test]
fn same_seed_same_ores() {
    let ores = vec![ore(Block::Gold, 1, 4, vec![(3, 4), (4, 2), (5, 1)]), ore(Block::Iron, 3, 5, vec![(4, 3), (6, 2), (8, 1)])];
    for seed in 0..10u64 {
        let mut a = rock_chunk();
        let mut b = rock_chunk();
        let mut ra = chunk_rng(seed, ChunkCoord { x: -4, y: 9 });
        let mut rb = chunk_rng(seed, ChunkCoord { x: -4, y: 9 });
        generate_ores(&mut a, &mut ra, &ores);
        generate_ores(&mut b, &mut rb, &ores);
        assert_eq!(a.block, b.block);
    }
}

#[test]
fn distinct_world_seeds_give_distinct_chunk_seeds() {
    let c = ChunkCoord { x: -3, y: 7 };
    assert_ne!(chunk_seed(1, c), chunk_seed(2, c));
    assert_ne!(chunk_seed(5, ChunkCoord { x: 0, y: 1 }), chunk_seed(5, ChunkCoord { x: 0, y: 2 }));
    assert_ne!(chunk_seed(5, ChunkCoord { x: 1, y: 0 }), chunk_seed(5, ChunkCoord { x: 2, y: 0 }));
    let _ = chunk_seed(u64::MAX, ChunkCoord { x: i32::MIN, y: i32::MAX });
}
