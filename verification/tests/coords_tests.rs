use chunkworld::coords::{CellCoord, ChunkCoord, CHUNK_CELLS};

#[test]
fn negative_cells_map_to_negative_chunks() {
    let cell = CellCoord { x: -1, y: -1 };
    assert_eq!(cell.chunk(), ChunkCoord { x: -1, y: -1 });
    assert_eq!(cell.index_in_chunk(), 63);
    let cell = CellCoord { x: -8, y: -9 };
    assert_eq!(cell.chunk(), ChunkCoord { x: -1, y: -2 });
    assert_eq!(cell.index_in_chunk(), 7 * 8);
}

#[test]
fn positive_cells_use_floor_division() {
    let cell = CellCoord { x: 8, y: 0 };
    assert_eq!(cell.chunk(), ChunkCoord { x: 1, y: 0 });
    assert_eq!(cell.index_in_chunk(), 0);
    let cell = CellCoord { x: 13, y: 22 };
    assert_eq!(cell.chunk(), ChunkCoord { x: 1, y: 2 });
    assert_eq!(cell.index_in_chunk(), 6 * 8 + 5);
}

#[test]
fn cell_at_gives_global_cell() {
    let chunk = ChunkCoord { x: -1, y: 2 };
    assert_eq!(chunk.cell_at(0), CellCoord { x: -8, y: 16 });
    assert_eq!(chunk.cell_at(63), CellCoord { x: -1, y: 23 });
    assert_eq!(chunk.cell_at(9), CellCoord { x: -7, y: 17 });
}

#[test]
fn split_and_join_round_trip() {
    for x in -20..20 {
        for y in -20..20 {
            let cell = CellCoord { x, y };
            let idx = cell.index_in_chunk();
            assert!(idx < CHUNK_CELLS);
            assert_eq!(cell.chunk().cell_at(idx), cell);
        }
    }
    for idx in 0..CHUNK_CELLS {
        let chunk = ChunkCoord { x: -3, y: 5 };
        let cell = chunk.cell_at(idx);
        assert_eq!(cell.chunk(), chunk);
        assert_eq!(cell.index_in_chunk(), idx);
    }
}

#[test]
fn extreme_cells_split_without_overflow() {
    let cell = CellCoord { x: i32::MIN, y: i32::MAX };
    assert_eq!(cell.chunk(), ChunkCoord { x: i32::MIN / 8, y: i32::MAX / 8 });
    assert_eq!(cell.index_in_chunk(), 7 * 8);
    assert_eq!(cell.chunk().cell_at(cell.index_in_chunk()), cell);
}

#[test]
fn cell_at_beyond_the_chunk_follows_integer_division() {
    let chunk = ChunkCoord { x: 0, y: 0 };
    assert_eq!(chunk.cell_at(70), CellCoord { x: 6, y: 8 });
    assert_eq!(ChunkCoord { x: 2, y: -1 }.cell_at(130), CellCoord { x: 18, y: 8 });
}
