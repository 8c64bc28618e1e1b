use vstd::prelude::*;

verus! {

/// Cells per chunk edge.
pub const CHUNK_SIZE: i32 = 8;

/// Cells per chunk.
pub const CHUNK_CELLS: usize = 64;

/// Position of a chunk in the unbounded chunk grid (can be negative).
#[derive(Clone, Copy, Debug, PartialEq, Eq, Structural)]
pub struct ChunkCoord {
    pub x: i32,
    pub y: i32,
}

/// Global cell coordinate, one per tile (can be negative).
#[derive(Clone, Copy, Debug, PartialEq, Eq, Structural)]
pub struct CellCoord {
    pub x: i32,
    pub y: i32,
}

/// The chunk that holds a cell: floor division of each axis by the chunk size.
pub open spec fn chunk_of(cell: CellCoord) -> ChunkCoord {
    ChunkCoord { x: (cell.x as int / 8) as i32, y: (cell.y as int / 8) as i32 }
}

/// The flat row-major index of a cell inside its chunk.
pub open spec fn index_of(cell: CellCoord) -> int {
    (cell.y as int % 8) * 8 + (cell.x as int % 8)
}

/// The global cell at a flat index inside a chunk.
pub open spec fn cell_of(chunk: ChunkCoord, idx: int) -> CellCoord {
    CellCoord {
        x: (chunk.x as int * 8 + idx % 8) as i32,
        y: (chunk.y as int * 8 + idx / 8) as i32,
    }
}

/// The cells of a chunk all have representable coordinates.
pub open spec fn chunk_in_range(chunk: ChunkCoord) -> bool {
    &&& i32::MIN <= chunk.x as int * 8
    &&& chunk.x as int * 8 + 7 <= i32::MAX
    &&& i32::MIN <= chunk.y as int * 8
    &&& chunk.y as int * 8 + 7 <= i32::MAX
}

/// Euclidean quotient and remainder of an `i32` by the chunk size.
fn div_rem_chunk(v: i32) -> (r: (i32, i32))
    ensures
        r.0 == v as int / 8,
        r.1 == v as int % 8,
{
    let q = match v.checked_div_euclid(CHUNK_SIZE) {
        Some(q) => q,
        None => {
            assert(false);
            0
        },
    };
    let rem = match v.checked_rem_euclid(CHUNK_SIZE) {
        Some(m) => m,
        None => {
            assert(false);
            0
        },
    };
    (q, rem)
}

impl CellCoord {
    /// Which chunk this cell belongs to (floor division, so negative coordinates map correctly).
    pub fn chunk(self) -> (r: ChunkCoord)
        ensures
            r == chunk_of(self),
    {
        let (qx, _) = div_rem_chunk(self.x);
        let (qy, _) = div_rem_chunk(self.y);
        ChunkCoord { x: qx, y: qy }
    }

    /// Flat index of this cell within its chunk; negative coordinates land in `0..CHUNK_SIZE` per axis.
    pub fn index_in_chunk(self) -> (r: usize)
        ensures
            r == index_of(self),
            r < CHUNK_CELLS,
    {
        let (_, lx) = div_rem_chunk(self.x);
        let (_, ly) = div_rem_chunk(self.y);
        (ly * CHUNK_SIZE + lx) as usize
    }
}

/// Integer division by the chunk size, rounding toward zero.
pub open spec fn trunc_div8(i: int) -> int {
    if i >= 0 {
        i / 8
    } else {
        -((-i) / 8)
    }
}

/// The remainder that goes with [`trunc_div8`]; it has the sign of `i`.
pub open spec fn trunc_rem8(i: int) -> int {
    i - 8 * trunc_div8(i)
}

impl ChunkCoord {
    /// Global cell coordinate for a local flat index within this chunk.
    /// The index is read as an `i32` and split into column and row by
    /// integer division; for an index inside the chunk that is [`cell_of`].
    pub fn cell_at(self, idx: usize) -> (r: CellCoord)
        requires
            i32::MIN <= self.x as int * 8 <= i32::MAX,
            i32::MIN <= self.y as int * 8 <= i32::MAX,
            i32::MIN <= self.x as int * 8 + trunc_rem8(idx as i32 as int) <= i32::MAX,
            i32::MIN <= self.y as int * 8 + trunc_div8(idx as i32 as int) <= i32::MAX,
        ensures
            r.x == self.x as int * 8 + trunc_rem8(idx as i32 as int),
            r.y == self.y as int * 8 + trunc_div8(idx as i32 as int),
            idx < CHUNK_CELLS ==> r == cell_of(self, idx as int),
    {
        let i = idx as i32;
        let lx = i % CHUNK_SIZE;
        let ly = i / CHUNK_SIZE;
        CellCoord { x: self.x * CHUNK_SIZE + lx, y: self.y * CHUNK_SIZE + ly }
    }
}

/// Splitting a cell into (chunk, index) and joining them again gives back the cell.
pub proof fn lemma_cell_roundtrip(cell: CellCoord)
    ensures
        0 <= index_of(cell) < 64,
        chunk_in_range(chunk_of(cell)),
        cell_of(chunk_of(cell), index_of(cell)) == cell,
{
}

/// Joining a chunk and an in-chunk index into a cell and splitting it again gives back both.
pub proof fn lemma_chunk_index_roundtrip(chunk: ChunkCoord, idx: int)
    requires
        0 <= idx < 64,
        chunk_in_range(chunk),
    ensures
        chunk_of(cell_of(chunk, idx)) == chunk,
        index_of(cell_of(chunk, idx)) == idx,
{
}

/// A cell splits into chunk `c` and index `i` exactly when `c` and `i` name
/// that cell's coordinates.
pub proof fn lemma_split_iff(cell: CellCoord, c: ChunkCoord, i: int)
    requires
        0 <= i < 64,
    ensures
        (chunk_of(cell) == c && index_of(cell) == i) <==> (c.x as int * 8 + i % 8 == cell.x && c.y as int
            * 8 + i / 8 == cell.y),
{
}

} // verus!
