//! The streaming world: which chunks are loaded (with the tile entities they
//! spawned), the persistent edit overlay, and the chunk the player was last in.
use crate::coords::{
    cell_of, chunk_in_range, chunk_of, index_of, CellCoord, ChunkCoord, CHUNK_CELLS,
};
use crate::generation::{
    apply_overlay, chunk_rng, edits_in_chunk, generate_base, generate_ores, ores_outcome,
    overlaid, size_weights, Block, Chance, Chunk, Floor, OreConfig, ores_result, chunk_seed_of,
};
use crate::rng::{rng_from_seed, weight_sum};
use crate::rng::random_seed;
use std::collections::HashMap;
use vstd::prelude::*;
use vstd::std_specs::iter::IteratorSpec;

verus! {

broadcast use vstd::std_specs::hash::group_hash_axioms;

/// Diameter, in chunks, of the loaded square by default.
pub const DEFAULT_RENDER_DISTANCE: i32 = 3;

/// Half-extent, in cells, of the square cleared around the spawn origin.
pub const CARVE_RADIUS: i32 = 4;

/// Offset that maps an `i32` onto `0..2^32`.
pub open spec fn offset32(v: i32) -> int {
    v as int + 0x8000_0000
}

/// The map key of a chunk: its two coordinates, each shifted onto
/// `0..2^32`, side by side. Every `u64` is the key of exactly one chunk.
pub open spec fn key_of(c: ChunkCoord) -> u64 {
    (offset32(c.x) * 0x1_0000_0000 + offset32(c.y)) as u64
}

/// The chunk whose key is `k`.
pub open spec fn coord_of_key(k: u64) -> ChunkCoord {
    ChunkCoord {
        x: (k as int / 0x1_0000_0000 - 0x8000_0000) as i32,
        y: (k as int % 0x1_0000_0000 - 0x8000_0000) as i32,
    }
}

proof fn lemma_key_roundtrip(c: ChunkCoord)
    ensures
        coord_of_key(key_of(c)) == c,
{
    let a = offset32(c.x);
    let b = offset32(c.y);
    let k = a * 0x1_0000_0000 + b;
    assert(0 <= k < 0x1_0000_0000_0000_0000);
    assert(k / 0x1_0000_0000 == a && k % 0x1_0000_0000 == b) by (nonlinear_arith)
        requires
            k == a * 0x1_0000_0000 + b,
            0 <= b < 0x1_0000_0000,
            0 <= a,
    ;
}

proof fn lemma_coord_roundtrip(k: u64)
    ensures
        key_of(coord_of_key(k)) == k,
{
    let a = k as int / 0x1_0000_0000;
    let b = k as int % 0x1_0000_0000;
    assert(k as int == a * 0x1_0000_0000 + b && 0 <= a < 0x1_0000_0000 && 0 <= b < 0x1_0000_0000)
        by (nonlinear_arith)
        requires
            0 <= k < 0x1_0000_0000_0000_0000,
            a == k / 0x1_0000_0000,
            b == k % 0x1_0000_0000,
    ;
}

proof fn lemma_key_injective(c: ChunkCoord, d: ChunkCoord)
    ensures
        key_of(c) == key_of(d) <==> c == d,
{
    lemma_key_roundtrip(c);
    lemma_key_roundtrip(d);
}

fn chunk_key(c: ChunkCoord) -> (k: u64)
    ensures
        k == key_of(c),
{
    let a = (c.x as i64 + 0x8000_0000) as u64;
    let b = (c.y as i64 + 0x8000_0000) as u64;
    proof {
        assert(a * 0x1_0000_0000 + b < 0x1_0000_0000_0000_0000) by (nonlinear_arith)
            requires
                a < 0x1_0000_0000,
                b < 0x1_0000_0000,
        ;
    }
    a * 0x1_0000_0000 + b
}

fn key_coord(k: u64) -> (c: ChunkCoord)
    ensures
        c == coord_of_key(k),
{
    let hi = (k / 0x1_0000_0000) as i64;
    let lo = (k % 0x1_0000_0000) as i64;
    ChunkCoord { x: (hi - 0x8000_0000) as i32, y: (lo - 0x8000_0000) as i32 }
}

/// The abstract state of a [`ChunkMap`].
pub struct ChunkMapView {
    /// Loaded chunks and the tile entities each one spawned.
    pub loaded: Map<ChunkCoord, Seq<u64>>,
    /// Player edits: chunk, then in-chunk index, to the overriding block.
    pub edits: Map<ChunkCoord, Map<usize, Block>>,
    /// The chunk the player occupied at the last streaming pass.
    pub current_chunk: Option<ChunkCoord>,
}

/// The streaming world. Chunk-keyed maps are keyed by [`key_of`].
pub struct ChunkMap {
    loaded: HashMap<u64, Vec<u64>>,
    edits: HashMap<u64, HashMap<usize, Block>>,
    current_chunk: Option<ChunkCoord>,
}

impl Default for ChunkMap {
    /// An empty world, as [`ChunkMap::new`].
    fn default() -> (r: Self)
        ensures
            r.wf(),
            r@.loaded == Map::<ChunkCoord, Seq<u64>>::empty(),
            r@.edits == Map::<ChunkCoord, Map<usize, Block>>::empty(),
            r@.current_chunk is None,
    {
        ChunkMap::new()
    }
}

impl View for ChunkMap {
    type V = ChunkMapView;

    closed spec fn view(&self) -> ChunkMapView {
        ChunkMapView {
            loaded: Map::new(
                |c: ChunkCoord| self.loaded@.contains_key(key_of(c)),
                |c: ChunkCoord| self.loaded@[key_of(c)]@,
            ),
            edits: Map::new(
                |c: ChunkCoord| self.edits@.contains_key(key_of(c)),
                |c: ChunkCoord| self.edits@[key_of(c)]@,
            ),
            current_chunk: self.current_chunk,
        }
    }
}

/// The edit recorded for index `i` of chunk `c`, if any.
pub open spec fn edit_at(edits: Map<ChunkCoord, Map<usize, Block>>, c: ChunkCoord, i: usize) -> Option<
    Block,
> {
    if edits.contains_key(c) && edits[c].contains_key(i) {
        Some(edits[c][i])
    } else {
        None
    }
}

/// The edits of chunk `c` (none when it has no entry).
pub open spec fn chunk_edits(edits: Map<ChunkCoord, Map<usize, Block>>, c: ChunkCoord) -> Map<
    usize,
    Block,
> {
    if edits.contains_key(c) {
        edits[c]
    } else {
        Map::empty()
    }
}

/// The edits after recording `block` for `cell`.
pub open spec fn with_edit(edits: Map<ChunkCoord, Map<usize, Block>>, cell: CellCoord, block: Block) -> Map<
    ChunkCoord,
    Map<usize, Block>,
> {
    let c = chunk_of(cell);
    edits.insert(c, chunk_edits(edits, c).insert(index_of(cell) as usize, block))
}

/// Reading back an edit: recording `block` for `cell` sets exactly that
/// cell's entry and leaves every other entry as it was.
pub proof fn lemma_edit_at_with_edit(
    edits: Map<ChunkCoord, Map<usize, Block>>,
    cell: CellCoord,
    block: Block,
    c: ChunkCoord,
    i: usize,
)
    ensures
        edit_at(with_edit(edits, cell, block), c, i) == if c == chunk_of(cell) && i == index_of(cell) as usize {
            Some(block)
        } else {
            edit_at(edits, c, i)
        },
{
}

impl ChunkMapView {
    /// Every recorded edit lies inside its chunk.
    pub open spec fn wf(self) -> bool {
        forall|c: ChunkCoord| #[trigger] self.edits.contains_key(c) ==> edits_in_chunk(self.edits[c])
    }
}

/// Half of the render distance, rounded toward zero as integer division does.
pub open spec fn half_extent(render_distance: i32) -> int {
    if render_distance >= 0 {
        render_distance as int / 2
    } else {
        -((-(render_distance as int)) / 2)
    }
}

fn halve(v: i32) -> (r: i32)
    ensures
        r == half_extent(v),
{
    v / 2
}

/// An odd render distance `N` makes the loaded square exactly `N` chunks wide,
/// centred on the player's chunk.
pub proof fn lemma_odd_render_distance_width(render_distance: i32)
    requires
        render_distance > 0,
        render_distance % 2 == 1,
    ensures
        2 * half_extent(render_distance) + 1 == render_distance,
{
}

/// Chunk `c` lies in the square of half-extent `half` around `center`.
pub open spec fn in_square(c: ChunkCoord, center: ChunkCoord, half: int) -> bool {
    &&& center.x - half <= c.x <= center.x + half
    &&& center.y - half <= c.y <= center.y + half
}

/// The chunks of the loaded square around `center`.
pub open spec fn square_set(center: ChunkCoord, render_distance: i32) -> Set<ChunkCoord> {
    Set::new(|c: ChunkCoord| in_square(c, center, half_extent(render_distance)))
}

/// Every chunk of the square around `center` has representable coordinates.
pub open spec fn square_in_range(center: ChunkCoord, render_distance: i32) -> bool {
    let h = half_extent(render_distance);
    h >= 0 ==> {
        &&& i32::MIN <= center.x - h
        &&& center.x + h <= i32::MAX
        &&& i32::MIN <= center.y - h
        &&& center.y + h <= i32::MAX
    }
}

fn in_square_exec(c: ChunkCoord, center: ChunkCoord, half: i32) -> (r: bool)
    ensures
        r == in_square(c, center, half as int),
{
    let dx = c.x as i64 - center.x as i64;
    let dy = c.y as i64 - center.y as i64;
    -(half as i64) <= dx && dx <= half as i64 && -(half as i64) <= dy && dy <= half as i64
}

/// World generation settings. The seed makes the whole world reproducible;
/// ores are placed in list order, so earlier ores win cells over later ones.
pub struct MapConfig {
    pub seed: u64,
    /// Diameter, in chunks, of the loaded square; odd keeps the player's chunk centred.
    pub render_distance: i32,
    pub ores: Vec<OreConfig>,
}

impl MapConfig {
    /// Every ore's rules are valid.
    pub open spec fn valid(&self) -> bool {
        forall|j: int| 0 <= j < self.ores@.len() ==> #[trigger] self.ores@[j].valid()
    }
}

/// The default ore list: gold (a 1 in 4 chance per chunk, veins of 3, 4 or 5
/// cells weighted 4:2:1) before iron (3 in 5, veins of 4, 6 or 8 weighted 3:2:1).
pub open spec fn is_default_ores(ores: Seq<OreConfig>) -> bool {
    &&& ores.len() == 2
    &&& ores[0].block == Block::Gold
    &&& ores[0].chunk_probability == (Chance { numerator: 1, denominator: 4 })
    &&& ores[0].vein_sizes@ == seq![(3usize, 4u32), (4usize, 2u32), (5usize, 1u32)]
    &&& ores[1].block == Block::Iron
    &&& ores[1].chunk_probability == (Chance { numerator: 3, denominator: 5 })
    &&& ores[1].vein_sizes@ == seq![(4usize, 3u32), (6usize, 2u32), (8usize, 1u32)]
}

fn vein_table(a: (usize, u32), b: (usize, u32), c: (usize, u32)) -> (r: Vec<(usize, u32)>)
    ensures
        r@ == seq![a, b, c],
{
    let mut r: Vec<(usize, u32)> = Vec::new();
    r.push(a);
    r.push(b);
    r.push(c);
    r
}

impl MapConfig {
    /// Whether every ore's rules are valid.
    pub fn is_valid(&self) -> (r: bool)
        ensures
            r == self.valid(),
    {
        for j in 0..self.ores.len()
            invariant
                forall|i: int| 0 <= i < j ==> #[trigger] self.ores@[i].valid(),
        {
            if !self.ores[j].is_valid() {
                return false;
            }
        }
        true
    }

    /// The default render distance and ores with the given world seed.
    pub fn with_seed(seed: u64) -> (r: Self)
        ensures
            r.seed == seed,
            r.render_distance == DEFAULT_RENDER_DISTANCE,
            is_default_ores(r.ores@),
            r.valid(),
    {
        let mut ores: Vec<OreConfig> = Vec::new();
        ores.push(
            OreConfig {
                block: Block::Gold,
                chunk_probability: Chance { numerator: 1, denominator: 4 },
                vein_sizes: vein_table((3, 4), (4, 2), (5, 1)),
            },
        );
        ores.push(
            OreConfig {
                block: Block::Iron,
                chunk_probability: Chance { numerator: 3, denominator: 5 },
                vein_sizes: vein_table((4, 3), (6, 2), (8, 1)),
            },
        );
        let r = MapConfig { seed, render_distance: DEFAULT_RENDER_DISTANCE, ores };
        proof {
            assert(size_weights(r.ores@[0].vein_sizes@) =~= seq![4u32, 2u32, 1u32]);
            assert(size_weights(r.ores@[1].vein_sizes@) =~= seq![3u32, 2u32, 1u32]);
            reveal_with_fuel(weight_sum, 4);
            assert(weight_sum(seq![4u32, 2u32, 1u32]) == 7);
            assert(weight_sum(seq![3u32, 2u32, 1u32]) == 6);
            assert(r.ores@[0].valid());
            assert(r.ores@[1].valid());
        }
        r
    }
}

impl Default for MapConfig {
    /// A fresh random world seed, the default render distance and the default ores.
    fn default() -> (r: Self)
        ensures
            r.render_distance == DEFAULT_RENDER_DISTANCE,
            is_default_ores(r.ores@),
            r.valid(),
    {
        MapConfig::with_seed(random_seed())
    }
}

/// What a tile entity of a chunk shows.
#[derive(Clone, Copy, Debug, PartialEq, Eq, Structural)]
pub enum TileKind {
    Floor,
    Rock,
    Iron,
    Gold,
}

/// One tile entity to spawn: its cell and what it shows.
#[derive(Clone, Copy, Debug, PartialEq, Eq, Structural)]
pub struct TileSpawn {
    pub cell: CellCoord,
    pub kind: TileKind,
}

/// The tiles of one cell: a floor tile where there is floor, then a tile for
/// the block on top, if any.
pub open spec fn cell_tiles(cell: CellCoord, floor: Floor, block: Block) -> Seq<TileSpawn> {
    let floor_tiles = if floor == Floor::Floor {
        seq![TileSpawn { cell, kind: TileKind::Floor }]
    } else {
        Seq::empty()
    };
    let block_tiles = match block {
        Block::Rock => seq![TileSpawn { cell, kind: TileKind::Rock }],
        Block::Iron => seq![TileSpawn { cell, kind: TileKind::Iron }],
        Block::Gold => seq![TileSpawn { cell, kind: TileKind::Gold }],
        Block::Empty => Seq::empty(),
    };
    floor_tiles + block_tiles
}

/// The tiles of the first `n` cells of a chunk, cell by cell.
pub open spec fn tiles_of(coord: ChunkCoord, floors: Seq<Floor>, blocks: Seq<Block>, n: nat) -> Seq<TileSpawn>
    decreases n,
{
    if n == 0 {
        Seq::empty()
    } else {
        let i = (n - 1) as nat;
        tiles_of(coord, floors, blocks, i) + cell_tiles(cell_of(coord, i as int), floors[i as int], blocks[i as int])
    }
}

/// A block layer of solid rock.
pub open spec fn rock_layer() -> Seq<Block> {
    Seq::new(64, |i: int| Block::Rock)
}

/// A floor layer that is floor everywhere.
pub open spec fn floor_layer() -> Seq<Floor> {
    Seq::new(64, |i: int| Floor::Floor)
}

/// `blocks` is a block layer the chunk at `coord` can be generated with:
/// rock with the ores' veins, under the chunk's edits.
pub open spec fn is_generated(
    edits: Map<ChunkCoord, Map<usize, Block>>,
    coord: ChunkCoord,
    ores: Seq<OreConfig>,
    blocks: Seq<Block>,
) -> bool {
    exists|veined: Seq<Block>|
        #[trigger] ores_outcome(rock_layer(), veined, ores) && blocks == overlaid(
            veined,
            chunk_edits(edits, coord),
        )
}

/// The block layer of the chunk at `coord`: rock with the ores' veins, drawn
/// from the chunk's own generator (seeded from the world seed and the chunk's
/// coordinates), under the chunk's edits.
pub open spec fn chunk_blocks(
    edits: Map<ChunkCoord, Map<usize, Block>>,
    coord: ChunkCoord,
    seed: u64,
    ores: Seq<OreConfig>,
) -> Seq<Block> {
    overlaid(
        ores_result(rock_layer(), rng_from_seed(chunk_seed_of(seed, coord)), ores).0,
        chunk_edits(edits, coord),
    )
}

/// Each chunk draws its ores from its own generator, seeded with the chunk
/// seed of its own coordinates; two chunks of one column, or of one row, are
/// therefore driven by generators built from different seeds.
pub proof fn lemma_chunks_seeded_apart(
    edits: Map<ChunkCoord, Map<usize, Block>>,
    c1: ChunkCoord,
    c2: ChunkCoord,
    seed: u64,
    ores: Seq<OreConfig>,
)
    requires
        c1 != c2,
        c1.x == c2.x || c1.y == c2.y,
    ensures
        chunk_blocks(edits, c1, seed, ores) == overlaid(
            ores_result(rock_layer(), rng_from_seed(chunk_seed_of(seed, c1)), ores).0,
            chunk_edits(edits, c1),
        ),
        chunk_blocks(edits, c2, seed, ores) == overlaid(
            ores_result(rock_layer(), rng_from_seed(chunk_seed_of(seed, c2)), ores).0,
            chunk_edits(edits, c2),
        ),
        chunk_seed_of(seed, c1) != chunk_seed_of(seed, c2),
{
    if c1.x == c2.x {
        crate::generation::lemma_chunk_seed_injective_in_y(seed, c1, c2);
    } else {
        crate::generation::lemma_chunk_seed_injective_in_x(seed, c1, c2);
    }
}

/// A chunk is regenerated identically each time it streams in: its blocks
/// depend on the world seed, the ore rules and that chunk's own edits only,
/// so any two worlds that agree on those give the chunk the same blocks.
pub proof fn lemma_regenerated_identically(
    edits_a: Map<ChunkCoord, Map<usize, Block>>,
    edits_b: Map<ChunkCoord, Map<usize, Block>>,
    coord: ChunkCoord,
    seed: u64,
    ores: Seq<OreConfig>,
)
    requires
        chunk_edits(edits_a, coord) == chunk_edits(edits_b, coord),
    ensures
        chunk_blocks(edits_a, coord, seed, ores) == chunk_blocks(edits_b, coord, seed, ores),
{
}

/// A chunk spawns the same tiles each time it streams in: with equal seed,
/// ores and edits of that chunk, the tile lists are equal (the render
/// distance and the edits of other chunks play no part).
pub proof fn lemma_tiles_regenerated_identically(
    edits_a: Map<ChunkCoord, Map<usize, Block>>,
    edits_b: Map<ChunkCoord, Map<usize, Block>>,
    coord: ChunkCoord,
    seed: u64,
    ores: Seq<OreConfig>,
)
    requires
        chunk_edits(edits_a, coord) == chunk_edits(edits_b, coord),
    ensures
        tiles_of(coord, floor_layer(), chunk_blocks(edits_a, coord, seed, ores), 64) == tiles_of(
            coord,
            floor_layer(),
            chunk_blocks(edits_b, coord, seed, ores),
            64,
        ),
{
    lemma_regenerated_identically(edits_a, edits_b, coord, seed, ores);
}

proof fn lemma_tiles_of_contains(coord: ChunkCoord, floors: Seq<Floor>, blocks: Seq<Block>, n: nat, t: TileSpawn)
    ensures
        tiles_of(coord, floors, blocks, n).contains(t) <==> exists|i: int|
            0 <= i < n && #[trigger] cell_tiles(cell_of(coord, i), floors[i], blocks[i]).contains(t),
    decreases n,
{
    if n == 0 {
        assert(tiles_of(coord, floors, blocks, n) =~= Seq::<TileSpawn>::empty());
    } else {
        let m = (n - 1) as nat;
        lemma_tiles_of_contains(coord, floors, blocks, m, t);
        let a = tiles_of(coord, floors, blocks, m);
        let b = cell_tiles(cell_of(coord, m as int), floors[m as int], blocks[m as int]);
        let ab = tiles_of(coord, floors, blocks, n);
        assert(ab == a + b);
        if ab.contains(t) {
            let j = choose|j: int| 0 <= j < ab.len() && ab[j] == t;
            if j < a.len() {
                assert(a[j] == t);
                assert(a.contains(t));
            } else {
                assert(b[j - a.len()] == t);
                assert(b.contains(t));
                assert(cell_tiles(cell_of(coord, m as int), floors[m as int], blocks[m as int]).contains(t));
            }
        }
        if exists|i: int| 0 <= i < n && #[trigger] cell_tiles(cell_of(coord, i), floors[i], blocks[i]).contains(t) {
            let i = choose|i: int| 0 <= i < n && #[trigger] cell_tiles(cell_of(coord, i), floors[i], blocks[i]).contains(t);
            if i < m {
                let j = choose|j: int| 0 <= j < a.len() && a[j] == t;
                assert(ab[j] == t);
            } else {
                let j = choose|j: int| 0 <= j < b.len() && b[j] == t;
                assert(ab[a.len() + j] == t);
            }
        }
    }
}

/// Each cell of a chunk spawns a floor tile exactly when it has floor, and a
/// block tile of the kind that names its block: rock as rock, iron as iron,
/// gold as gold, and no block tile for an empty cell.
pub proof fn lemma_chunk_tile_kinds(coord: ChunkCoord, floors: Seq<Floor>, blocks: Seq<Block>, idx: int)
    requires
        floors.len() == 64,
        blocks.len() == 64,
        chunk_in_range(coord),
        0 <= idx < 64,
    ensures
        tiles_of(coord, floors, blocks, 64).contains(TileSpawn { cell: cell_of(coord, idx), kind: TileKind::Floor })
            <==> floors[idx] == Floor::Floor,
        tiles_of(coord, floors, blocks, 64).contains(TileSpawn { cell: cell_of(coord, idx), kind: TileKind::Rock })
            <==> blocks[idx] == Block::Rock,
        tiles_of(coord, floors, blocks, 64).contains(TileSpawn { cell: cell_of(coord, idx), kind: TileKind::Iron })
            <==> blocks[idx] == Block::Iron,
        tiles_of(coord, floors, blocks, 64).contains(TileSpawn { cell: cell_of(coord, idx), kind: TileKind::Gold })
            <==> blocks[idx] == Block::Gold,
{
    let cell = cell_of(coord, idx);
    crate::coords::lemma_chunk_index_roundtrip(coord, idx);
    assert forall|i: int, k: TileKind|
        0 <= i < 64 && #[trigger] cell_tiles(cell_of(coord, i), floors[i], blocks[i]).contains(
            TileSpawn { cell, kind: k },
        ) implies i == idx by {
        let ct = cell_tiles(cell_of(coord, i), floors[i], blocks[i]);
        let j = choose|j: int| 0 <= j < ct.len() && ct[j] == TileSpawn { cell, kind: k };
        assert(ct[j].cell == cell_of(coord, i));
        crate::coords::lemma_chunk_index_roundtrip(coord, i);
    }
    let own = cell_tiles(cell, floors[idx], blocks[idx]);
    let kinds = seq![TileKind::Floor, TileKind::Rock, TileKind::Iron, TileKind::Gold];
    assert forall|q: int| 0 <= q < 4 implies (tiles_of(coord, floors, blocks, 64).contains(
        TileSpawn { cell, kind: #[trigger] kinds[q] },
    ) <==> own.contains(TileSpawn { cell, kind: kinds[q] })) by {
        lemma_tiles_of_contains(coord, floors, blocks, 64, TileSpawn { cell, kind: kinds[q] });
    }
    assert(kinds[0] == TileKind::Floor && kinds[1] == TileKind::Rock && kinds[2] == TileKind::Iron
        && kinds[3] == TileKind::Gold);
    if floors[idx] == Floor::Floor {
        assert(own[0] == TileSpawn { cell, kind: TileKind::Floor });
    }
    match blocks[idx] {
        Block::Rock => {
            assert(own[own.len() - 1] == TileSpawn { cell, kind: TileKind::Rock });
        },
        Block::Iron => {
            assert(own[own.len() - 1] == TileSpawn { cell, kind: TileKind::Iron });
        },
        Block::Gold => {
            assert(own[own.len() - 1] == TileSpawn { cell, kind: TileKind::Gold });
        },
        Block::Empty => {},
    }
}

/// The tiles a chunk spawns, cell by cell in row-major order.
pub fn chunk_tiles(coord: ChunkCoord, chunk: &Chunk) -> (r: Vec<TileSpawn>)
    requires
        chunk.wf(),
        chunk_in_range(coord),
    ensures
        r@ == tiles_of(coord, chunk.floor@, chunk.block@, 64),
        forall|idx: int|
            0 <= idx < 64 ==> {
                let cell = #[trigger] cell_of(coord, idx);
                &&& r@.contains(TileSpawn { cell, kind: TileKind::Floor }) <==> chunk.floor@[idx] == Floor::Floor
                &&& r@.contains(TileSpawn { cell, kind: TileKind::Rock }) <==> chunk.block@[idx] == Block::Rock
                &&& r@.contains(TileSpawn { cell, kind: TileKind::Iron }) <==> chunk.block@[idx] == Block::Iron
                &&& r@.contains(TileSpawn { cell, kind: TileKind::Gold }) <==> chunk.block@[idx] == Block::Gold
            },
{
    let mut r: Vec<TileSpawn> = Vec::new();
    for idx in 0..CHUNK_CELLS
        invariant
            chunk.wf(),
            chunk_in_range(coord),
            r@ == tiles_of(coord, chunk.floor@, chunk.block@, idx as nat),
    {
        let cell = coord.cell_at(idx);
        let ghost prev = r@;
        if chunk.floor[idx] == Floor::Floor {
            r.push(TileSpawn { cell, kind: TileKind::Floor });
        }
        match chunk.block[idx] {
            Block::Rock => r.push(TileSpawn { cell, kind: TileKind::Rock }),
            Block::Iron => r.push(TileSpawn { cell, kind: TileKind::Iron }),
            Block::Gold => r.push(TileSpawn { cell, kind: TileKind::Gold }),
            Block::Empty => {},
        }
        assert(r@ =~= prev + cell_tiles(cell, chunk.floor@[idx as int], chunk.block@[idx as int]));
    }
    proof {
        assert forall|idx: int| 0 <= idx < 64 implies {
            let cell = #[trigger] cell_of(coord, idx);
            &&& r@.contains(TileSpawn { cell, kind: TileKind::Floor }) <==> chunk.floor@[idx] == Floor::Floor
            &&& r@.contains(TileSpawn { cell, kind: TileKind::Rock }) <==> chunk.block@[idx] == Block::Rock
            &&& r@.contains(TileSpawn { cell, kind: TileKind::Iron }) <==> chunk.block@[idx] == Block::Iron
            &&& r@.contains(TileSpawn { cell, kind: TileKind::Gold }) <==> chunk.block@[idx] == Block::Gold
        } by {
            lemma_chunk_tile_kinds(coord, chunk.floor@, chunk.block@, idx);
        }
    }
    r
}

/// An edit always wins: a generated chunk shows at an edited cell exactly the
/// edit recorded there.
pub proof fn lemma_edit_wins(
    edits: Map<ChunkCoord, Map<usize, Block>>,
    coord: ChunkCoord,
    ores: Seq<OreConfig>,
    blocks: Seq<Block>,
    i: usize,
    b: Block,
)
    requires
        is_generated(edits, coord, ores, blocks),
        i < 64,
        edit_at(edits, coord, i) == Some(b),
    ensures
        blocks[i as int] == b,
{
    let veined = choose|veined: Seq<Block>|
        #[trigger] ores_outcome(rock_layer(), veined, ores) && blocks == overlaid(
            veined,
            chunk_edits(edits, coord),
        );
    crate::generation::lemma_ores_convert_only_rock(rock_layer(), veined, ores);
    assert((i as int) as usize == i);
}

/// Without an edit, a generated cell holds rock or the block of one of the ores.
pub proof fn lemma_unedited_cell(
    edits: Map<ChunkCoord, Map<usize, Block>>,
    coord: ChunkCoord,
    ores: Seq<OreConfig>,
    blocks: Seq<Block>,
    i: usize,
)
    requires
        is_generated(edits, coord, ores, blocks),
        i < 64,
        edit_at(edits, coord, i) is None,
    ensures
        blocks.len() == 64,
        blocks[i as int] == Block::Rock || exists|j: int| 0 <= j < ores.len() && blocks[i as int] == ores[j].block,
{
    let veined = choose|veined: Seq<Block>|
        #[trigger] ores_outcome(rock_layer(), veined, ores) && blocks == overlaid(
            veined,
            chunk_edits(edits, coord),
        );
    crate::generation::lemma_ores_convert_only_rock(rock_layer(), veined, ores);
    assert((i as int) as usize == i);
}

/// A broken block stays broken: once a block's death is recorded, its chunk,
/// whenever it is generated again, has no block at that cell.
pub proof fn lemma_broken_block_stays_broken(
    edits: Map<ChunkCoord, Map<usize, Block>>,
    cell: CellCoord,
    ores: Seq<OreConfig>,
    blocks: Seq<Block>,
)
    requires
        is_generated(with_edit(edits, cell, Block::Empty), chunk_of(cell), ores, blocks),
    ensures
        blocks[index_of(cell)] == Block::Empty,
{
    crate::coords::lemma_cell_roundtrip(cell);
    lemma_edit_at_with_edit(edits, cell, Block::Empty, chunk_of(cell), index_of(cell) as usize);
    lemma_edit_wins(
        with_edit(edits, cell, Block::Empty),
        chunk_of(cell),
        ores,
        blocks,
        index_of(cell) as usize,
        Block::Empty,
    );
}

/// The spawn clearing holds: after the origin is carved, every generated
/// chunk is free of blocks in the square around the origin.
pub proof fn lemma_origin_stays_clear(
    edits: Map<ChunkCoord, Map<usize, Block>>,
    coord: ChunkCoord,
    ores: Seq<OreConfig>,
    blocks: Seq<Block>,
    i: usize,
)
    requires
        forall|c: ChunkCoord, j: usize| in_origin_clearing(c, j) ==> #[trigger] edit_at(edits, c, j) == Some(
            Block::Empty,
        ),
        is_generated(edits, coord, ores, blocks),
        in_origin_clearing(coord, i),
    ensures
        blocks[i as int] == Block::Empty,
{
    assert(edit_at(edits, coord, i) == Some(Block::Empty));
    lemma_edit_wins(edits, coord, ores, blocks, i, Block::Empty);
}

/// The loaded set after loading each chunk of `coords` with its entities.
pub open spec fn load_all(loaded: Map<ChunkCoord, Seq<u64>>, coords: Seq<ChunkCoord>, entities: Seq<Seq<u64>>) -> Map<
    ChunkCoord,
    Seq<u64>,
>
    decreases coords.len(),
{
    if coords.len() == 0 {
        loaded
    } else {
        load_all(loaded, coords.drop_last(), entities.drop_last()).insert(coords.last(), entities.last())
    }
}

proof fn lemma_load_all(loaded: Map<ChunkCoord, Seq<u64>>, coords: Seq<ChunkCoord>, entities: Seq<Seq<u64>>)
    requires
        coords.len() == entities.len(),
    ensures
        load_all(loaded, coords, entities).dom() == loaded.dom().union(coords.to_set()),
        forall|c: ChunkCoord|
            loaded.contains_key(c) && !coords.contains(c) ==> #[trigger] load_all(loaded, coords, entities)[c]
                == loaded[c],
    decreases coords.len(),
{
    if coords.len() > 0 {
        lemma_load_all(loaded, coords.drop_last(), entities.drop_last());
        assert(coords.to_set() =~= coords.drop_last().to_set().insert(coords.last())) by {
            assert forall|c: ChunkCoord| coords.contains(c) <==> #[trigger] coords.drop_last().contains(c) || c
                == coords.last() by {
                if coords.contains(c) && c != coords.last() {
                    let j = choose|j: int| 0 <= j < coords.len() && coords[j] == c;
                    assert(coords.drop_last()[j] == c);
                }
                if coords.drop_last().contains(c) {
                    let j = choose|j: int| 0 <= j < coords.drop_last().len() && coords.drop_last()[j] == c;
                    assert(coords[j] == c);
                }
                if c == coords.last() {
                    assert(coords[coords.len() - 1] == c);
                }
            }
        }
        assert forall|c: ChunkCoord| loaded.contains_key(c) && !coords.contains(c) implies #[trigger] load_all(
            loaded,
            coords,
            entities,
        )[c] == loaded[c] by {
            if coords.drop_last().contains(c) {
                let j = choose|j: int| 0 <= j < coords.drop_last().len() && coords.drop_last()[j] == c;
                assert(coords[j] == c);
            }
            assert(c != coords.last()) by {
                if c == coords.last() {
                    assert(coords[coords.len() - 1] == c);
                }
            }
        }
    }
}

/// Streaming keeps the square around the player loaded: after a pass that
/// moved to a new chunk, once every chunk it asked for is loaded, the loaded
/// chunks are exactly the square, and the chunks that stayed loaded keep their
/// entities.
pub proof fn lemma_stream_covers_square(
    before: Map<ChunkCoord, Seq<u64>>,
    square: Set<ChunkCoord>,
    load: Seq<ChunkCoord>,
    entities: Seq<Seq<u64>>,
)
    requires
        load.to_set() == square.difference(before.dom()),
        load.len() == entities.len(),
    ensures
        load_all(before.restrict(square), load, entities).dom() == square,
        forall|c: ChunkCoord|
            before.contains_key(c) && square.contains(c) ==> #[trigger] load_all(before.restrict(square), load, entities)[c]
                == before[c],
{
    lemma_load_all(before.restrict(square), load, entities);
    assert(load_all(before.restrict(square), load, entities).dom() =~= square);
    assert forall|c: ChunkCoord| before.contains_key(c) && square.contains(c) implies #[trigger] load_all(
        before.restrict(square),
        load,
        entities,
    )[c] == before[c] by {
        assert(!load.to_set().contains(c));
    }
}

/// The entities of `entities` other than `entity`, in order.
pub open spec fn without(entities: Seq<u64>, entity: u64) -> Seq<u64> {
    entities.filter(|e: u64| e != entity)
}

proof fn lemma_without_push(s: Seq<u64>, e: u64, entity: u64)
    ensures
        without(s.push(e), entity) == if e != entity {
            without(s, entity).push(e)
        } else {
            without(s, entity)
        },
{
    reveal(Seq::filter);
    assert(s.push(e).drop_last() =~= s);
}

/// A dead block's entity is dropped from its chunk's list, and every other
/// entity of the list stays.
pub proof fn lemma_dead_entity_dropped(entities: Seq<u64>, entity: u64)
    ensures
        !without(entities, entity).contains(entity),
        forall|e: u64| #[trigger] entities.contains(e) && e != entity ==> without(entities, entity).contains(e),
{
    broadcast use vstd::seq_lib::group_filter_ensures;

    let kept = without(entities, entity);
    if kept.contains(entity) {
        let i = choose|i: int| 0 <= i < kept.len() && kept[i] == entity;
        assert((|e: u64| e != entity)(kept[i]));
    }
    assert forall|e: u64| #[trigger] entities.contains(e) && e != entity implies kept.contains(e) by {
        let i = choose|i: int| 0 <= i < entities.len() && entities[i] == e;
        assert((|x: u64| x != entity)(entities[i]));
    }
}

fn without_entity(entities: &Vec<u64>, entity: u64) -> (r: Vec<u64>)
    ensures
        r@ == without(entities@, entity),
{
    let mut r: Vec<u64> = Vec::new();
    for i in 0..entities.len()
        invariant
            r@ == without(entities@.take(i as int), entity),
    {
        proof {
            assert(entities@.take(i + 1) =~= entities@.take(i as int).push(entities@[i as int]));
            lemma_without_push(entities@.take(i as int), entities@[i as int], entity);
        }
        if entities[i] != entity {
            r.push(entities[i]);
        }
    }
    proof {
        assert(entities@.take(entities@.len() as int) =~= entities@);
    }
    r
}

/// Chunk `c` of the square around `center` comes before row `dy`, column `dx`
/// (offsets from the center) in row-major order.
spec fn square_before(c: ChunkCoord, center: ChunkCoord, dy: int, dx: int) -> bool {
    let ox = c.x - center.x;
    let oy = c.y - center.y;
    oy < dy || (oy == dy && ox < dx)
}

/// What a streaming pass hands back: the chunks that left the square, with the
/// tile entities to despawn, and the chunks of the square still to be loaded.
pub struct StreamPlan {
    pub unload: Vec<(ChunkCoord, Vec<u64>)>,
    pub load: Vec<ChunkCoord>,
}

/// The chunk of each unload entry.
pub open spec fn unload_coords(unload: Seq<(ChunkCoord, Vec<u64>)>) -> Seq<ChunkCoord> {
    unload.map_values(|p: (ChunkCoord, Vec<u64>)| p.0)
}

/// Index `i` of chunk `c` lies in the square cleared around the spawn origin.
pub open spec fn in_origin_clearing(c: ChunkCoord, i: usize) -> bool {
    &&& i < 64
    &&& -4 <= c.x as int * 8 + i as int % 8 <= 4
    &&& -4 <= c.y as int * 8 + i as int / 8 <= 4
}

/// Index `i` of chunk `c` is in the clearing and comes before row `dy`,
/// column `dx` in row-major order.
spec fn carved_before(c: ChunkCoord, i: usize, dy: int, dx: int) -> bool {
    let gx = c.x as int * 8 + i as int % 8;
    let gy = c.y as int * 8 + i as int / 8;
    &&& in_origin_clearing(c, i)
    &&& (gy < dy || (gy == dy && gx < dx))
}

impl ChunkMap {
    /// Every recorded edit lies inside its chunk.
    pub open spec fn wf(&self) -> bool {
        self@.wf()
    }

    /// An empty world: nothing loaded, no edits, no current chunk.
    pub fn new() -> (r: ChunkMap)
        ensures
            r.wf(),
            r@.loaded == Map::<ChunkCoord, Seq<u64>>::empty(),
            r@.edits == Map::<ChunkCoord, Map<usize, Block>>::empty(),
            r@.current_chunk is None,
    {
        let r = ChunkMap { loaded: HashMap::new(), edits: HashMap::new(), current_chunk: None };
        assert(r@.loaded =~= Map::<ChunkCoord, Seq<u64>>::empty());
        assert(r@.edits =~= Map::<ChunkCoord, Map<usize, Block>>::empty());
        r
    }

    /// Clear the square of blocks around the spawn origin, so the player is not
    /// buried. It is written into the edit overlay, so it holds across reloads.
    pub fn carve_origin(&mut self)
        requires
            old(self).wf(),
        ensures
            final(self).wf(),
            final(self)@.loaded == old(self)@.loaded,
            final(self)@.current_chunk == old(self)@.current_chunk,
            forall|c: ChunkCoord|
                #[trigger] final(self)@.edits.contains_key(c) <==> (old(self)@.edits.contains_key(c)
                    || exists|i: usize| in_origin_clearing(c, i)),
            forall|c: ChunkCoord, i: usize|
                #[trigger] edit_at(final(self)@.edits, c, i) == if in_origin_clearing(c, i) {
                    Some(Block::Empty)
                } else {
                    edit_at(old(self)@.edits, c, i)
                },
    {
        let mut dy: i32 = -CARVE_RADIUS;
        while dy <= CARVE_RADIUS
            invariant
                -CARVE_RADIUS <= dy <= CARVE_RADIUS + 1,
                self.wf(),
                self@.loaded == old(self)@.loaded,
                self@.current_chunk == old(self)@.current_chunk,
                forall|c: ChunkCoord|
                    #[trigger] self@.edits.contains_key(c) <==> (old(self)@.edits.contains_key(c)
                        || exists|i: usize| #![trigger in_origin_clearing(c, i)] carved_before(c, i, dy as int, -4)),
                forall|c: ChunkCoord, i: usize|
                    #[trigger] edit_at(self@.edits, c, i) == if carved_before(c, i, dy as int, -4) {
                        Some(Block::Empty)
                    } else {
                        edit_at(old(self)@.edits, c, i)
                    },
            decreases CARVE_RADIUS + 1 - dy,
        {
            let mut dx: i32 = -CARVE_RADIUS;
            while dx <= CARVE_RADIUS
                invariant
                    -CARVE_RADIUS <= dy <= CARVE_RADIUS,
                    -CARVE_RADIUS <= dx <= CARVE_RADIUS + 1,
                    self.wf(),
                    self@.loaded == old(self)@.loaded,
                    self@.current_chunk == old(self)@.current_chunk,
                    forall|c: ChunkCoord|
                        #[trigger] self@.edits.contains_key(c) <==> (old(self)@.edits.contains_key(c)
                            || exists|i: usize| #![trigger in_origin_clearing(c, i)] carved_before(c, i, dy as int, dx as int)),
                    forall|c: ChunkCoord, i: usize|
                        #[trigger] edit_at(self@.edits, c, i) == if carved_before(c, i, dy as int, dx as int) {
                            Some(Block::Empty)
                        } else {
                            edit_at(old(self)@.edits, c, i)
                        },
                decreases CARVE_RADIUS + 1 - dx,
            {
                let cell = CellCoord { x: dx, y: dy };
                let ghost before = self@.edits;
                self.record_edit(cell, Block::Empty);
                proof {
                    let nx: int = dx + 1;
                    let cc = chunk_of(cell);
                    let ci = index_of(cell) as usize;
                    crate::coords::lemma_cell_roundtrip(cell);
                    assert forall|c: ChunkCoord, i: usize|
                        #[trigger] edit_at(self@.edits, c, i) == if carved_before(c, i, dy as int, nx) {
                            Some(Block::Empty)
                        } else {
                            edit_at(old(self)@.edits, c, i)
                        } by {
                        lemma_edit_at_with_edit(before, cell, Block::Empty, c, i);
                        if i < 64 {
                            crate::coords::lemma_split_iff(cell, c, i as int);
                        }
                    }
                    assert forall|c: ChunkCoord|
                        #[trigger] self@.edits.contains_key(c) <==> (old(self)@.edits.contains_key(c)
                            || exists|i: usize| #![trigger in_origin_clearing(c, i)] carved_before(c, i, dy as int, nx)) by {
                        if c == cc {
                            crate::coords::lemma_split_iff(cell, c, ci as int);
                            assert(carved_before(c, ci, dy as int, nx));
                        } else if exists|i: usize| #![trigger in_origin_clearing(c, i)] carved_before(c, i, dy as int, nx) {
                            let i = choose|i: usize| #![trigger in_origin_clearing(c, i)] carved_before(c, i, dy as int, nx);
                            crate::coords::lemma_split_iff(cell, c, i as int);
                            assert(carved_before(c, i, dy as int, dx as int));
                        }
                    }
                }
                dx += 1;
            }
            proof {
                let ny: int = dy + 1;
                assert forall|c: ChunkCoord, i: usize|
                    #[trigger] in_origin_clearing(c, i) ==> (carved_before(c, i, dy as int, 5) <==> carved_before(c, i, ny, -4)) by {}
            }
            dy += 1;
        }
        proof {
            assert forall|c: ChunkCoord, i: usize|
                #[trigger] in_origin_clearing(c, i) <==> carved_before(c, i, 5, -4) by {}
        }
    }

    /// The keys of the loaded chunks, each once.
    fn loaded_keys(&self) -> (r: Vec<u64>)
        ensures
            r@.to_set() == self.loaded@.dom(),
            r@.no_duplicates(),
    {
        let mut r: Vec<u64> = Vec::new();
        let ghost ks = vstd::std_specs::hash::spec_keys_iter(&self.loaded).remaining();
        for k in it: self.loaded.keys()
            invariant
                it.seq() == ks,
                r@.len() == it.index(),
                r@ == ks.take(r@.len() as int).unref(),
        {
            proof {
                assert(ks.take(r@.len() as int + 1).unref() =~= r@.push(*k));
            }
            r.push(*k);
        }
        proof {
            assert(ks.take(r@.len() as int) =~= ks);
        }
        r
    }

    /// The loaded chunks, each once.
    fn loaded_coords(&self) -> (r: Vec<ChunkCoord>)
        ensures
            r@.to_set() == self@.loaded.dom(),
            r@.no_duplicates(),
    {
        let keys = self.loaded_keys();
        let mut r: Vec<ChunkCoord> = Vec::new();
        for i in 0..keys.len()
            invariant
                r@ == keys@.take(i as int).map_values(|k: u64| coord_of_key(k)),
        {
            r.push(key_coord(keys[i]));
            assert(r@ =~= keys@.take(i + 1).map_values(|k: u64| coord_of_key(k)));
        }
        proof {
            assert(keys@.take(keys@.len() as int) =~= keys@);
            assert forall|c: ChunkCoord| r@.to_set().contains(c) <==> #[trigger] self@.loaded.dom().contains(c) by {
                lemma_key_roundtrip(c);
                if r@.contains(c) {
                    let j = choose|j: int| 0 <= j < r@.len() && r@[j] == c;
                    lemma_coord_roundtrip(keys@[j]);
                    assert(keys@.to_set().contains(keys@[j]));
                }
                if self@.loaded.dom().contains(c) {
                    assert(keys@.to_set().contains(key_of(c)));
                    let j = choose|j: int| 0 <= j < keys@.len() && keys@[j] == key_of(c);
                    assert(r@[j] == c);
                }
            }
            assert(r@.to_set() =~= self@.loaded.dom());
            assert forall|a: int, b: int| 0 <= a < r@.len() && 0 <= b < r@.len() && a != b implies r@[a] != r@[b] by {
                lemma_coord_roundtrip(keys@[a]);
                lemma_coord_roundtrip(keys@[b]);
            }
        }
        r
    }

    /// The chunk the player occupied at the last streaming pass, if any.
    pub fn current_chunk(&self) -> (r: Option<ChunkCoord>)
        ensures
            r == self@.current_chunk,
    {
        self.current_chunk
    }

    /// Whether chunk `c` is loaded.
    fn is_loaded(&self, c: ChunkCoord) -> (r: bool)
        ensures
            r == self@.loaded.contains_key(c),
    {
        self.loaded.contains_key(&chunk_key(c))
    }

    /// Take chunk `c` out of the loaded set, with its entities.
    fn take_loaded(&mut self, c: ChunkCoord) -> (r: Option<Vec<u64>>)
        ensures
            final(self)@.loaded == old(self)@.loaded.remove(c),
            final(self)@.edits == old(self)@.edits,
            final(self)@.current_chunk == old(self)@.current_chunk,
            match r {
                Some(v) => old(self)@.loaded.contains_key(c) && v@ == old(self)@.loaded[c],
                None => !old(self)@.loaded.contains_key(c),
            },
    {
        let r = self.loaded.remove(&chunk_key(c));
        proof {
            assert forall|d: ChunkCoord| #[trigger] self@.loaded.contains_key(d) <==> old(self)@.loaded.remove(c).contains_key(d) by {
                lemma_key_injective(c, d);
            }
            assert forall|d: ChunkCoord| #[trigger] self@.loaded.contains_key(d) implies self@.loaded[d] == old(self)@.loaded.remove(c)[d] by {
                lemma_key_injective(c, d);
            }
            assert(self@.loaded =~= old(self)@.loaded.remove(c));
            assert(self@.edits =~= old(self)@.edits);
        }
        r
    }

    /// Record that chunk `coord` is loaded with the given tile entities.
    pub fn insert_loaded(&mut self, coord: ChunkCoord, entities: Vec<u64>)
        requires
            old(self).wf(),
        ensures
            final(self).wf(),
            final(self)@.loaded == old(self)@.loaded.insert(coord, entities@),
            final(self)@.edits == old(self)@.edits,
            final(self)@.current_chunk == old(self)@.current_chunk,
    {
        let ghost ev = entities@;
        self.loaded.insert(chunk_key(coord), entities);
        proof {
            assert forall|d: ChunkCoord| #[trigger] self@.loaded.contains_key(d) <==> old(self)@.loaded.insert(coord, ev).contains_key(d) by {
                lemma_key_injective(coord, d);
            }
            assert forall|d: ChunkCoord| #[trigger] self@.loaded.contains_key(d) implies self@.loaded[d] == old(self)@.loaded.insert(coord, ev)[d] by {
                lemma_key_injective(coord, d);
            }
            assert(self@.loaded =~= old(self)@.loaded.insert(coord, ev));
            assert(self@.edits =~= old(self)@.edits);
        }
    }

    /// Take every loaded chunk outside the square out of the loaded set.
    fn unload_outside(&mut self, center: ChunkCoord, half: i32) -> (r: Vec<(ChunkCoord, Vec<u64>)>)
        requires
            old(self).wf(),
        ensures
            final(self).wf(),
            final(self)@.loaded == old(self)@.loaded.restrict(Set::new(|c: ChunkCoord| in_square(c, center, half as int))),
            final(self)@.edits == old(self)@.edits,
            final(self)@.current_chunk == old(self)@.current_chunk,
            unload_coords(r@).no_duplicates(),
            unload_coords(r@).to_set() == Set::new(
                |c: ChunkCoord| old(self)@.loaded.contains_key(c) && !in_square(c, center, half as int),
            ),
            forall|k: int| 0 <= k < r@.len() ==> (#[trigger] r@[k]).1@ == old(self)@.loaded[r@[k].0],
    {
        let coords = self.loaded_coords();
        let ghost start = self@.loaded;
        let mut unload: Vec<(ChunkCoord, Vec<u64>)> = Vec::new();
        for i in 0..coords.len()
            invariant
                self.wf(),
                start == old(self)@.loaded,
                coords@.to_set() == start.dom(),
                coords@.no_duplicates(),
                self@.edits == old(self)@.edits,
                self@.current_chunk == old(self)@.current_chunk,
                self@.loaded == start.remove_keys(
                    Set::new(|c: ChunkCoord| coords@.take(i as int).contains(c) && !in_square(c, center, half as int)),
                ),
                unload_coords(unload@).no_duplicates(),
                forall|c: ChunkCoord| #[trigger] unload_coords(unload@).contains(c) <==> (coords@.take(i as int).contains(c)
                    && !in_square(c, center, half as int)),
                forall|k: int| 0 <= k < unload@.len() ==> (#[trigger] unload@[k]).1@ == start[unload@[k].0],
        {
            let c = coords[i];
            let ghost prev = unload@;
            proof {
                assert(coords@.take(i + 1) =~= coords@.take(i as int).push(c));
                let pre = coords@.take(i as int);
                let post = coords@.take(i + 1);
                assert forall|d: ChunkCoord| #[trigger] post.contains(d) <==> (pre.contains(d) || d == c) by {
                    if post.contains(d) && d != c {
                        let j = choose|j: int| 0 <= j < post.len() && post[j] == d;
                        assert(pre[j] == d);
                    }
                    if pre.contains(d) {
                        let j = choose|j: int| 0 <= j < pre.len() && pre[j] == d;
                        assert(post[j] == d);
                    }
                    if d == c {
                        assert(post[i as int] == d);
                    }
                }
                assert(!coords@.take(i as int).contains(c)) by {
                    if coords@.take(i as int).contains(c) {
                        let j = choose|j: int| 0 <= j < i && coords@.take(i as int)[j] == c;
                        assert(coords@[j] == coords@[i as int]);
                    }
                }
                assert(coords@.to_set().contains(c));
            }
            if !in_square_exec(c, center, half) {
                match self.take_loaded(c) {
                    Some(ents) => {
                        unload.push((c, ents));
                    },
                    None => {
                        assert(false);
                    },
                }
                proof {
                    let pu = unload_coords(prev);
                    let nu = unload_coords(unload@);
                    assert(nu =~= pu.push(c));
                    assert(!pu.contains(c));
                    assert forall|a: int, b: int| 0 <= a < nu.len() && 0 <= b < nu.len() && a != b implies nu[a] != nu[b] by {
                        if a == pu.len() {
                            assert(pu.contains(nu[b]));
                        } else if b == pu.len() {
                            assert(pu.contains(nu[a]));
                        }
                    }
                }
            } else {
                assert(unload@ == prev);
            }
            proof {
                let nset = Set::new(|d: ChunkCoord| coords@.take(i + 1).contains(d) && !in_square(d, center, half as int));
                assert(self@.loaded =~= start.remove_keys(nset));
                assert forall|d: ChunkCoord| #[trigger] unload_coords(unload@).contains(d) <==> (coords@.take(i + 1).contains(d)
                    && !in_square(d, center, half as int)) by {
                    let pu = unload_coords(prev);
                    let nu = unload_coords(unload@);
                    if !in_square(c, center, half as int) {
                        assert(nu == pu.push(c));
                        if nu.contains(d) && d != c {
                            let k = choose|k: int| 0 <= k < nu.len() && nu[k] == d;
                            assert(pu[k] == d);
                        }
                        if pu.contains(d) {
                            let k = choose|k: int| 0 <= k < pu.len() && pu[k] == d;
                            assert(nu[k] == d);
                        }
                        if d == c {
                            assert(nu[pu.len() as int] == d);
                        }
                    } else {
                        assert(nu == pu);
                    }
                }
            }
        }
        proof {
            assert(coords@.take(coords@.len() as int) =~= coords@);
            assert(self@.loaded =~= start.restrict(Set::new(|c: ChunkCoord| in_square(c, center, half as int))));
            assert(unload_coords(unload@).to_set() =~= Set::new(
                |c: ChunkCoord| old(self)@.loaded.contains_key(c) && !in_square(c, center, half as int),
            ));
        }
        unload
    }

    /// The chunks of the square around `center` that are not loaded, each once.
    fn missing_in_square(&self, center: ChunkCoord, half: i32) -> (r: Vec<ChunkCoord>)
        requires
            half < i32::MAX,
            half >= 0 ==> {
                &&& i32::MIN <= center.x - half
                &&& center.x + half <= i32::MAX
                &&& i32::MIN <= center.y - half
                &&& center.y + half <= i32::MAX
            },
        ensures
            r@.no_duplicates(),
            forall|c: ChunkCoord|
                #[trigger] r@.contains(c) <==> (in_square(c, center, half as int) && !self@.loaded.contains_key(c)),
    {
        let mut r: Vec<ChunkCoord> = Vec::new();
        if half < 0 {
            return r;
        }
        let mut dy: i32 = -half;
        while dy <= half
            invariant
                0 <= half < i32::MAX,
                -half <= dy <= half + 1,
                i32::MIN <= center.x - half,
                center.x + half <= i32::MAX,
                i32::MIN <= center.y - half,
                center.y + half <= i32::MAX,
                r@.no_duplicates(),
                forall|c: ChunkCoord|
                    #[trigger] r@.contains(c) <==> (in_square(c, center, half as int) && !self@.loaded.contains_key(c)
                        && square_before(c, center, dy as int, -half as int)),
            decreases half + 1 - dy,
        {
            let mut dx: i32 = -half;
            while dx <= half
                invariant
                    0 <= half < i32::MAX,
                    -half <= dy <= half,
                    -half <= dx <= half + 1,
                    i32::MIN <= center.x - half,
                    center.x + half <= i32::MAX,
                    i32::MIN <= center.y - half,
                    center.y + half <= i32::MAX,
                    r@.no_duplicates(),
                    forall|c: ChunkCoord|
                        #[trigger] r@.contains(c) <==> (in_square(c, center, half as int) && !self@.loaded.contains_key(c)
                            && square_before(c, center, dy as int, dx as int)),
                decreases half + 1 - dx,
            {
                let c = ChunkCoord { x: center.x + dx, y: center.y + dy };
                let ghost prev = r@;
                if !self.is_loaded(c) {
                    r.push(c);
                    proof {
                        assert(!prev.contains(c));
                        assert forall|a: int, b: int| 0 <= a < r@.len() && 0 <= b < r@.len() && a != b implies r@[a]
                            != r@[b] by {
                            if a == prev.len() {
                                assert(prev.contains(r@[b]));
                            } else if b == prev.len() {
                                assert(prev.contains(r@[a]));
                            }
                        }
                    }
                }
                proof {
                    let ndx: int = dx + 1;
                    assert forall|d: ChunkCoord| #[trigger] r@.contains(d) <==> (in_square(d, center, half as int)
                        && !self@.loaded.contains_key(d) && square_before(d, center, dy as int, ndx)) by {
                        if r@.contains(d) && d != c {
                            let k = choose|k: int| 0 <= k < r@.len() && r@[k] == d;
                            assert(prev[k] == d);
                        }
                        if prev.contains(d) {
                            let k = choose|k: int| 0 <= k < prev.len() && prev[k] == d;
                            assert(r@[k] == d);
                        }
                        if d == c && !self@.loaded.contains_key(c) {
                            assert(r@[prev.len() as int] == d);
                        }
                    }
                }
                dx += 1;
            }
            proof {
                let ndy: int = dy + 1;
                assert forall|d: ChunkCoord| #[trigger] r@.contains(d) <==> (in_square(d, center, half as int)
                    && !self@.loaded.contains_key(d) && square_before(d, center, ndy, -half as int)) by {}
            }
            dy += 1;
        }
        r
    }

    /// Start a streaming pass for the player standing in `player_chunk`. When
    /// the player is still in the chunk of the last pass nothing changes and
    /// `None` comes back. Otherwise that chunk is recorded, every loaded chunk
    /// outside the square of half-extent `render_distance / 2` is dropped from
    /// the loaded set (handed back with its entities to despawn), and the
    /// chunks of the square that are not loaded are handed back to load.
    /// Edits are kept.
    pub fn begin_stream(&mut self, player_chunk: ChunkCoord, render_distance: i32) -> (r: Option<StreamPlan>)
        requires
            old(self).wf(),
            old(self)@.current_chunk != Some(player_chunk) ==> square_in_range(player_chunk, render_distance),
        ensures
            final(self).wf(),
            old(self)@.current_chunk == Some(player_chunk) ==> r is None && final(self)@ == old(self)@,
            old(self)@.current_chunk != Some(player_chunk) ==> (r matches Some(plan) && {
                let square = square_set(player_chunk, render_distance);
                &&& final(self)@.current_chunk == Some(player_chunk)
                &&& final(self)@.edits == old(self)@.edits
                &&& final(self)@.loaded == old(self)@.loaded.restrict(square)
                &&& unload_coords(plan.unload@).no_duplicates()
                &&& unload_coords(plan.unload@).to_set() == old(self)@.loaded.dom().difference(square)
                &&& forall|k: int|
                    0 <= k < plan.unload@.len() ==> (#[trigger] plan.unload@[k]).1@ == old(self)@.loaded[plan.unload@[k].0]
                &&& plan.load@.no_duplicates()
                &&& plan.load@.to_set() == square.difference(old(self)@.loaded.dom())
            }),
    {
        if let Some(c) = self.current_chunk {
            if c == player_chunk {
                return None;
            }
        }
        self.current_chunk = Some(player_chunk);
        proof {
            assert(self@.loaded =~= old(self)@.loaded);
            assert(self@.edits =~= old(self)@.edits);
        }
        let half = halve(render_distance);
        let unload = self.unload_outside(player_chunk, half);
        let load = self.missing_in_square(player_chunk, half);
        proof {
            let square = square_set(player_chunk, render_distance);
            assert(Set::new(|c: ChunkCoord| in_square(c, player_chunk, half as int)) =~= square);
            assert(unload_coords(unload@).to_set() =~= old(self)@.loaded.dom().difference(square));
            assert(load@.to_set() =~= square.difference(old(self)@.loaded.dom()));
        }
        Some(StreamPlan { unload, load })
    }

    /// Generate the chunk at `coord`: floor everywhere, rock on top, the ores'
    /// veins from the chunk's own generator, then the chunk's edits.
    pub fn generate_chunk(&self, coord: ChunkCoord, config: &MapConfig) -> (r: Chunk)
        requires
            self.wf(),
            config.valid(),
        ensures
            r.wf(),
            r.floor@ == floor_layer(),
            r.block@ == chunk_blocks(self@.edits, coord, config.seed, config.ores@),
            r.block@ == overlaid(
                ores_result(rock_layer(), rng_from_seed(chunk_seed_of(config.seed, coord)), config.ores@).0,
                chunk_edits(self@.edits, coord),
            ),
            is_generated(self@.edits, coord, config.ores@, r.block@),
    {
        let mut chunk = Chunk::new();
        let mut rng = chunk_rng(config.seed, coord);
        generate_base(&mut chunk);
        let ghost rock = chunk.block@;
        generate_ores(&mut chunk, &mut rng, config.ores.as_slice());
        let ghost veined = chunk.block@;
        let key = chunk_key(coord);
        let edits = self.edits.get(&key);
        proof {
            match edits {
                Some(e) => {
                    assert(self@.edits.contains_key(coord));
                    assert(e@ == self@.edits[coord]);
                },
                None => {
                    assert(!self@.edits.contains_key(coord));
                },
            }
        }
        apply_overlay(&mut chunk, edits);
        proof {
            assert(rock =~= rock_layer());
            if edits is None {
                assert(overlaid(veined, Map::<usize, Block>::empty()) =~= veined);
            }
            assert(ores_outcome(rock_layer(), veined, config.ores@));
        }
        chunk
    }

    /// Generate the chunk at `coord` and list the tiles it spawns.
    pub fn load_chunk(&self, coord: ChunkCoord, config: &MapConfig) -> (r: Vec<TileSpawn>)
        requires
            self.wf(),
            config.valid(),
            chunk_in_range(coord),
        ensures
            r@ == tiles_of(coord, floor_layer(), chunk_blocks(self@.edits, coord, config.seed, config.ores@), 64),
            is_generated(self@.edits, coord, config.ores@, chunk_blocks(self@.edits, coord, config.seed, config.ores@)),
    {
        let chunk = self.generate_chunk(coord, config);
        chunk_tiles(coord, &chunk)
    }

    /// A breakable block at `cell`, spawned as `entity`, has died: record the
    /// cell as cleared in its chunk's overlay, so it stays cleared across
    /// reloads, and drop the entity from its chunk's loaded list.
    pub fn record_block_death(&mut self, cell: CellCoord, entity: u64)
        requires
            old(self).wf(),
        ensures
            final(self).wf(),
            final(self)@.edits == with_edit(old(self)@.edits, cell, Block::Empty),
            final(self)@.loaded == if old(self)@.loaded.contains_key(chunk_of(cell)) {
                old(self)@.loaded.insert(chunk_of(cell), without(old(self)@.loaded[chunk_of(cell)], entity))
            } else {
                old(self)@.loaded
            },
            final(self)@.current_chunk == old(self)@.current_chunk,
    {
        self.record_edit(cell, Block::Empty);
        let c = cell.chunk();
        match self.take_loaded(c) {
            Some(entities) => {
                let kept = without_entity(&entities, entity);
                self.insert_loaded(c, kept);
                proof {
                    assert(old(self)@.loaded.remove(c).insert(c, without(old(self)@.loaded[c], entity)) =~= old(
                        self,
                    )@.loaded.insert(c, without(old(self)@.loaded[c], entity)));
                }
            },
            None => {
                proof {
                    assert(old(self)@.loaded.remove(c) =~= old(self)@.loaded);
                }
            },
        }
    }

    /// Record `block` as the override for `cell` in its chunk's overlay.
    fn record_edit(&mut self, cell: CellCoord, block: Block)
        requires
            old(self).wf(),
        ensures
            final(self).wf(),
            final(self)@.edits == with_edit(old(self)@.edits, cell, block),
            final(self)@.loaded == old(self)@.loaded,
            final(self)@.current_chunk == old(self)@.current_chunk,
    {
        let c = cell.chunk();
        let key = chunk_key(c);
        let idx = cell.index_in_chunk();
        let mut inner = match self.edits.remove(&key) {
            Some(m) => m,
            None => HashMap::new(),
        };
        let ghost old_inner = inner@;
        inner.insert(idx, block);
        self.edits.insert(key, inner);
        proof {
            let new_edits = with_edit(old(self)@.edits, cell, block);
            assert(old_inner == chunk_edits(old(self)@.edits, c)) by {
                if old(self)@.edits.contains_key(c) {
                } else {
                    assert(old_inner =~= Map::<usize, Block>::empty());
                }
            }
            assert forall|d: ChunkCoord| #[trigger] self@.edits.contains_key(d) <==> new_edits.contains_key(d) by {
                lemma_key_injective(c, d);
            }
            assert forall|d: ChunkCoord| #[trigger] self@.edits.contains_key(d) implies self@.edits[d] == new_edits[d] by {
                lemma_key_injective(c, d);
            }
            assert(self@.edits =~= new_edits);
            assert(self@.loaded =~= old(self)@.loaded);
            assert forall|d: ChunkCoord| #[trigger] self@.edits.contains_key(d) implies edits_in_chunk(self@.edits[d]) by {
                lemma_key_injective(c, d);
                if d != c {
                    assert(old(self)@.edits.contains_key(d));
                }
            }
        }
    }
}

} // verus!
