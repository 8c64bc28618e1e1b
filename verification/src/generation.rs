//! Per-chunk terrain: the two cell layers, base terrain, ore veins and the
//! edit overlay, and the deterministic per-chunk seed.
use crate::coords::{ChunkCoord, CHUNK_CELLS, CHUNK_SIZE};
use crate::rng::{
    random_range_i32, random_ratio, range_draw, range_next, ratio_draw, ratio_next, rng_from_seed,
    seeded_rng, weight_sum, weighted_draw, weighted_index, weighted_next, weighted_sample,
};
use rand::rngs::StdRng;
use std::collections::HashMap;
use vstd::prelude::*;
use vstd::wrapping::u64_specs::{wrapping_add, wrapping_mul};

verus! {

broadcast use vstd::std_specs::hash::group_hash_axioms;

/// The walkable ground layer of a cell.
#[derive(Clone, Copy, Debug, PartialEq, Eq, Structural)]
pub enum Floor {
    Empty,
    Floor,
}

/// What sits on top of the floor: a wall, an ore, or nothing.
#[derive(Clone, Copy, Debug, PartialEq, Eq, Structural)]
pub enum Block {
    Empty,
    Rock,
    Iron,
    Gold,
}

impl Default for Floor {
    fn default() -> (r: Self)
        ensures
            r == Floor::Empty,
    {
        Floor::Empty
    }
}

impl Default for Block {
    fn default() -> (r: Self)
        ensures
            r == Block::Empty,
    {
        Block::Empty
    }
}

/// Base terrain of one chunk, one value per cell in row-major order.
pub struct Chunk {
    pub floor: Vec<Floor>,
    pub block: Vec<Block>,
}

impl Chunk {
    /// Both layers hold exactly one value per cell.
    pub open spec fn wf(&self) -> bool {
        &&& self.floor@.len() == 64
        &&& self.block@.len() == 64
    }

    /// An empty chunk: no floor and no block anywhere.
    pub fn new() -> (r: Chunk)
        ensures
            r.wf(),
            r.floor@ == Seq::new(64, |i: int| Floor::Empty),
            r.block@ == Seq::new(64, |i: int| Block::Empty),
    {
        Chunk { floor: filled_floor(Floor::Empty), block: filled_block(Block::Empty) }
    }
}

fn filled_floor(v: Floor) -> (r: Vec<Floor>)
    ensures
        r@ == Seq::new(64, |i: int| v),
{
    let mut r: Vec<Floor> = Vec::new();
    for i in 0..CHUNK_CELLS
        invariant
            r@ == Seq::new(i as nat, |j: int| v),
    {
        r.push(v);
    }
    r
}

fn filled_block(v: Block) -> (r: Vec<Block>)
    ensures
        r@ == Seq::new(64, |i: int| v),
{
    let mut r: Vec<Block> = Vec::new();
    for i in 0..CHUNK_CELLS
        invariant
            r@ == Seq::new(i as nat, |j: int| v),
    {
        r.push(v);
    }
    r
}

/// Base terrain: floor everywhere, solid rock on top.
pub fn generate_base(chunk: &mut Chunk)
    ensures
        final(chunk).wf(),
        final(chunk).floor@ == Seq::new(64, |i: int| Floor::Floor),
        final(chunk).block@ == Seq::new(64, |i: int| Block::Rock),
{
    chunk.floor = filled_floor(Floor::Floor);
    chunk.block = filled_block(Block::Rock);
}

/// The blocks after the edit overlay is laid over `blocks`: an edited cell takes its edit.
pub open spec fn overlaid(blocks: Seq<Block>, edits: Map<usize, Block>) -> Seq<Block> {
    Seq::new(
        blocks.len(),
        |i: int|
            if edits.contains_key(i as usize) {
                edits[i as usize]
            } else {
                blocks[i]
            },
    )
}

/// Every edited index lies inside a chunk.
pub open spec fn edits_in_chunk(edits: Map<usize, Block>) -> bool {
    forall|i: usize| #[trigger] edits.contains_key(i) ==> i < 64
}

/// Apply persistent player edits on top of the generated terrain.
pub fn apply_overlay(chunk: &mut Chunk, edits: Option<&HashMap<usize, Block>>)
    requires
        old(chunk).wf(),
        edits matches Some(e) ==> edits_in_chunk(e@),
    ensures
        final(chunk).wf(),
        final(chunk).floor@ == old(chunk).floor@,
        final(chunk).block@ == match edits {
            Some(e) => overlaid(old(chunk).block@, e@),
            None => old(chunk).block@,
        },
{
    if let Some(e) = edits {
        let ghost before = chunk.block@;
        for idx in 0..CHUNK_CELLS
            invariant
                chunk.wf(),
                chunk.floor@ == old(chunk).floor@,
                before == old(chunk).block@,
                before.len() == 64,
                edits_in_chunk(e@),
                forall|i: int|
                    0 <= i < 64 ==> #[trigger] chunk.block@[i] == if i < idx {
                        overlaid(before, e@)[i]
                    } else {
                        before[i]
                    },
        {
            if let Some(b) = e.get(&idx) {
                chunk.block.set(idx, *b);
            }
            assert((idx as int) as usize == idx);
            assert(overlaid(before, e@)[idx as int] == chunk.block@[idx as int]);
        }
        assert(chunk.block@ =~= overlaid(before, e@));
    }
}

/// Where a vein walk stands: the blocks so far, the walker's cell and how many
/// cells it has converted.
pub struct VeinState {
    pub blocks: Seq<Block>,
    pub x: int,
    pub y: int,
    pub placed: nat,
}

/// One step in a cardinal direction (0: +x, 1: -x, 2: +y, otherwise -y),
/// clamped so the walker stays inside the chunk.
pub open spec fn clamped_step(x: int, y: int, dir: int) -> (int, int) {
    if dir == 0 {
        (if x + 1 < 7 { x + 1 } else { 7 }, y)
    } else if dir == 1 {
        (if x - 1 > 0 { x - 1 } else { 0 }, y)
    } else if dir == 2 {
        (x, if y + 1 < 7 { y + 1 } else { 7 })
    } else {
        (x, if y - 1 > 0 { y - 1 } else { 0 })
    }
}

/// One attempt of a vein walk: convert the walker's cell to `ore` if it is
/// rock, then step in direction `dir`.
pub open spec fn vein_step(s: VeinState, ore: Block, dir: int) -> VeinState {
    let idx = s.y * 8 + s.x;
    let converts = s.blocks[idx] == Block::Rock;
    let next = clamped_step(s.x, s.y, dir);
    VeinState {
        blocks: if converts { s.blocks.update(idx, ore) } else { s.blocks },
        x: next.0,
        y: next.1,
        placed: if converts { s.placed + 1 } else { s.placed },
    }
}

/// The state after one attempt per direction in `dirs`, in order.
pub open spec fn vein_walk(start: VeinState, ore: Block, dirs: Seq<int>) -> VeinState
    decreases dirs.len(),
{
    if dirs.len() == 0 {
        start
    } else {
        vein_step(vein_walk(start, ore, dirs.drop_last()), ore, dirs.last())
    }
}

/// The state a vein walk starts in.
pub open spec fn vein_start(blocks: Seq<Block>, x: int, y: int) -> VeinState {
    VeinState { blocks, x, y, placed: 0 }
}

/// `dirs` are the directions drawn by a complete vein walk of `ore` with
/// target `size` from `(x, y)` that turns `before` into `after`: it runs while
/// fewer than `size` cells are converted and fewer than `16 * size` attempts
/// are made.
pub open spec fn is_vein_run(
    before: Seq<Block>,
    after: Seq<Block>,
    ore: Block,
    size: nat,
    x: int,
    y: int,
    dirs: Seq<int>,
) -> bool {
    let start = vein_start(before, x, y);
    let end = vein_walk(start, ore, dirs);
    &&& forall|k: int| 0 <= k < dirs.len() ==> 0 <= #[trigger] dirs[k] < 4
    &&& dirs.len() <= size * 16
    &&& forall|k: int| 0 <= k < dirs.len() ==> #[trigger] vein_walk(start, ore, dirs.take(k)).placed < size
    &&& end.blocks == after
    &&& (end.placed == size || dirs.len() == size * 16)
}

/// `after` is what some complete vein walk makes of `before`.
pub open spec fn is_vein(before: Seq<Block>, after: Seq<Block>, ore: Block, size: nat, x: int, y: int) -> bool {
    exists|dirs: Seq<int>| #[trigger] is_vein_run(before, after, ore, size, x, y, dirs)
}

/// The vein walk as the generator drives it: while fewer than `size` cells
/// are converted and fewer than `16 * size` attempts are made, attempt a cell
/// and step in the direction `random_range(0..4)` draws.
pub open spec fn vein_loop(s: VeinState, ore: Block, size: nat, attempts: nat, rng: StdRng) -> (Seq<Block>, StdRng)
    decreases size * 16 - attempts,
{
    if s.placed < size && attempts < size * 16 {
        let dir = range_draw(rng, 0, 4);
        vein_loop(vein_step(s, ore, dir as int), ore, size, attempts + 1, range_next(rng, 0, 4))
    } else {
        (s.blocks, rng)
    }
}

/// The blocks after a vein walk of `ore` with target `size` from `(x, y)`,
/// driven by a generator in state `rng`, and the generator's state after it.
pub open spec fn vein_result(blocks: Seq<Block>, ore: Block, size: nat, x: int, y: int, rng: StdRng) -> (
    Seq<Block>,
    StdRng,
) {
    vein_loop(vein_start(blocks, x, y), ore, size, 0, rng)
}

/// Place one vein of `ore`: from `(start_x, start_y)`, random-walk in the
/// four cardinal directions, clamped to the chunk, converting only rock, until
/// `size` cells are converted or `16 * size` attempts are spent.
pub fn place_vein(chunk: &mut Chunk, rng: &mut StdRng, ore: Block, size: usize, start_x: i32, start_y: i32)
    requires
        old(chunk).wf(),
        0 <= start_x < CHUNK_SIZE,
        0 <= start_y < CHUNK_SIZE,
        size * 16 <= usize::MAX,
    ensures
        final(chunk).wf(),
        final(chunk).floor@ == old(chunk).floor@,
        (final(chunk).block@, *final(rng)) == vein_result(
            old(chunk).block@,
            ore,
            size as nat,
            start_x as int,
            start_y as int,
            *old(rng),
        ),
        is_vein(old(chunk).block@, final(chunk).block@, ore, size as nat, start_x as int, start_y as int),
{
    let mut lx = start_x;
    let mut ly = start_y;
    let mut placed: usize = 0;
    let mut attempts: usize = 0;
    let max_attempts = size * 16;
    let ghost start = vein_start(chunk.block@, start_x as int, start_y as int);
    let ghost mut dirs: Seq<int> = Seq::empty();
    while placed < size && attempts < max_attempts
        invariant
            chunk.wf(),
            chunk.floor@ == old(chunk).floor@,
            start == vein_start(old(chunk).block@, start_x as int, start_y as int),
            0 <= lx < 8,
            0 <= ly < 8,
            placed <= size,
            max_attempts == size * 16,
            attempts == dirs.len(),
            attempts <= max_attempts,
            forall|k: int| 0 <= k < dirs.len() ==> 0 <= #[trigger] dirs[k] < 4,
            forall|k: int| 0 <= k < dirs.len() ==> #[trigger] vein_walk(start, ore, dirs.take(k)).placed < size,
            vein_walk(start, ore, dirs) == (VeinState { blocks: chunk.block@, x: lx as int, y: ly as int, placed: placed as nat }),
            vein_loop(
                VeinState { blocks: chunk.block@, x: lx as int, y: ly as int, placed: placed as nat },
                ore,
                size as nat,
                attempts as nat,
                *rng,
            ) == vein_result(old(chunk).block@, ore, size as nat, start_x as int, start_y as int, *old(rng)),
        decreases max_attempts - attempts,
    {
        let ghost prev = dirs;
        let ghost before_step = VeinState { blocks: chunk.block@, x: lx as int, y: ly as int, placed: placed as nat };
        let ghost before_attempts = attempts as nat;
        let ghost before_rng = *rng;
        attempts += 1;
        let idx = (ly * CHUNK_SIZE + lx) as usize;
        if chunk.block[idx] == Block::Rock {
            chunk.block.set(idx, ore);
            placed += 1;
        }
        let dir = random_range_i32(rng, 0, 4);
        if dir == 0 {
            lx = if lx + 1 < CHUNK_SIZE - 1 { lx + 1 } else { CHUNK_SIZE - 1 };
        } else if dir == 1 {
            lx = if lx - 1 > 0 { lx - 1 } else { 0 };
        } else if dir == 2 {
            ly = if ly + 1 < CHUNK_SIZE - 1 { ly + 1 } else { CHUNK_SIZE - 1 };
        } else {
            ly = if ly - 1 > 0 { ly - 1 } else { 0 };
        }
        proof {
            assert(vein_step(before_step, ore, dir as int) == (VeinState {
                blocks: chunk.block@,
                x: lx as int,
                y: ly as int,
                placed: placed as nat,
            }));
            assert(vein_loop(before_step, ore, size as nat, before_attempts, before_rng) == vein_loop(
                vein_step(before_step, ore, dir as int),
                ore,
                size as nat,
                before_attempts + 1,
                *rng,
            ));
            dirs = prev.push(dir as int);
            assert(dirs.drop_last() =~= prev);
            assert(vein_step(before_step, ore, dir as int).blocks =~= chunk.block@);
            assert forall|k: int| 0 <= k < dirs.len() implies #[trigger] vein_walk(start, ore, dirs.take(k)).placed < size by {
                if k < prev.len() {
                    assert(dirs.take(k) =~= prev.take(k));
                } else {
                    assert(dirs.take(k) =~= prev);
                }
            }
        }
    }
    proof {
        assert(is_vein_run(old(chunk).block@, chunk.block@, ore, size as nat, start_x as int, start_y as int, dirs));
    }
}

/// A probability given as `numerator / denominator`.
#[derive(Clone, Copy, Debug, PartialEq, Eq, Structural)]
pub struct Chance {
    pub numerator: u32,
    pub denominator: u32,
}

/// One ore's spawn rules: the chance that a chunk gets a vein of it, and the
/// weighted vein sizes (cell count, weight).
pub struct OreConfig {
    pub block: Block,
    pub chunk_probability: Chance,
    pub vein_sizes: Vec<(usize, u32)>,
}

/// The weights of a list of weighted vein sizes.
pub open spec fn size_weights(sizes: Seq<(usize, u32)>) -> Seq<u32> {
    sizes.map_values(|p: (usize, u32)| p.1)
}

impl OreConfig {
    /// The rules describe a real probability and, unless that probability is
    /// zero, a samplable size table whose sizes that can be drawn allow
    /// `16 * size` attempts.
    pub open spec fn valid(&self) -> bool {
        &&& 0 < self.chunk_probability.denominator
        &&& self.chunk_probability.numerator <= self.chunk_probability.denominator
        &&& self.chunk_probability.numerator > 0 ==> {
            &&& self.vein_sizes@.len() > 0
            &&& 0 < weight_sum(size_weights(self.vein_sizes@)) <= u32::MAX
            &&& forall|k: int|
                0 <= k < self.vein_sizes@.len() && self.vein_sizes@[k].1 > 0 ==> #[trigger] self.vein_sizes@[k].0
                    * 16 <= usize::MAX
        }
    }

    /// Whether the rules are valid.
    pub fn is_valid(&self) -> (r: bool)
        ensures
            r == self.valid(),
    {
        let chance = self.chunk_probability;
        if chance.denominator == 0 || chance.numerator > chance.denominator {
            return false;
        }
        if chance.numerator == 0 {
            return true;
        }
        if self.vein_sizes.len() == 0 {
            return false;
        }
        let ghost w = size_weights(self.vein_sizes@);
        let mut total: u64 = 0;
        for k in 0..self.vein_sizes.len()
            invariant
                0 < self.chunk_probability.numerator <= self.chunk_probability.denominator,
                self.vein_sizes@.len() > 0,
                w == size_weights(self.vein_sizes@),
                total == weight_sum(w.take(k as int)),
                total <= u32::MAX,
                forall|j: int|
                    0 <= j < k && self.vein_sizes@[j].1 > 0 ==> #[trigger] self.vein_sizes@[j].0 * 16 <= usize::MAX,
        {
            let (size, weight) = self.vein_sizes[k];
            proof {
                assert(w.take(k + 1).drop_last() =~= w.take(k as int));
                assert(w.take(k + 1).last() == weight);
                assert(weight_sum(w.take(k + 1)) == total + weight);
            }
            total = total + weight as u64;
            if total > 0xFFFF_FFFF {
                proof {
                    lemma_weight_sum_prefix(w, k + 1);
                }
                return false;
            }
            if weight > 0 && size > usize::MAX / 16 {
                assert(self.vein_sizes@[k as int].0 * 16 > usize::MAX);
                return false;
            }
        }
        proof {
            assert(w.take(self.vein_sizes@.len() as int) =~= w);
        }
        total > 0
    }
}

/// A longer prefix of weights never sums to less.
proof fn lemma_weight_sum_prefix(w: Seq<u32>, k: int)
    requires
        0 <= k <= w.len(),
    ensures
        weight_sum(w.take(k)) <= weight_sum(w),
    decreases w.len(),
{
    if k < w.len() {
        assert(w.drop_last().take(k) =~= w.take(k));
        lemma_weight_sum_prefix(w.drop_last(), k);
    } else {
        assert(w.take(k) =~= w);
    }
}

/// What one ore may do to a chunk: leave it alone (unless its chance is
/// certain) or, unless its chance is zero, place one complete vein of a size
/// of positive weight from a cell of the chunk.
pub open spec fn ore_stage(before: Seq<Block>, after: Seq<Block>, ore: OreConfig) -> bool {
    let sizes = ore.vein_sizes@;
    ||| (ore.chunk_probability.numerator < ore.chunk_probability.denominator && after == before)
    ||| (ore.chunk_probability.numerator > 0 && exists|k: int, x: int, y: int|
        #![trigger is_vein(before, after, ore.block, sizes[k].0 as nat, x, y)]
        0 <= k < sizes.len() && sizes[k].1 > 0 && 0 <= x < 8 && 0 <= y < 8 && is_vein(
            before,
            after,
            ore.block,
            sizes[k].0 as nat,
            x,
            y,
        ))
}

/// `stages` are the blocks before each ore in `ores` acts, and after the last.
pub open spec fn is_ore_chain(stages: Seq<Seq<Block>>, ores: Seq<OreConfig>) -> bool {
    &&& stages.len() == ores.len() + 1
    &&& forall|j: int| 0 <= j < ores.len() ==> #[trigger] ore_stage(stages[j], stages[j + 1], ores[j])
}

/// `after` is what the ores, in list order, may make of `before`.
pub open spec fn ores_outcome(before: Seq<Block>, after: Seq<Block>, ores: Seq<OreConfig>) -> bool {
    exists|stages: Seq<Seq<Block>>|
        #[trigger] is_ore_chain(stages, ores) && stages[0] == before && stages.last() == after
}

/// What one ore does to `blocks`, driven by a generator in state `rng`, and
/// the generator's state after it: draw whether the chunk gets a vein, and if
/// so draw a weighted size and an origin cell, then walk the vein.
pub open spec fn ore_result(blocks: Seq<Block>, rng: StdRng, ore: OreConfig) -> (Seq<Block>, StdRng) {
    let n = ore.chunk_probability.numerator;
    let d = ore.chunk_probability.denominator;
    let r1 = ratio_next(rng, n, d);
    if !ratio_draw(rng, n, d) {
        (blocks, r1)
    } else {
        let w = size_weights(ore.vein_sizes@);
        let k = weighted_draw(r1, w);
        let r2 = weighted_next(r1, w);
        let x = range_draw(r2, 0, 8);
        let r3 = range_next(r2, 0, 8);
        let y = range_draw(r3, 0, 8);
        let r4 = range_next(r3, 0, 8);
        vein_result(blocks, ore.block, ore.vein_sizes@[k as int].0 as nat, x as int, y as int, r4)
    }
}

/// What the ores, in list order, do to `blocks`, driven by a generator in
/// state `rng`, and the generator's state after them.
pub open spec fn ores_result(blocks: Seq<Block>, rng: StdRng, ores: Seq<OreConfig>) -> (Seq<Block>, StdRng)
    decreases ores.len(),
{
    if ores.len() == 0 {
        (blocks, rng)
    } else {
        let p = ores_result(blocks, rng, ores.drop_last());
        ore_result(p.0, p.1, ores.last())
    }
}

/// Seed ore veins into the chunk. For each ore in priority order, maybe place
/// one vein: pick a weighted size and a random origin cell, then walk. Veins
/// convert only rock, so earlier ores keep their cells.
pub fn generate_ores(chunk: &mut Chunk, rng: &mut StdRng, ores: &[OreConfig])
    requires
        old(chunk).wf(),
        forall|j: int| 0 <= j < ores@.len() ==> #[trigger] ores@[j].valid(),
    ensures
        final(chunk).wf(),
        final(chunk).floor@ == old(chunk).floor@,
        (final(chunk).block@, *final(rng)) == ores_result(old(chunk).block@, *old(rng), ores@),
        ores_outcome(old(chunk).block@, final(chunk).block@, ores@),
{
    let ghost mut stages: Seq<Seq<Block>> = seq![chunk.block@];
    for j in 0..ores.len()
        invariant
            chunk.wf(),
            chunk.floor@ == old(chunk).floor@,
            forall|j: int| 0 <= j < ores@.len() ==> #[trigger] ores@[j].valid(),
            is_ore_chain(stages, ores@.take(j as int)),
            stages[0] == old(chunk).block@,
            stages.last() == chunk.block@,
            (chunk.block@, *rng) == ores_result(old(chunk).block@, *old(rng), ores@.take(j as int)),
    {
        let ore = &ores[j];
        let ghost rng_before = *rng;
        let ghost before = chunk.block@;
        assert(ore.valid());
        if random_ratio(rng, ore.chunk_probability.numerator, ore.chunk_probability.denominator) {
            let mut weights: Vec<u32> = Vec::new();
            for k in 0..ore.vein_sizes.len()
                invariant
                    weights@ == size_weights(ore.vein_sizes@).take(k as int),
            {
                weights.push(ore.vein_sizes[k].1);
                assert(weights@ =~= size_weights(ore.vein_sizes@).take(k + 1));
            }
            assert(weights@ =~= size_weights(ore.vein_sizes@));
            let table = match weighted_index(&weights) {
                Ok(t) => t,
                Err(_) => {
                    assert(false);
                    return;
                },
            };
            let pick = weighted_sample(&table, rng);
            let size = ore.vein_sizes[pick].0;
            let lx = random_range_i32(rng, 0, CHUNK_SIZE);
            let ly = random_range_i32(rng, 0, CHUNK_SIZE);
            place_vein(chunk, rng, ore.block, size, lx, ly);
            assert(ore_stage(before, chunk.block@, *ore));
            assert((chunk.block@, *rng) == ore_result(before, rng_before, *ore));
        } else {
            assert(ore_stage(before, chunk.block@, *ore));
            assert((chunk.block@, *rng) == ore_result(before, rng_before, *ore));
        }
        proof {
            let prev = stages;
            stages = prev.push(chunk.block@);
            assert(ores@.take(j + 1).drop_last() =~= ores@.take(j as int));
            assert(ores@.take(j + 1).last() == ores@[j as int]);
            assert forall|i: int| 0 <= i < ores@.take(j + 1).len() implies #[trigger] ore_stage(
                stages[i],
                stages[i + 1],
                ores@.take(j + 1)[i],
            ) by {
                if i < j {
                    assert(ore_stage(prev[i], prev[i + 1], ores@.take(j as int)[i]));
                }
            }
        }
    }
    assert(ores@.take(ores@.len() as int) =~= ores@);
}

/// The cells whose block differs between `before` and `after`.
pub open spec fn changed_cells(before: Seq<Block>, after: Seq<Block>) -> Set<int> {
    Set::new(|i: int| 0 <= i < before.len() && before[i] != after[i])
}

/// Each changed cell was rock and now holds `ore`.
pub open spec fn only_rock_became(before: Seq<Block>, after: Seq<Block>, ore: Block) -> bool {
    &&& after.len() == before.len()
    &&& forall|i: int|
        0 <= i < before.len() ==> #[trigger] after[i] == before[i] || (before[i] == Block::Rock
            && after[i] == ore)
}

proof fn lemma_changed_cells_finite(before: Seq<Block>, after: Seq<Block>)
    requires
        before.len() == 64,
    ensures
        changed_cells(before, after).finite(),
        changed_cells(before, after).len() <= 64,
{
    vstd::set_lib::lemma_int_range(0, 64);
    vstd::set_lib::lemma_len_subset(changed_cells(before, after), vstd::set_lib::set_int_range(0, 64));
}

proof fn lemma_vein_walk(start: VeinState, ore: Block, dirs: Seq<int>)
    requires
        start.blocks.len() == 64,
        0 <= start.x < 8,
        0 <= start.y < 8,
    ensures
        ({
            let end = vein_walk(start, ore, dirs);
            &&& 0 <= end.x < 8
            &&& 0 <= end.y < 8
            &&& end.placed >= start.placed
            &&& only_rock_became(start.blocks, end.blocks, ore)
            &&& changed_cells(start.blocks, end.blocks).finite()
            &&& changed_cells(start.blocks, end.blocks).len() <= end.placed - start.placed
        }),
    decreases dirs.len(),
{
    if dirs.len() == 0 {
        assert(changed_cells(start.blocks, start.blocks) =~= Set::<int>::empty());
    } else {
        let mid = vein_walk(start, ore, dirs.drop_last());
        lemma_vein_walk(start, ore, dirs.drop_last());
        let end = vein_walk(start, ore, dirs);
        let idx = mid.y * 8 + mid.x;
        lemma_changed_cells_finite(start.blocks, mid.blocks);
        lemma_changed_cells_finite(start.blocks, end.blocks);
        let before_set = changed_cells(start.blocks, mid.blocks);
        let after_set = changed_cells(start.blocks, end.blocks);
        if mid.blocks[idx] == Block::Rock {
            assert(after_set.subset_of(before_set.insert(idx)));
            vstd::set_lib::lemma_len_subset(after_set, before_set.insert(idx));
        } else {
            assert(end.blocks == mid.blocks);
        }
    }
}

/// A vein converts only rock, only to its own ore, and at most `size` cells.
pub proof fn lemma_vein_converts_only_rock(
    before: Seq<Block>,
    after: Seq<Block>,
    ore: Block,
    size: nat,
    x: int,
    y: int,
)
    requires
        before.len() == 64,
        0 <= x < 8,
        0 <= y < 8,
        is_vein(before, after, ore, size, x, y),
    ensures
        only_rock_became(before, after, ore),
        changed_cells(before, after).len() <= size,
{
    let dirs = choose|dirs: Seq<int>| #[trigger] is_vein_run(before, after, ore, size, x, y, dirs);
    let start = vein_start(before, x, y);
    lemma_vein_walk(start, ore, dirs);
    if dirs.len() > 0 {
        let k = dirs.len() - 1;
        assert(dirs.take(k) =~= dirs.drop_last());
        assert(vein_walk(start, ore, dirs.take(k)).placed < size);
    }
}

/// Ores act in list order and convert only rock, so a cell an earlier ore
/// claimed keeps it, and a cell that was not rock never changes: each changed
/// cell was rock and now holds the block of one of the ores.
pub proof fn lemma_ores_convert_only_rock(before: Seq<Block>, after: Seq<Block>, ores: Seq<OreConfig>)
    requires
        before.len() == 64,
        ores_outcome(before, after, ores),
    ensures
        after.len() == 64,
        forall|i: int|
            0 <= i < 64 ==> #[trigger] after[i] == before[i] || (before[i] == Block::Rock && exists|j: int|
                0 <= j < ores.len() && after[i] == ores[j].block),
{
    let stages = choose|stages: Seq<Seq<Block>>|
        #[trigger] is_ore_chain(stages, ores) && stages[0] == before && stages.last() == after;
    lemma_ore_chain_prefix(before, stages, ores, ores.len() as int);
}

proof fn lemma_ore_chain_prefix(before: Seq<Block>, stages: Seq<Seq<Block>>, ores: Seq<OreConfig>, m: int)
    requires
        before.len() == 64,
        is_ore_chain(stages, ores),
        stages[0] == before,
        0 <= m <= ores.len(),
    ensures
        stages[m].len() == 64,
        forall|i: int|
            0 <= i < 64 ==> #[trigger] stages[m][i] == before[i] || (before[i] == Block::Rock && exists|j: int|
                0 <= j < m && stages[m][i] == ores[j].block),
    decreases m,
{
    if m > 0 {
        lemma_ore_chain_prefix(before, stages, ores, m - 1);
        let prev = stages[m - 1];
        let cur = stages[m];
        let j = m - 1;
        assert(ore_stage(stages[j], stages[j + 1], ores[j]));
        if cur != prev {
            let sizes = ores[m - 1].vein_sizes@;
            let (k, x, y) = choose|k: int, x: int, y: int|
                #![trigger is_vein(prev, cur, ores[m - 1].block, sizes[k].0 as nat, x, y)]
                0 <= k < sizes.len() && sizes[k].1 > 0 && 0 <= x < 8 && 0 <= y < 8 && is_vein(
                    prev,
                    cur,
                    ores[m - 1].block,
                    sizes[k].0 as nat,
                    x,
                    y,
                );
            lemma_vein_converts_only_rock(prev, cur, ores[m - 1].block, sizes[k].0 as nat, x, y);
            assert forall|i: int| 0 <= i < 64 implies #[trigger] cur[i] == before[i] || (before[i]
                == Block::Rock && exists|j: int| 0 <= j < m && cur[i] == ores[j].block) by {
                if cur[i] != prev[i] {
                    assert(prev[i] == Block::Rock && cur[i] == ores[m - 1].block);
                    if prev[i] != before[i] {
                        let j0 = choose|j: int| 0 <= j < m - 1 && prev[i] == ores[j].block;
                        assert(before[i] == Block::Rock);
                    }
                } else if prev[i] != before[i] {
                    let j0 = choose|j: int| 0 <= j < m - 1 && prev[i] == ores[j].block;
                    assert(0 <= j0 < m && cur[i] == ores[j0].block);
                }
            }
        }
    }
}

proof fn lemma_vein_loop_only_rock(s: VeinState, ore: Block, size: nat, attempts: nat, rng: StdRng)
    requires
        s.blocks.len() == 64,
        0 <= s.x < 8,
        0 <= s.y < 8,
    ensures
        only_rock_became(s.blocks, vein_loop(s, ore, size, attempts, rng).0, ore),
    decreases size * 16 - attempts,
{
    if s.placed < size && attempts < size * 16 {
        let dir = range_draw(rng, 0, 4);
        let t = vein_step(s, ore, dir as int);
        lemma_vein_loop_only_rock(t, ore, size, attempts + 1, range_next(rng, 0, 4));
        let fin = vein_loop(s, ore, size, attempts, rng).0;
        assert forall|i: int| 0 <= i < 64 implies #[trigger] fin[i] == s.blocks[i] || (s.blocks[i]
            == Block::Rock && fin[i] == ore) by {
            assert(fin[i] == t.blocks[i] || (t.blocks[i] == Block::Rock && fin[i] == ore));
        }
    }
}

/// An ore acts exactly by its chance draw: when `random_ratio` comes out
/// false the blocks are untouched; when it comes out true the ore walks a vein
/// of the size its weighted draw picks, from the cell its two `random_range(0..8)`
/// draws pick, whatever the chance.
pub proof fn lemma_ore_follows_chance_draw(blocks: Seq<Block>, rng: StdRng, ore: OreConfig)
    ensures
        ({
            let n = ore.chunk_probability.numerator;
            let d = ore.chunk_probability.denominator;
            let w = size_weights(ore.vein_sizes@);
            let r1 = ratio_next(rng, n, d);
            let r2 = weighted_next(r1, w);
            let r3 = range_next(r2, 0, 8);
            let r4 = range_next(r3, 0, 8);
            &&& !ratio_draw(rng, n, d) ==> ore_result(blocks, rng, ore) == (blocks, r1)
            &&& ratio_draw(rng, n, d) ==> ore_result(blocks, rng, ore) == vein_result(
                blocks,
                ore.block,
                ore.vein_sizes@[weighted_draw(r1, w) as int].0 as nat,
                range_draw(r2, 0, 8) as int,
                range_draw(r3, 0, 8) as int,
                r4,
            )
        }),
{
}

/// When an ore's chance draw comes out true, the ore appears in the chunk:
/// if the drawn vein size is positive and the drawn origin cell is rock, that
/// cell holds the ore afterwards.
pub proof fn lemma_drawn_ore_appears(blocks: Seq<Block>, rng: StdRng, ore: OreConfig)
    requires
        blocks.len() == 64,
        ({
            let n = ore.chunk_probability.numerator;
            let d = ore.chunk_probability.denominator;
            let w = size_weights(ore.vein_sizes@);
            let r1 = ratio_next(rng, n, d);
            let r2 = weighted_next(r1, w);
            let r3 = range_next(r2, 0, 8);
            let x = range_draw(r2, 0, 8) as int;
            let y = range_draw(r3, 0, 8) as int;
            &&& ratio_draw(rng, n, d)
            &&& 0 <= weighted_draw(r1, w) < ore.vein_sizes@.len()
            &&& ore.vein_sizes@[weighted_draw(r1, w) as int].0 >= 1
            &&& 0 <= x < 8
            &&& 0 <= y < 8
            &&& blocks[y * 8 + x] == Block::Rock
        }),
    ensures
        ({
            let w = size_weights(ore.vein_sizes@);
            let r1 = ratio_next(rng, ore.chunk_probability.numerator, ore.chunk_probability.denominator);
            let r2 = weighted_next(r1, w);
            let r3 = range_next(r2, 0, 8);
            let x = range_draw(r2, 0, 8) as int;
            let y = range_draw(r3, 0, 8) as int;
            ore_result(blocks, rng, ore).0[y * 8 + x] == ore.block
        }),
{
    let n = ore.chunk_probability.numerator;
    let d = ore.chunk_probability.denominator;
    let w = size_weights(ore.vein_sizes@);
    let r1 = ratio_next(rng, n, d);
    let r2 = weighted_next(r1, w);
    let r3 = range_next(r2, 0, 8);
    let r4 = range_next(r3, 0, 8);
    let x = range_draw(r2, 0, 8) as int;
    let y = range_draw(r3, 0, 8) as int;
    let size = ore.vein_sizes@[weighted_draw(r1, w) as int].0 as nat;
    let s = vein_start(blocks, x, y);
    let t = vein_step(s, ore.block, range_draw(r4, 0, 4) as int);
    assert(t.blocks[y * 8 + x] == ore.block);
    assert(0 <= t.x < 8 && 0 <= t.y < 8);
    lemma_vein_loop_only_rock(t, ore.block, size, 1, range_next(r4, 0, 4));
}

/// The generator state after `n` draws of `random_range(0..4)` from `rng`.
pub open spec fn after_direction_draws(rng: StdRng, n: nat) -> StdRng
    decreases n,
{
    if n == 0 {
        rng
    } else {
        range_next(after_direction_draws(rng, (n - 1) as nat), 0, 4)
    }
}

/// The first `n` directions that `random_range(0..4)` draws from `rng`.
pub open spec fn direction_draws(rng: StdRng, n: nat) -> Seq<int>
    decreases n,
{
    if n == 0 {
        Seq::empty()
    } else {
        direction_draws(rng, (n - 1) as nat).push(
            range_draw(after_direction_draws(rng, (n - 1) as nat), 0, 4) as int,
        )
    }
}

/// The vein walk of `ore` with target `size` from `(x, y)` over `blocks`
/// takes exactly the first `n` directions drawn from `rng` by
/// `random_range(0..4)`: it runs while fewer than `size` cells are converted
/// and fewer than `16 * size` attempts are made, and `result` is what it
/// leaves, with the generator after those draws.
pub open spec fn walks_drawn_directions(
    blocks: Seq<Block>,
    ore: Block,
    size: nat,
    x: int,
    y: int,
    rng: StdRng,
    n: nat,
    result: (Seq<Block>, StdRng),
) -> bool {
    let start = vein_start(blocks, x, y);
    let end = vein_walk(start, ore, direction_draws(rng, n));
    &&& n <= size * 16
    &&& forall|k: nat| k < n ==> #[trigger] vein_walk(start, ore, direction_draws(rng, k)).placed < size
    &&& (end.placed == size || n == size * 16)
    &&& result == (end.blocks, after_direction_draws(rng, n))
}

proof fn lemma_direction_draws_len(rng: StdRng, n: nat)
    ensures
        direction_draws(rng, n).len() == n,
    decreases n,
{
    if n > 0 {
        lemma_direction_draws_len(rng, (n - 1) as nat);
    }
}

proof fn lemma_drawn_walk_from(start: VeinState, ore: Block, size: nat, rng: StdRng, a: nat)
    requires
        start.placed == 0,
        a <= size * 16,
        vein_walk(start, ore, direction_draws(rng, a)).placed <= size,
        forall|k: nat| k < a ==> #[trigger] vein_walk(start, ore, direction_draws(rng, k)).placed < size,
    ensures
        exists|n: nat|
            a <= n && #[trigger] walks_drawn_directions(
                start.blocks,
                ore,
                size,
                start.x,
                start.y,
                rng,
                n,
                vein_loop(vein_walk(start, ore, direction_draws(rng, a)), ore, size, a, after_direction_draws(rng, a)),
            ),
    decreases size * 16 - a,
{
    let s = vein_walk(start, ore, direction_draws(rng, a));
    let r = after_direction_draws(rng, a);
    lemma_direction_draws_len(rng, a + 1);
    lemma_direction_draws_len(rng, a);
    assert(vein_start(start.blocks, start.x, start.y) == start);
    if s.placed < size && a < size * 16 {
        let next = (a + 1) as nat;
        assert(direction_draws(rng, next).drop_last() == direction_draws(rng, a));
        assert(vein_walk(start, ore, direction_draws(rng, next)) == vein_step(s, ore, range_draw(r, 0, 4) as int));
        assert(after_direction_draws(rng, next) == range_next(r, 0, 4));
        assert forall|k: nat| k < next implies #[trigger] vein_walk(start, ore, direction_draws(rng, k)).placed < size by {
            if k == a {
            }
        }
        assert(vein_loop(s, ore, size, a, r) == vein_loop(
            vein_walk(start, ore, direction_draws(rng, next)),
            ore,
            size,
            next,
            after_direction_draws(rng, next),
        ));
        lemma_drawn_walk_from(start, ore, size, rng, next);
    } else {
        assert(vein_loop(s, ore, size, a, r) == (s.blocks, r));
        assert(walks_drawn_directions(start.blocks, ore, size, start.x, start.y, rng, a, vein_loop(s, ore, size, a, r)));
    }
}

/// A vein walk steps in the direction that `random_range(0..4)` draws, over
/// all four cardinal directions: the walk `place_vein` performs is the clamped
/// walk over the successive draws of `random_range(0..4)` from the generator,
/// for exactly as many draws as it takes attempts.
pub proof fn lemma_vein_steps_are_four_way_draws(blocks: Seq<Block>, ore: Block, size: nat, x: int, y: int, rng: StdRng)
    ensures
        exists|n: nat| #[trigger] walks_drawn_directions(blocks, ore, size, x, y, rng, n, vein_result(blocks, ore, size, x, y, rng)),
{
    let start = vein_start(blocks, x, y);
    assert(direction_draws(rng, 0) == Seq::<int>::empty());
    assert(vein_walk(start, ore, direction_draws(rng, 0)) == start);
    assert(after_direction_draws(rng, 0) == rng);
    lemma_drawn_walk_from(start, ore, size, rng, 0);
    let res = vein_result(blocks, ore, size, x, y, rng);
    assert(res == vein_loop(vein_walk(start, ore, direction_draws(rng, 0)), ore, size, 0, after_direction_draws(rng, 0)));
    let n = choose|n: nat|
        0 <= n && #[trigger] walks_drawn_directions(start.blocks, ore, size, start.x, start.y, rng, n, res);
    assert(walks_drawn_directions(blocks, ore, size, x, y, rng, n, res));
}

/// One splitmix64-style mixing round that folds a value into the hash.
pub open spec fn mix_in(h: u64, v: u64) -> u64 {
    wrapping_add(wrapping_mul(h, 0x9E37_79B9_7F4A_7C15), v)
}

/// The splitmix64 finaliser.
pub open spec fn finalize(h: u64) -> u64 {
    let a = wrapping_mul(h ^ (h >> 30u64), 0xBF58_476D_1CE4_E5B9);
    let b = wrapping_mul(a ^ (a >> 27u64), 0x94D0_49BB_1331_11EB);
    b ^ (b >> 31u64)
}

/// The seed of a chunk: the world seed with the chunk's coordinates (as their
/// 32-bit patterns) mixed in, then finalised.
pub open spec fn chunk_seed_of(world_seed: u64, c: ChunkCoord) -> u64 {
    finalize(mix_in(mix_in(world_seed, c.x as u32 as u64), c.y as u32 as u64))
}

/// Multiplying by `k` and then by its inverse modulo `2^64` gives back `a`.
proof fn lemma_mul_undo(a: u64, k: u64, kinv: u64)
    requires
        (k as int * kinv as int) % 0x1_0000_0000_0000_0000 == 1,
    ensures
        wrapping_mul(wrapping_mul(a, k), kinv) == a,
{
    let m: int = 0x1_0000_0000_0000_0000;
    let x = a as int * k as int;
    vstd::arithmetic::div_mod::lemma_mul_mod_noop_left(x, kinv as int, m);
    vstd::arithmetic::mul::lemma_mul_is_associative(a as int, k as int, kinv as int);
    vstd::arithmetic::div_mod::lemma_mul_mod_noop_right(a as int, k as int * kinv as int, m);
    vstd::arithmetic::div_mod::lemma_small_mod(a as nat, m as nat);
}

/// Undoes `y ^ (y >> 30)`.
spec fn unshift30(y: u64) -> u64 {
    y ^ (y >> 30u64) ^ (y >> 60u64)
}

/// Undoes `y ^ (y >> 27)`.
spec fn unshift27(y: u64) -> u64 {
    y ^ (y >> 27u64) ^ (y >> 54u64)
}

/// Undoes `y ^ (y >> 31)`.
spec fn unshift31(y: u64) -> u64 {
    y ^ (y >> 31u64) ^ (y >> 62u64)
}

proof fn lemma_finalize_injective(h1: u64, h2: u64)
    ensures
        finalize(h1) == finalize(h2) ==> h1 == h2,
{
    if finalize(h1) == finalize(h2) {
        let x1 = h1 ^ (h1 >> 30u64);
        let x2 = h2 ^ (h2 >> 30u64);
        let a1 = wrapping_mul(x1, 0xBF58_476D_1CE4_E5B9);
        let a2 = wrapping_mul(x2, 0xBF58_476D_1CE4_E5B9);
        let y1 = a1 ^ (a1 >> 27u64);
        let y2 = a2 ^ (a2 >> 27u64);
        let b1 = wrapping_mul(y1, 0x94D0_49BB_1331_11EB);
        let b2 = wrapping_mul(y2, 0x94D0_49BB_1331_11EB);
        assert(unshift31(b1 ^ (b1 >> 31u64)) == b1) by (bit_vector);
        assert(unshift31(b2 ^ (b2 >> 31u64)) == b2) by (bit_vector);
        lemma_mul_undo(y1, 0x94D0_49BB_1331_11EB, 0x3196_42B2_D24D_8EC3);
        lemma_mul_undo(y2, 0x94D0_49BB_1331_11EB, 0x3196_42B2_D24D_8EC3);
        assert(unshift27(a1 ^ (a1 >> 27u64)) == a1) by (bit_vector);
        assert(unshift27(a2 ^ (a2 >> 27u64)) == a2) by (bit_vector);
        lemma_mul_undo(x1, 0xBF58_476D_1CE4_E5B9, 0x96DE_1B17_3F11_9089);
        lemma_mul_undo(x2, 0xBF58_476D_1CE4_E5B9, 0x96DE_1B17_3F11_9089);
        assert(unshift30(h1 ^ (h1 >> 30u64)) == h1) by (bit_vector);
        assert(unshift30(h2 ^ (h2 >> 30u64)) == h2) by (bit_vector);
    }
}

proof fn lemma_mix_injective_in_hash(h1: u64, h2: u64, v: u64)
    ensures
        mix_in(h1, v) == mix_in(h2, v) ==> h1 == h2,
{
    lemma_mul_undo(h1, 0x9E37_79B9_7F4A_7C15, 0xF1DE_83E1_9937_733D);
    lemma_mul_undo(h2, 0x9E37_79B9_7F4A_7C15, 0xF1DE_83E1_9937_733D);
}

proof fn lemma_coordinate_bits_injective(a: i32, b: i32)
    ensures
        a as u32 as u64 == b as u32 as u64 ==> a == b,
{
    assert(a as u32 as u64 == b as u32 as u64 ==> a == b) by (bit_vector);
}

/// Distinct world seeds give every chunk distinct seeds.
pub proof fn lemma_chunk_seed_injective_in_seed(s1: u64, s2: u64, c: ChunkCoord)
    requires
        s1 != s2,
    ensures
        chunk_seed_of(s1, c) != chunk_seed_of(s2, c),
{
    let m1 = mix_in(s1, c.x as u32 as u64);
    let m2 = mix_in(s2, c.x as u32 as u64);
    lemma_finalize_injective(mix_in(m1, c.y as u32 as u64), mix_in(m2, c.y as u32 as u64));
    lemma_mix_injective_in_hash(m1, m2, c.y as u32 as u64);
    lemma_mix_injective_in_hash(s1, s2, c.x as u32 as u64);
}

/// In one column of chunks (same x), distinct rows give distinct seeds.
pub proof fn lemma_chunk_seed_injective_in_y(s: u64, c1: ChunkCoord, c2: ChunkCoord)
    requires
        c1.x == c2.x,
        c1.y != c2.y,
    ensures
        chunk_seed_of(s, c1) != chunk_seed_of(s, c2),
{
    let m = mix_in(s, c1.x as u32 as u64);
    lemma_finalize_injective(mix_in(m, c1.y as u32 as u64), mix_in(m, c2.y as u32 as u64));
    lemma_coordinate_bits_injective(c1.y, c2.y);
}

/// In one row of chunks (same y), distinct columns give distinct seeds.
pub proof fn lemma_chunk_seed_injective_in_x(s: u64, c1: ChunkCoord, c2: ChunkCoord)
    requires
        c1.y == c2.y,
        c1.x != c2.x,
    ensures
        chunk_seed_of(s, c1) != chunk_seed_of(s, c2),
{
    let m1 = mix_in(s, c1.x as u32 as u64);
    let m2 = mix_in(s, c2.x as u32 as u64);
    lemma_finalize_injective(mix_in(m1, c1.y as u32 as u64), mix_in(m2, c2.y as u32 as u64));
    lemma_mix_injective_in_hash(m1, m2, c1.y as u32 as u64);
    lemma_coordinate_bits_injective(c1.x, c2.x);
}

/// Deterministic per-chunk seed, so each chunk is reproducible on its own.
pub fn chunk_seed(world_seed: u64, c: ChunkCoord) -> (r: u64)
    ensures
        r == chunk_seed_of(world_seed, c),
{
    let mut h = world_seed;
    h = h.wrapping_mul(0x9E37_79B9_7F4A_7C15).wrapping_add(c.x as u32 as u64);
    h = h.wrapping_mul(0x9E37_79B9_7F4A_7C15).wrapping_add(c.y as u32 as u64);
    h = (h ^ (h >> 30)).wrapping_mul(0xBF58_476D_1CE4_E5B9);
    h = (h ^ (h >> 27)).wrapping_mul(0x94D0_49BB_1331_11EB);
    h ^ (h >> 31)
}

/// The generator of a chunk, seeded from the chunk's seed.
pub fn chunk_rng(world_seed: u64, c: ChunkCoord) -> (r: StdRng)
    ensures
        r == rng_from_seed(chunk_seed_of(world_seed, c)),
{
    seeded_rng(chunk_seed(world_seed, c))
}

} // verus!
