# chunkworld

The world logic of a small top-down digging game: an unbounded grid of 8 x 8
tile chunks, generated per chunk from a world seed (rock with ore veins), a
persistent overlay of player edits, and streaming of the square of chunks
around the player.

- `src/` is the verified library (Verus):
  - `coords` — cell and chunk coordinates, splitting and joining them;
  - `rng` — the `rand` functions that generation draws on, as trusted items;
  - `generation` — cell layers, base terrain, vein walks, ore placement,
    the edit overlay and the per-chunk seed;
  - `world` — the streaming world (`ChunkMap`), generation settings, the
    tiles a chunk spawns, and the laws that tie them together;
  - `controls` — combining binding states and the movement direction.
- `app/` is the bevy game around it: rendering, input, collision and damage
  (floating point), and the systems that hand the library plain values.
- `tests/` runs the library on concrete values.
