//! Chunked, procedurally generated tile world: grid coordinates, per-chunk
//! terrain generation, the persistent edit overlay and chunk streaming.

pub mod coords;
pub mod rng;
pub mod generation;
pub mod world;
pub mod controls;
