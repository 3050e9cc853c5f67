//! Verified core of a generative pipeline for Vangers worlds.

use vstd::prelude::*;

pub mod checkpoint;
pub mod crops;
pub mod decode;
mod draws;
pub mod generate;
pub mod graph;
pub mod layers;
pub mod lower;
pub mod model;
pub mod names;
pub mod patches;
pub mod planes;
pub mod preview;
pub mod runs;
pub mod sampler;
pub mod settings;
pub mod sweeps;
pub mod text;
pub mod tiled;
pub mod training;
pub mod world;

verus! {

} // verus!
