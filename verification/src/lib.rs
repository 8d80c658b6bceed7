//! Verified core of an ant colony simulation: grid geometry, cave and terrain
//! generation on a boolean wall grid, marching-squares case tables, Perlin
//! lattice hashing, and the colony / food state machines.

pub mod config;
pub mod grid;
pub mod flood;
pub mod spawn_cells;
pub mod cave;
mod rng;
pub mod world;
pub mod terrain;
pub mod marching;
pub mod noise;
pub mod colony;
pub mod food;
pub mod overlay;
