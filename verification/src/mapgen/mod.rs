//! The map generator: exact terrain composition with affinity-controlled
//! clustering, and the terrain kinds it works with.

pub mod terrain;
pub mod grid;
pub mod generator;
pub mod cli;
pub mod regions;

pub use terrain::Terrain;
