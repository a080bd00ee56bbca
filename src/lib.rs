//! Spatial-hash neighbour index for particle-life simulations.
//!
//! Particles are bucketed by the grid cell they occupy; cells are hashed,
//! hashes are folded into a bounded key space, entries are sorted by key and
//! a start-offset table gives constant-time access to each bucket. Neighbour
//! queries then scan the 3x3 block of cells around a particle.
pub mod config;
pub mod entry;
pub mod error;
pub mod grid;
pub mod index;
pub mod network;
pub mod network_sorts;
pub mod query;
pub mod tick;
