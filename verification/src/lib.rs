//! Streaming engine for an unbounded, procedurally generated 2D terrain grid.
//!
//! The engine keeps a square window of chunks loaded around a moving
//! viewpoint: each tick it admits missing coordinates as pending generation
//! tasks, harvests completed chunks, and evicts everything that left the
//! window. Chunk contents are a pure function of the chunk coordinates and
//! the noise samples supplied for its cells, so generation can run on worker
//! threads and be re-done after a failure without any coordination.

pub mod config;
pub mod tile;
pub mod chunk;
pub mod store;
pub mod controller;
pub mod laws;
pub mod ui;
