//! Core of a voxel world renderer: chunked block storage, procedural
//! generation from a height field, greedy meshing into packed vertices,
//! GPU memory suballocation, world streaming around a moving viewpoint,
//! region-grouped command caching and per-frame render orchestration.
//!
//! Everything here works on plain values; the platform layers (window,
//! graphics device, worker threads, noise sampling) live outside and
//! drive these functions.

pub mod chunk;
pub mod events;
pub mod frame;
pub mod gui;
pub mod memory;
pub mod mesh;
pub mod meshing;
pub mod pos;
pub mod queues;
pub mod regions;
pub mod uniform;
pub mod vertex;
pub mod world;

use vstd::prelude::*;

verus! {

/// Blocks per chunk edge.
pub const CHUNK_SIZE: usize = 32;

/// Total blocks in one cubic chunk.
pub const BLOCKS_PER_CHUNK: usize = 32768;

/// Vertex capacity a chunk's staging buffer is sized for: eighteen per
/// block.
pub const MAX_VERTICES_PER_CHUNK: usize = 589824;

/// Radius (in chunks, Chebyshev) of the loaded cube around the player.
pub const RENDER_DISTANCE: usize = 10;

/// Chunks farther than this (Chebyshev) from the player are evicted.
pub const DISCARD_DISTANCE: usize = 12;

/// Chunks per region edge; regions group chunks for command caching.
pub const REGION_SIZE: usize = 8;

/// Number of frames whose GPU work may be in flight at once.
pub const MAX_FRAMES_IN_FLIGHT: usize = 2;

} // verus!
