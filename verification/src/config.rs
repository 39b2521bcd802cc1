use vstd::prelude::*;

verus! {

/// Tiles along one edge of a square chunk.
pub const CHUNK_SIZE: u32 = 64;

/// Chebyshev radius, in chunk units, of the required window.
pub const LOAD_RADIUS: i64 = 7;

/// Seed of the noise field, fixed for the life of the process.
pub const SEED: u32 = 123123;

/// World units covered by one tile edge.
pub const TILE_WORLD_SIZE: i64 = 2;

/// Immutable configuration, built once at startup and passed by reference
/// to every component; there is no hidden global state.
pub struct Config {
    /// Tiles along one edge of a square chunk.
    pub chunk_size: u32,
    /// Chebyshev radius, in chunk units, of the required window.
    pub load_radius: i64,
    /// Seed of the noise field. The engine itself never samples noise; the
    /// seed is carried here so that every sampler a caller plugs in is
    /// driven by the same constant.
    pub seed: u32,
    /// World units covered by one tile edge.
    pub tile_world_size: i64,
}

impl Config {
    /// The bounds keep every arithmetic step of the engine inside machine
    /// range: a chunk holds at most 2^20 tiles and a chunk spans at most
    /// 2^20 world units.
    pub open spec fn wf(self) -> bool {
        &&& 1 <= self.chunk_size <= 1024
        &&& 0 <= self.load_radius <= 4096
        &&& 1 <= self.tile_world_size <= 1024
    }

    /// World units spanned by one chunk edge.
    pub open spec fn spec_chunk_span(self) -> int {
        self.chunk_size as int * self.tile_world_size as int
    }

    /// The configuration the engine ships with.
    pub fn standard() -> (c: Config)
        ensures
            c.wf(),
            c.chunk_size == CHUNK_SIZE,
            c.load_radius == LOAD_RADIUS,
            c.seed == SEED,
            c.tile_world_size == TILE_WORLD_SIZE,
    {
        Config {
            chunk_size: CHUNK_SIZE,
            load_radius: LOAD_RADIUS,
            seed: SEED,
            tile_world_size: TILE_WORLD_SIZE,
        }
    }

    /// World units spanned by one chunk edge.
    pub fn chunk_span(&self) -> (s: i64)
        requires
            self.wf(),
        ensures
            s == self.spec_chunk_span(),
            1 <= s <= 1048576,
    {
        proof {
            assert(1 <= self.chunk_size as int * self.tile_world_size as int <= 1048576)
                by (nonlinear_arith)
                requires
                    1 <= self.chunk_size as int <= 1024,
                    1 <= self.tile_world_size as int <= 1024,
            ;
        }
        (self.chunk_size as i64) * self.tile_world_size
    }
}

} // verus!
