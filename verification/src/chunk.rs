use vstd::prelude::*;
use crate::config::Config;
use crate::tile::{classify, spec_classify, Tile};

verus! {

/// Mathematical content of a chunk: its chunk-grid coordinates, its tiles
/// in row-major order, and the presentation handles recorded for it.
pub struct ChunkView {
    pub coords: (i64, i64),
    pub tiles: Seq<Tile>,
    pub handles: Seq<u64>,
}

/// A fixed-size square block of tiles at one chunk-grid coordinate.
///
/// `chunk_coords` is the position in chunk-grid units, not world units.
/// `tiles` is immutable after construction. `tile_entities` holds opaque
/// back-references to the presentation objects created for this chunk; the
/// engine never owns those objects, it only tracks the handles so their
/// release can be requested after eviction.
pub struct Chunk {
    pub tiles: Vec<Tile>,
    pub chunk_coords: (i64, i64),
    pub tile_entities: Vec<u64>,
}

impl View for Chunk {
    type V = ChunkView;

    open spec fn view(&self) -> ChunkView {
        ChunkView {
            coords: self.chunk_coords,
            tiles: self.tiles@,
            handles: self.tile_entities@,
        }
    }
}

/// The tile at flat index `i` of a chunk with edge length `size` built
/// from `samples`: the classified sample, at row-major offset
/// `(i / size, i % size)`.
pub open spec fn spec_tile_at(samples: Seq<i64>, size: u32, i: int) -> Tile {
    Tile {
        tile_type: spec_classify(samples[i]),
        position: ((i / size as int) as u32, (i % size as int) as u32),
    }
}

/// The full tile grid of a chunk: `size * size` tiles in row-major order.
pub open spec fn spec_tiles(samples: Seq<i64>, size: u32) -> Seq<Tile> {
    Seq::new((size as nat) * (size as nat), |i: int| spec_tile_at(samples, size, i))
}

/// Every generated tile's offset lies inside its chunk: both components
/// of `position` are below the edge length.
pub proof fn lemma_tiles_in_bounds(samples: Seq<i64>, size: u32)
    requires
        1 <= size <= 1024,
    ensures
        forall|i: int|
            0 <= i < spec_tiles(samples, size).len() ==> (#[trigger] spec_tiles(
                samples,
                size,
            )[i]).position.0 < size && spec_tiles(samples, size)[i].position.1 < size,
{
    assert forall|i: int|
        0 <= i < spec_tiles(samples, size).len() implies (#[trigger] spec_tiles(
        samples,
        size,
    )[i]).position.0 < size && spec_tiles(samples, size)[i].position.1 < size by {
        assert((i / (size as int)) < (size as int) && (i % (size as int)) < (size as int))
            by (nonlinear_arith)
            requires
                0 <= i < (size as int) * (size as int),
                1 <= size as int,
        ;
    }
}

impl Chunk {
    /// Generate the chunk at `chunk_coords` from one noise sample per cell.
    ///
    /// `samples` holds the fixed-point noise sample of every cell in
    /// row-major order: the cell at offset `(x, y)` reads
    /// `samples[x * chunk_size + y]`, and callers are expected to have
    /// sampled their noise field at the world coordinate given by
    /// `cell_world_coords`. The result is a pure function of the inputs,
    /// which is what makes generation safe to run off the main thread and
    /// safe to redo after a worker failure.
    pub fn new(chunk_coords: (i64, i64), samples: &Vec<i64>, cfg: &Config) -> (c: Chunk)
        requires
            cfg.wf(),
            samples@.len() == cfg.chunk_size as int * cfg.chunk_size as int,
        ensures
            c@.coords == chunk_coords,
            c@.handles == Seq::<u64>::empty(),
            c@.tiles == spec_tiles(samples@, cfg.chunk_size),
    {
        let size = cfg.chunk_size as usize;
        proof {
            assert(size * size <= 1048576) by (nonlinear_arith)
                requires
                    1 <= size <= 1024,
            ;
        }
        let n = size * size;
        let mut tiles: Vec<Tile> = Vec::new();
        let mut i: usize = 0;
        while i < n
            invariant
                1 <= size <= 1024,
                size == cfg.chunk_size as int,
                n == size * size,
                samples@.len() == n,
                i <= n,
                tiles@.len() == i,
                forall|j: int|
                    0 <= j < i ==> tiles@[j] == spec_tile_at(samples@, cfg.chunk_size, j),
            decreases n - i,
        {
            assert(i / size < size && i % size < size) by (nonlinear_arith)
                requires
                    i < n,
                    n == size * size,
                    1 <= size,
            ;
            let x = i / size;
            let y = i % size;
            let t = classify(samples[i]);
            tiles.push(Tile { tile_type: t, position: (x as u32, y as u32) });
            i = i + 1;
        }
        proof {
            assert(tiles@ =~= spec_tiles(samples@, cfg.chunk_size));
        }
        Chunk { tiles, chunk_coords, tile_entities: Vec::new() }
    }
}

/// World coordinate of the cell at offset `(x, y)` inside the chunk at
/// `chunk_coords`: each axis is `chunk_coords * chunk_size + offset`.
/// A noise sampler is expected to be evaluated at exactly this coordinate
/// (scaled to noise space by the sampler itself) when filling `samples`
/// for `Chunk::new`.
pub fn cell_world_coords(chunk_coords: (i64, i64), x: u32, y: u32, cfg: &Config) -> (w: (
    i64,
    i64,
))
    requires
        cfg.wf(),
        x < cfg.chunk_size,
        y < cfg.chunk_size,
        i64::MIN <= chunk_coords.0 as int * cfg.chunk_size as int,
        chunk_coords.0 as int * cfg.chunk_size as int + x as int <= i64::MAX,
        i64::MIN <= chunk_coords.1 as int * cfg.chunk_size as int,
        chunk_coords.1 as int * cfg.chunk_size as int + y as int <= i64::MAX,
    ensures
        w.0 == chunk_coords.0 as int * cfg.chunk_size as int + x as int,
        w.1 == chunk_coords.1 as int * cfg.chunk_size as int + y as int,
{
    let wx = chunk_coords.0 * (cfg.chunk_size as i64) + (x as i64);
    let wy = chunk_coords.1 * (cfg.chunk_size as i64) + (y as i64);
    (wx, wy)
}

} // verus!
