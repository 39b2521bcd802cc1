use vstd::prelude::*;

verus! {

/// Kind of terrain held by one tile.
#[derive(Clone, Copy, Debug, PartialEq, Eq, Structural)]
pub enum TileType {
    Grass,
    Dirt,
    Water,
}

/// Noise samples enter the engine as fixed-point values in thousandths of
/// the noise unit: a sampler whose raw output lies in [-1, 1] hands the
/// engine values in [-1000, 1000]. A sample above `GRASS_THRESHOLD`
/// classifies as grass.
pub const GRASS_THRESHOLD: i64 = 500;

/// A sample above `WATER_THRESHOLD` (and not above `GRASS_THRESHOLD`)
/// classifies as dirt; at or below it, as water.
pub const WATER_THRESHOLD: i64 = 0;

/// The classification rule of the terrain model.
pub open spec fn spec_classify(sample: i64) -> TileType {
    if sample > GRASS_THRESHOLD {
        TileType::Grass
    } else if sample > WATER_THRESHOLD {
        TileType::Dirt
    } else {
        TileType::Water
    }
}

/// Classify a noise sample (in thousandths) into a terrain kind.
pub fn classify(sample: i64) -> (t: TileType)
    ensures
        t == spec_classify(sample),
        t == TileType::Grass <==> sample > GRASS_THRESHOLD,
        t == TileType::Dirt <==> WATER_THRESHOLD < sample <= GRASS_THRESHOLD,
        t == TileType::Water <==> sample <= WATER_THRESHOLD,
{
    if sample > GRASS_THRESHOLD {
        TileType::Grass
    } else if sample > WATER_THRESHOLD {
        TileType::Dirt
    } else {
        TileType::Water
    }
}

/// One terrain cell. `position` is the (column, row) offset of the cell
/// inside its chunk, each component below the configured chunk size.
#[derive(Clone, Copy, Debug, PartialEq, Eq)]
pub struct Tile {
    pub tile_type: TileType,
    pub position: (u32, u32),
}

} // verus!
