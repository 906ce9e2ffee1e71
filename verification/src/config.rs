//! The settings of a world, and the values they take by default.

use vstd::prelude::*;
use crate::grid::lemma_side_bound;

verus! {

/// Side of the world grid, in cells.
pub const MAP_SIZE: usize = 5_000;

/// Heights are whole numbers of millionths: `ELEVATION_ONE` is the greatest height.
pub const ELEVATION_ONE: u32 = 1_000_000;

/// Heights below this level are under water.
pub const WATER: u32 = 550_000;

/// Radius of the square neighbourhood that a settlement keeps clear of other
/// settlements.
pub const CITY_SPACING: usize = 5;

/// Islands with fewer places for settlements than this are left empty.
pub const MIN_CITY_SLOTS_PER_ISLAND: usize = 6;

/// Settlements lie within this distance of the centre of the grid. It is
/// given in tenths of a cell: eight tenths of half the side of the grid,
/// which is four tenths of a cell for each cell of the side.
pub const CITY_RADIUS_TENTHS: usize = MAP_SIZE * 4;

/// Number of cells a body of water must have to count as ocean.
pub const OCEAN_MIN_SIZE: usize = 500;

/// Side of one rendered tile, in cells.
pub const CHUNK_SIZE: usize = 250;

/// The settings that the stages of world generation read.
#[derive(Clone, Copy, Debug, PartialEq, Eq, Structural)]
pub struct WorldConfig {
    /// Heights below this level are water.
    pub water_level: u32,
    /// Greatest distance of a settlement from the centre of the grid, in
    /// tenths of a cell.
    pub city_radius_tenths: usize,
    /// Radius of the square neighbourhood that a settlement keeps clear of
    /// other settlements.
    pub city_spacing: usize,
    /// Least number of places for settlements on an island that is kept.
    pub min_city_slots_per_island: usize,
    /// Least number of cells of a body of water that counts as ocean.
    pub ocean_min_size: usize,
    /// Side of one rendered tile, in cells.
    pub chunk_size: usize,
}

impl WorldConfig {
    /// The default settings for a grid of side `map_size`: settlements lie
    /// within eight tenths of half the side from the centre, half a cell
    /// counted where the side is odd.
    pub fn for_size(map_size: usize) -> (config: WorldConfig)
        requires
            map_size * map_size <= usize::MAX,
        ensures
            config == (WorldConfig {
                water_level: WATER,
                city_radius_tenths: (map_size * 4) as usize,
                city_spacing: CITY_SPACING,
                min_city_slots_per_island: MIN_CITY_SLOTS_PER_ISLAND,
                ocean_min_size: OCEAN_MIN_SIZE,
                chunk_size: CHUNK_SIZE,
            }),
            config.city_radius_tenths == map_size * 4,
    {
        proof {
            lemma_side_bound(map_size as int);
            if map_size >= 4 {
                assert(4 * map_size <= map_size * map_size) by (nonlinear_arith)
                    requires
                        map_size >= 4,
                ;
            }
        }
        WorldConfig {
            water_level: WATER,
            city_radius_tenths: map_size * 4,
            city_spacing: CITY_SPACING,
            min_city_slots_per_island: MIN_CITY_SLOTS_PER_ISLAND,
            ocean_min_size: OCEAN_MIN_SIZE,
            chunk_size: CHUNK_SIZE,
        }
    }
}

impl Default for WorldConfig {
    /// The default settings for a grid of side `MAP_SIZE`.
    fn default() -> (config: WorldConfig)
        ensures
            config == (WorldConfig {
                water_level: WATER,
                city_radius_tenths: CITY_RADIUS_TENTHS,
                city_spacing: CITY_SPACING,
                min_city_slots_per_island: MIN_CITY_SLOTS_PER_ISLAND,
                ocean_min_size: OCEAN_MIN_SIZE,
                chunk_size: CHUNK_SIZE,
            }),
    {
        WorldConfig::for_size(MAP_SIZE)
    }
}

} // verus!
