use vstd::prelude::*;

verus! {

/// Width of the simulation grid in cells.
pub const GRID_W: usize = 512;

/// Height of the simulation grid in cells.
pub const GRID_H: usize = 288;

/// Number of cells of the simulation grid.
pub const GRID_CELLS: usize = 147456;

/// Total colony size.
pub const ANT_COUNT: usize = 2000;

/// Ants respawned per respawn tick.
pub const ANT_RESPAWN_BATCH: usize = 20;

/// Frames an ant may stay blocked by walls before it is moved back to the nest.
pub const ANT_STUCK_THRESHOLD: u8 = 10;

/// Units of food in a fresh food source.
pub const FOOD_PER_SOURCE: u32 = 50;

/// Number of food cluster centres.
pub const FOOD_SOURCE_COUNT: usize = 4;

/// Food items per cluster.
pub const FOOD_CLUSTER_SIZE: usize = 8;

/// Minimum distance, in cells, from the nest to a food cluster centre.
pub const FOOD_MIN_NEST_DIST_CELLS: usize = 30;

/// Column of the grid's centre cell (the nest).
pub const CENTER_X: usize = GRID_W / 2;

/// Row of the grid's centre cell (the nest).
pub const CENTER_Y: usize = GRID_H / 2;

/// Chance, in percent, that an interior cell starts as wall in the cellular-automaton cave.
pub const CAVE_INITIAL_WALL_PERCENT: u32 = 45;

/// Number of interior cells of the grid (every cell off the outer ring).
pub const GRID_INTERIOR_CELLS: usize = 145860;

/// Number of cellular-automaton smoothing passes.
pub const CAVE_SMOOTH_ITERATIONS: usize = 3;

/// A cell with at least this many wall neighbours becomes wall.
pub const CAVE_BIRTH_LIMIT: u8 = 5;

/// A cell with fewer than this many wall neighbours becomes open.
pub const CAVE_DEATH_LIMIT: u8 = 2;

/// Thickness, in cells, of the solid rock band on every edge of the terrain.
pub const CAVE_BORDER_THICKNESS: usize = 4;

/// Radius, in cells, of the disc around the centre that the terrain always keeps open.
pub const CAVE_CENTER_EXCLUSION: usize = 35;

/// Flat row-major index of the cell at column `x`, row `y`.
pub open spec fn cell_index(x: int, y: int) -> int {
    y * GRID_W + x
}

/// Convert (x, y) grid coordinates to a flat row-major index.
pub fn idx(x: usize, y: usize) -> (i: usize)
    requires
        x < GRID_W,
        y < GRID_H,
    ensures
        i == cell_index(x as int, y as int),
        i < GRID_CELLS,
{
    y * GRID_W + x
}

} // verus!
