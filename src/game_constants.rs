use vstd::prelude::*;

verus! {

/// The state of one cell: `CELL_DEATH` or `CELL_LIVE`, nothing else.
pub type UniverseCell = u8;

/// A rectangular matrix of cells, indexed `[x][y]`: the outer vector holds the columns.
pub type UniversePlane = Vec<Vec<UniverseCell>>;

/// An ordered collection of planes.
pub type UniversePlaneSet = Vec<UniversePlane>;

pub const CELL_DEATH: UniverseCell = 0;

pub const CELL_LIVE: UniverseCell = 1;

pub const MIN_X: isize = 0;

pub const MAX_X: isize = 1023;

pub const MIN_Y: isize = 0;

pub const MAX_Y: isize = 1023;

/// Number of generations kept in the spacetime ring.
pub const HISTORY_SIZE: isize = 100;

pub const WORLD_SIZE_X: isize = MAX_X - MIN_X + 1;

pub const WORLD_SIZE_Y: isize = MAX_Y - MIN_Y + 1;

/// Number of cells in one generation.
pub const PLANE_SIZE: isize = 1048576;

/// Number of cells in the whole spacetime buffer.
pub const SPACE_TIME_SIZE: isize = 104857600;

/// Side of one cell, in pixels, when a snapshot is drawn.
pub const CELL_SIZE: usize = 4;

pub const ENGINE_LOOP_DELAY_MILLIS: u64 = 100;

pub const ENTROPY_LOOP_DELAY_MILLIS: u64 = 10000;

pub const API_PORT: u16 = 8080;

/// Whether `c` is one of the two cell states.
pub open spec fn is_cell(c: u8) -> bool {
    c == CELL_DEATH || c == CELL_LIVE
}

} // verus!
