//! Falling-sand world simulation: pixels, cells of pixels, regions of cells,
//! and the bookkeeping that keeps a moving window of cells in view.

use vstd::prelude::*;

pub mod cell_update;
pub mod drawing;
pub mod entity;
pub mod pixels;
pub mod random;
pub mod shared;
pub mod shift;
pub mod structs;

verus! {

/// Number of cells along one side of a region (and of the window in view).
pub const CELL_AMOUNT: usize = 10;

/// Number of regions along one side of the loaded world.
pub const REGION_AMOUNT: usize = 5;

/// Number of regions along one side of the active area.
pub const ACTIVE_REGS: usize = 3;

/// Number of pixels along one side of a cell.
pub const CELL_SIZE: usize = 128;

/// Bytes per pixel in a cell's texture data.
pub const PITCH_SIZE: usize = 4;

/// Bytes per row in a cell's texture data.
pub const PITCH: usize = 512;

/// Bytes of texture data in one cell.
pub const PIXEL_DATA_SIZE: usize = 65536;

/// Pixels in one cell.
pub const GRID_LEN: usize = 16384;

/// Cells in one region (and in the window in view).
pub const CELLS_PER_REGION: usize = 100;

} // verus!
