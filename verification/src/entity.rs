use vstd::prelude::*;

use crate::pixels::trunc_rem;
use crate::shift::ACTIVE_SIDE;
use crate::CELL_SIZE;

verus! {

/// Cells between the left edge of the active area and the window's first column.
pub const OFFSET_X: usize = 3;

/// Cells between the top edge of the active area and the window's first row.
pub const OFFSET_Y: usize = 4;

/// Quotient of `a` by `m > 0` rounded towards zero, as Rust's `/` computes it.
pub open spec fn trunc_div(a: int, m: int) -> int {
    if a >= 0 {
        a / m
    } else {
        -((-a) / m)
    }
}

/// The coordinate `v` within its cell, counted from the cell's left (or top) edge.
pub open spec fn within_cell(v: int) -> int {
    let r = trunc_rem(v, CELL_SIZE as int);
    if r < 0 {
        CELL_SIZE + r
    } else {
        r
    }
}

/// Index in the active area of the cell that a collision check at `(x, y)` reads.
pub open spec fn probe_cell(x: int, y: int) -> int {
    trunc_div(x, CELL_SIZE as int) + OFFSET_X + (trunc_div(y, CELL_SIZE as int) + OFFSET_Y) * ACTIVE_SIDE
}

/// Index in that cell's grid of the pixel that a collision check at `(x, y)` reads.
pub open spec fn probe_pixel(x: int, y: int) -> int {
    within_cell(x) + within_cell(y) * CELL_SIZE
}

/// The cell of the active area and the pixel within it that a collision check at
/// `(x, y)` reads, `(x, y)` being measured from the window's first cell; `None` when
/// the cell index would be negative.
pub fn collision_probe(x: i32, y: i32) -> (probe: Option<(usize, usize)>)
    ensures
        probe is None <==> probe_cell(x as int, y as int) < 0,
        probe matches Some((cell, pixel)) ==> cell == probe_cell(x as int, y as int) && pixel == probe_pixel(
            x as int,
            y as int,
        ),
{
    let mut in_cell_x = x % CELL_SIZE as i32;
    let mut in_cell_y = y % CELL_SIZE as i32;
    if in_cell_x < 0 {
        in_cell_x = CELL_SIZE as i32 + in_cell_x;
    }
    if in_cell_y < 0 {
        in_cell_y = CELL_SIZE as i32 + in_cell_y;
    }
    let cell_x = x / CELL_SIZE as i32 + OFFSET_X as i32;
    let cell_y = y / CELL_SIZE as i32 + OFFSET_Y as i32;
    let cell = cell_x + cell_y * ACTIVE_SIDE as i32;
    if cell < 0 {
        return None;
    }
    Some((cell as usize, in_cell_x as usize + (in_cell_y as usize) * CELL_SIZE))
}

} // verus!
