use vstd::multiset::Multiset;
use vstd::prelude::*;

use crate::structs::{clamp_to_cell, grid_index, Cell, DirtyRect, Pixel};
use crate::{CELLS_PER_REGION, CELL_AMOUNT, CELL_SIZE, GRID_LEN};

verus! {

broadcast use {vstd::array::group_array_axioms, vstd::seq_lib::to_multiset_update};

/// Empty space.
pub const AIR: u8 = 0;

/// Falls and piles up.
pub const SAND: u8 = 1;

/// Stays where it is.
pub const ROCK: u8 = 2;

/// Falls and spreads sideways.
pub const WATER: u8 = 3;

/// Grows into empty space.
pub const PLANT: u8 = 4;

/// Number of materials; every material id is below it.
pub const MATERIAL_COUNT: u8 = 5;

/// Opacity of a material in the texture data.
pub open spec fn transparency_of(id: u8) -> u8 {
    if id == SAND { 255 } else if id == ROCK { 255 } else if id == WATER { 80 } else if id == PLANT { 255 } else { 0 }
}

/// How heavy a material is: a pixel only moves into a lighter one.
pub open spec fn density_of(id: u8) -> int {
    if id == SAND { 2 } else if id == ROCK { 3 } else if id == WATER { 1 } else if id == PLANT { 3 } else { 0 }
}

/// Above this roll (of 0 to 7) the sideways speed of a material grows.
pub open spec fn friction_of(id: u8) -> int {
    if id == SAND { 5 } else if id == ROCK { 2 } else if id == WATER { 5 } else { 0 }
}

/// Above this roll (of 0 to 7) the falling speed of a material grows.
pub open spec fn accel_of(id: u8) -> int {
    if id == SAND { 5 } else if id == WATER { 2 } else { 0 }
}

/// Opacity of material `id` in the texture data.
pub fn transparency(id: u8) -> (t: u8)
    requires
        id < MATERIAL_COUNT,
    ensures
        t == transparency_of(id),
{
    match id {
        0 => 0,
        1 => 255,
        2 => 255,
        3 => 80,
        _ => 255,
    }
}

fn density(id: u8) -> (d: isize)
    requires
        id < MATERIAL_COUNT,
    ensures
        d == density_of(id),
{
    match id {
        0 => 0,
        1 => 2,
        2 => 3,
        3 => 1,
        _ => 3,
    }
}

fn friction(id: u8) -> (f: isize)
    requires
        id < MATERIAL_COUNT,
    ensures
        f == friction_of(id),
{
    match id {
        0 => 0,
        1 => 5,
        2 => 2,
        3 => 5,
        _ => 0,
    }
}

fn accel(id: u8) -> (a: isize)
    requires
        id < MATERIAL_COUNT,
    ensures
        a == accel_of(id),
{
    match id {
        0 => 0,
        1 => 5,
        2 => 0,
        3 => 2,
        _ => 0,
    }
}

/// Remainder of `a` by `m > 0` with the sign of `a`, as Rust's `%` computes it.
pub open spec fn trunc_rem(a: int, m: int) -> int {
    if a >= 0 { a % m } else { -((-a) % m) }
}

impl Pixel {
    /// A known material, with speeds that stay clear of the `i8` limits.
    pub open spec fn wf(self) -> bool {
        &&& self.id < MATERIAL_COUNT
        &&& -64 < self.speed[0] < 64
        &&& -64 < self.speed[1] < 64
    }

    /// The pixel after one move attempt with roll `random`: each speed grows by one
    /// unless the material's friction (sideways) or acceleration (falling) beats the
    /// roll, and wraps at half a cell.
    pub open spec fn pushed(self, random: u8) -> Pixel {
        let roll = ((random / 25) % 8) as int;
        let side: int = if friction_of(self.id) > roll { 0 } else { 1 };
        let fall: int = if accel_of(self.id) > roll { 0 } else { 1 };
        Pixel {
            speed: [trunc_rem(self.speed[0] + side, 64) as i8, trunc_rem(self.speed[1] + fall, 64) as i8],
            ..self
        }
    }

    /// The pixel with its speed set to one step each way.
    pub open spec fn settled(self) -> Pixel {
        Pixel { speed: [1i8, 1i8], ..self }
    }
}

impl Cell {
    /// Rectangles inside the cell and every pixel well formed.
    pub open spec fn wf(self) -> bool {
        &&& self.rects_bounded()
        &&& forall|k: int| 0 <= k < GRID_LEN ==> (#[trigger] self.grid@[k]).wf()
    }

    /// The cell with pixel `k` replaced by `p`.
    pub open spec fn with_pixel(self, k: int, p: Pixel) -> Cell {
        Cell { grid: vstd::array::spec_array_update(self.grid, k, p), ..self }
    }

    /// The cell with both rectangles grown to take in `(x, y)`, clamped to the cell.
    pub open spec fn marked(self, x: int, y: int) -> Cell {
        Cell {
            rect: self.rect.including(clamp_to_cell(x), clamp_to_cell(y)),
            calculated_rect: self.calculated_rect.including(clamp_to_cell(x), clamp_to_cell(y)),
            ..self
        }
    }
}

/// The coordinate `v`, one cell over when it lies outside the cell.
pub open spec fn wrap_coord(v: int) -> int {
    if v < 0 {
        v + CELL_SIZE
    } else if v >= CELL_SIZE {
        v - CELL_SIZE
    } else {
        v
    }
}

/// The offset `(x2, y2)` from a pixel of cell `id` crosses the outer edge of the
/// window of cells.
pub open spec fn leaves_window(id: int, x2: int, y2: int) -> bool {
    ||| x2 < 0 && id % (CELL_AMOUNT as int) == 0
    ||| x2 >= CELL_SIZE && id % (CELL_AMOUNT as int) == CELL_AMOUNT - 1
    ||| y2 < 0 && id < CELL_AMOUNT
    ||| y2 >= CELL_SIZE && id == CELLS_PER_REGION - 1
}

/// The id of the cell that holds the offset `(x2, y2)` from a pixel of cell `id`.
pub open spec fn neighbour_id(id: int, x2: int, y2: int) -> int {
    id + (if x2 < 0 {
        -1int
    } else if x2 >= CELL_SIZE {
        1int
    } else {
        0int
    }) + (if y2 < 0 {
        -(CELL_AMOUNT as int)
    } else if y2 >= CELL_SIZE {
        CELL_AMOUNT as int
    } else {
        0int
    })
}

/// The target `(x2, y2)`, once moved into its cell, is a pixel of the grid.
pub open spec fn target_in_grid(x2: int, y2: int) -> bool {
    &&& 0 <= wrap_coord(x2)
    &&& 0 <= wrap_coord(y2)
    &&& grid_index(wrap_coord(x2), wrap_coord(y2)) < GRID_LEN
}

/// A move, growth or removal from pixel `(x1, y1)` of `cell` towards `(x2, y2)`
/// reads and writes only pixels and cells that exist.
pub open spec fn reach_in_bounds(cell: Cell, cells: Seq<Cell>, x1: int, y1: int, x2: int, y2: int) -> bool {
    let n = neighbour_id(cell.id as int, x2, y2);
    &&& cell.wf()
    &&& cell.id < CELLS_PER_REGION
    &&& 0 <= x1
    &&& 0 <= y1
    &&& grid_index(x1, y1) < GRID_LEN
    &&& !leaves_window(cell.id as int, x2, y2) && (n == cell.id || n < CELLS_PER_REGION) ==> target_in_grid(x2, y2)
    &&& !leaves_window(cell.id as int, x2, y2) && n != cell.id && n < CELLS_PER_REGION ==> n < cells.len() && cells[n].wf()
}

/// The cell id and the coordinates in that cell of the offset `(x2, y2)` from a
/// pixel of cell `id`, or `None` where it leaves the window of cells.
fn locate(id: usize, x2: isize, y2: isize) -> (target: Option<(usize, isize, isize)>)
    requires
        id < CELLS_PER_REGION,
    ensures
        target is None <==> leaves_window(id as int, x2 as int, y2 as int),
        target matches Some((n, x, y)) ==> {
            &&& n == neighbour_id(id as int, x2 as int, y2 as int)
            &&& x == wrap_coord(x2 as int)
            &&& y == wrap_coord(y2 as int)
        },
{
    let mut cell2id = id as isize;
    let mut x2 = x2;
    let mut y2 = y2;
    if x2 < 0 {
        if id % CELL_AMOUNT == 0 {
            return None;
        }
        x2 = CELL_SIZE as isize + x2;
        cell2id -= 1;
    } else if x2 >= CELL_SIZE as isize {
        if id % CELL_AMOUNT == CELL_AMOUNT - 1 {
            return None;
        }
        x2 -= CELL_SIZE as isize;
        cell2id += 1;
    }
    if y2 < 0 {
        if id < CELL_AMOUNT {
            return None;
        }
        y2 = CELL_SIZE as isize + y2;
        cell2id -= CELL_AMOUNT as isize;
    } else if y2 >= CELL_SIZE as isize {
        if id == CELL_AMOUNT * CELL_AMOUNT - 1 {
            return None;
        }
        y2 -= CELL_SIZE as isize;
        cell2id += CELL_AMOUNT as isize;
    }
    Some((cell2id as usize, x2, y2))
}

/// What `try_move` does: the pixel at `(x1, y1)` is pushed, then trades places with
/// the pixel at offset `(x2, y2)` (in this cell or the next one) when that one is
/// lighter; the pixel it displaces comes to rest. Gives whether it moved, the cell and
/// the window of cells.
pub open spec fn move_outcome(
    cell: Cell,
    cells: Seq<Cell>,
    x1: int,
    y1: int,
    x2: int,
    y2: int,
    random: u8,
) -> (bool, Cell, Seq<Cell>) {
    let p1 = grid_index(x1, y1);
    let pushed = cell.with_pixel(p1, cell.grid@[p1].pushed(random));
    let mover = pushed.grid@[p1];
    let n = neighbour_id(cell.id as int, x2, y2);
    let tx = wrap_coord(x2);
    let ty = wrap_coord(y2);
    let p2 = grid_index(tx, ty);
    if leaves_window(cell.id as int, x2, y2) {
        (false, pushed, cells)
    } else if n == cell.id {
        let target = pushed.grid@[p2];
        if density_of(target.id) < density_of(mover.id) {
            (true, pushed.with_pixel(p1, target.settled()).with_pixel(p2, mover).marked(tx, ty), cells)
        } else {
            (false, pushed, cells)
        }
    } else if n < CELLS_PER_REGION {
        let target = cells[n].grid@[p2];
        if density_of(target.id) < density_of(mover.id) {
            (
                true,
                pushed.with_pixel(p1, target.settled()),
                cells.update(n, cells[n].with_pixel(p2, mover).marked(tx, ty)),
            )
        } else {
            (false, pushed, cells)
        }
    } else {
        (false, pushed, cells)
    }
}

/// Pushes the pixel at `(x1, y1)` of `cell` and moves it by `(x2, y2)` when the
/// pixel there, in this cell or in its neighbour in `cells`, is lighter; the two
/// trade places. `cells` is the window of cells, indexed by cell id; the entry at
/// `cell.id` stands for `cell` itself and is left alone.
pub fn try_move(
    cell: &mut Cell,
    cells: &mut Vec<Cell>,
    x1: usize,
    y1: usize,
    x2: isize,
    y2: isize,
    random: u8,
) -> (moved: bool)
    requires
        reach_in_bounds(*old(cell), old(cells)@, x1 as int, y1 as int, x2 as int, y2 as int),
    ensures
        moved == move_outcome(*old(cell), old(cells)@, x1 as int, y1 as int, x2 as int, y2 as int, random).0,
        *final(cell) == move_outcome(*old(cell), old(cells)@, x1 as int, y1 as int, x2 as int, y2 as int, random).1,
        final(cells)@ == move_outcome(*old(cell), old(cells)@, x1 as int, y1 as int, x2 as int, y2 as int, random).2,
{
    let mut friction_on = true;
    let mut air_accel = true;
    let roll = random / 25;
    let p1 = y1 * CELL_SIZE + x1;
    if accel(cell.grid[p1].id) > roll as isize % 8 {
        air_accel = false;
    }
    if friction(cell.grid[p1].id) > roll as isize % 8 {
        friction_on = false;
    }
    proof {
        assert(old(cell).grid@[p1 as int].wf());
    }
    let fall: i8 = if air_accel { 1 } else { 0 };
    let side: i8 = if friction_on { 1 } else { 0 };
    cell.grid[p1].speed[1] = (cell.grid[p1].speed[1] + fall) % (CELL_SIZE / 2) as i8;
    cell.grid[p1].speed[0] = (cell.grid[p1].speed[0] + side) % (CELL_SIZE / 2) as i8;
    proof {
        let start = *old(cell);
        let want = start.grid@[p1 as int].pushed(random);
        assert(cell.grid@[p1 as int].speed[0] == want.speed[0]);
        assert(cell.grid@[p1 as int].speed[1] == want.speed[1]);
        assert(cell.grid@[p1 as int].speed =~= want.speed);
        assert(cell.grid@[p1 as int] == want);
        assert(cell.grid@ =~= start.grid@.update(p1 as int, start.grid@[p1 as int].pushed(random)));
        assert(cell.grid =~= vstd::array::spec_array_update(start.grid, p1 as int, want));
        assert(*cell == start.with_pixel(p1 as int, start.grid@[p1 as int].pushed(random)));
    }

    let (cell2id, x2, y2) = match locate(cell.id, x2, y2) {
        Some(target) => target,
        None => return false,
    };
    let x2 = x2 as usize;
    let y2 = y2 as usize;

    if cell2id == cell.id {
        let p2 = y2 * CELL_SIZE + x2;
        let density1 = density(cell.grid[p1].id);
        let density2 = density(cell.grid[p2].id);
        if density2 < density1 {
            let ghost before = *cell;
            cell.grid[p2].speed = [1, 1];
            let temp = cell.grid[p1];
            cell.grid[p1] = cell.grid[p2];
            cell.grid[p2] = temp;
            proof {
                let swapped = before.with_pixel(p1 as int, before.grid@[p2 as int].settled()).with_pixel(
                    p2 as int,
                    before.grid@[p1 as int],
                );
                assert(cell.grid@[p1 as int].speed =~= before.grid@[p2 as int].settled().speed);
                assert(cell.grid@ =~= swapped.grid@);
                assert(cell.grid =~= swapped.grid);
            }
            cell.rect_update(x2 as isize, y2 as isize);
            return true;
        }
    } else if cell2id < CELL_AMOUNT * CELL_AMOUNT {
        let p2 = y2 * CELL_SIZE + x2;
        let density1 = density(cell.grid[p1].id);
        let density2 = density(cells[cell2id].grid[p2].id);
        if density2 < density1 {
            let ghost before = *cell;
            let ghost window = cells@;
            cells[cell2id].grid[p2].speed = [1, 1];
            let temp = cell.grid[p1];
            cell.grid[p1] = cells[cell2id].grid[p2];
            cells[cell2id].grid[p2] = temp;
            proof {
                let target = window[cell2id as int].grid@[p2 as int];
                assert(cell.grid@[p1 as int].speed =~= target.settled().speed);
                assert(cell.grid@ =~= before.with_pixel(p1 as int, target.settled()).grid@);
                assert(cell.grid =~= before.with_pixel(p1 as int, target.settled()).grid);
                let c2 = window[cell2id as int].with_pixel(p2 as int, before.grid@[p1 as int]);
                assert(cells@[cell2id as int].grid@ =~= c2.grid@);
                assert(cells@[cell2id as int].grid =~= c2.grid);
            }
            cells[cell2id].rect_update(x2 as isize, y2 as isize);
            proof {
                let c2 = window[cell2id as int].with_pixel(p2 as int, before.grid@[p1 as int]).marked(
                    x2 as int,
                    y2 as int,
                );
                assert(cells@ =~= window.update(cell2id as int, c2));
            }
            return true;
        }
    }
    false
}

/// `a + b` wrapped around at 256.
pub open spec fn wrap_add_u8(a: u8, b: u8) -> u8 {
    (if a + b > 255 { a + b - 256 } else { a + b }) as u8
}

/// A plant pixel as `try_grow` copies it: each colour channel drifts by the roll
/// (`random % 32 - 16`), then red and blue are taken modulo 64 and green is brought
/// into `64..214`.
pub open spec fn grown(p: Pixel, random: u8) -> Pixel {
    let d = (random % 32) as int - 16;
    Pixel {
        color: [
            ((p.color[0] + d) as u8 % 64) as u8,
            ((p.color[1] + d) as u8 % 150 + 64) as u8,
            ((p.color[2] + d) as u8 % 64) as u8,
        ],
        ..p
    }
}

/// A plant pixel as `try_grow_destroy` copies it: red drifts by `random % 33 - 16`,
/// green by `random % 32 - 16` and then 64 more (wrapping at 256), blue by
/// `random % 31 - 16`.
pub open spec fn spread(p: Pixel, random: u8) -> Pixel {
    Pixel {
        color: [
            (p.color[0] + ((random % 33) as int - 16)) as u8,
            wrap_add_u8((p.color[1] + ((random % 32) as int - 16)) as u8, 64),
            (p.color[2] + ((random % 31) as int - 16)) as u8,
        ],
        ..p
    }
}

/// What `try_grow` does: when the pixel at offset `(x2, y2)` is air, the pixel at
/// `(x1, y1)` is copied there (with `grown` colours inside the same cell, unchanged
/// into a neighbour). Gives whether it grew, the cell and the window of cells.
pub open spec fn grow_outcome(
    cell: Cell,
    cells: Seq<Cell>,
    x1: int,
    y1: int,
    x2: int,
    y2: int,
    random: u8,
) -> (bool, Cell, Seq<Cell>) {
    let p1 = grid_index(x1, y1);
    let n = neighbour_id(cell.id as int, x2, y2);
    let tx = wrap_coord(x2);
    let ty = wrap_coord(y2);
    let p2 = grid_index(tx, ty);
    if leaves_window(cell.id as int, x2, y2) {
        (false, cell, cells)
    } else if n == cell.id {
        if cell.grid@[p2].id == AIR {
            (true, cell.with_pixel(p2, grown(cell.grid@[p1], random)).marked(tx, ty), cells)
        } else {
            (false, cell, cells)
        }
    } else if n < CELLS_PER_REGION {
        if cells[n].grid@[p2].id == AIR {
            (true, cell, cells.update(n, cells[n].with_pixel(p2, cell.grid@[p1]).marked(tx, ty)))
        } else {
            (false, cell, cells)
        }
    } else {
        (false, cell, cells)
    }
}

/// What `try_grow_destroy` does: when the pixel at offset `(x2, y2)` is air, the
/// pixel at `(x1, y1)` moves there (with `spread` colours inside the same cell,
/// unchanged into a neighbour) and leaves black air behind. Gives whether it moved,
/// the cell and the window of cells.
pub open spec fn grow_destroy_outcome(
    cell: Cell,
    cells: Seq<Cell>,
    x1: int,
    y1: int,
    x2: int,
    y2: int,
    random: u8,
) -> (bool, Cell, Seq<Cell>) {
    let p1 = grid_index(x1, y1);
    let n = neighbour_id(cell.id as int, x2, y2);
    let tx = wrap_coord(x2);
    let ty = wrap_coord(y2);
    let p2 = grid_index(tx, ty);
    let hole = Pixel::fresh(AIR, [0u8, 0u8, 0u8]);
    if leaves_window(cell.id as int, x2, y2) {
        (false, cell, cells)
    } else if n == cell.id {
        if cell.grid@[p2].id == AIR {
            (true, cell.with_pixel(p2, spread(cell.grid@[p1], random)).marked(tx, ty).with_pixel(p1, hole), cells)
        } else {
            (false, cell, cells)
        }
    } else if n < CELLS_PER_REGION {
        if cells[n].grid@[p2].id == AIR {
            (true, cell.with_pixel(p1, hole), cells.update(n, cells[n].with_pixel(p2, cell.grid@[p1]).marked(tx, ty)))
        } else {
            (false, cell, cells)
        }
    } else {
        (false, cell, cells)
    }
}

/// Copies the pixel at `(x1, y1)` of `cell` to offset `(x2, y2)` when that pixel,
/// in this cell or in its neighbour in `cells`, is air. Inside the cell the copy's
/// colours drift with `random`.
pub fn try_grow(
    cell: &mut Cell,
    cells: &mut Vec<Cell>,
    x1: usize,
    y1: usize,
    x2: isize,
    y2: isize,
    random: u8,
) -> (grew: bool)
    requires
        reach_in_bounds(*old(cell), old(cells)@, x1 as int, y1 as int, x2 as int, y2 as int),
    ensures
        grew == grow_outcome(*old(cell), old(cells)@, x1 as int, y1 as int, x2 as int, y2 as int, random).0,
        *final(cell) == grow_outcome(*old(cell), old(cells)@, x1 as int, y1 as int, x2 as int, y2 as int, random).1,
        final(cells)@ == grow_outcome(*old(cell), old(cells)@, x1 as int, y1 as int, x2 as int, y2 as int, random).2,
{
    let (cell2id, x2, y2) = match locate(cell.id, x2, y2) {
        Some(target) => target,
        None => return false,
    };
    let x2 = x2 as usize;
    let y2 = y2 as usize;
    let p1 = y1 * CELL_SIZE + x1;

    if cell2id == cell.id {
        let p2 = y2 * CELL_SIZE + x2;
        if cell.grid[p2].id == 0 {
            let ghost before = *cell;
            cell.grid[p2] = cell.grid[p1];
            cell.grid[p2].color[0] = (cell.grid[p2].color[0] as i32 + (random as i32 % 32 - 16)) as u8 % 64;
            cell.grid[p2].color[1] = (cell.grid[p2].color[1] as i32 + (random as i32 % 32 - 16)) as u8 % 150 + 64;
            cell.grid[p2].color[2] = (cell.grid[p2].color[2] as i32 + (random as i32 % 32 - 16)) as u8 % 64;
            proof {
                let want = grown(before.grid@[p1 as int], random);
                assert(cell.grid@[p2 as int].color =~= want.color);
                assert(cell.grid@ =~= before.with_pixel(p2 as int, want).grid@);
                assert(cell.grid =~= before.with_pixel(p2 as int, want).grid);
            }
            cell.rect_update(x2 as isize, y2 as isize);
            return true;
        }
    } else if cell2id < CELL_AMOUNT * CELL_AMOUNT {
        let p2 = y2 * CELL_SIZE + x2;
        if cells[cell2id].grid[p2].id == 0 {
            let ghost window = cells@;
            cells[cell2id].grid[p2] = cell.grid[p1];
            proof {
                let c2 = window[cell2id as int].with_pixel(p2 as int, cell.grid@[p1 as int]);
                assert(cells@[cell2id as int].grid@ =~= c2.grid@);
                assert(cells@[cell2id as int].grid =~= c2.grid);
            }
            cells[cell2id].rect_update(x2 as isize, y2 as isize);
            proof {
                let c2 = window[cell2id as int].with_pixel(p2 as int, cell.grid@[p1 as int]).marked(
                    x2 as int,
                    y2 as int,
                );
                assert(cells@ =~= window.update(cell2id as int, c2));
            }
            return true;
        }
    }
    false
}

/// Moves the pixel at `(x1, y1)` of `cell` to offset `(x2, y2)` when that pixel, in
/// this cell or in its neighbour in `cells`, is air, and leaves black air behind.
/// Inside the cell the moved pixel's colours drift with `random`.
pub fn try_grow_destroy(
    cell: &mut Cell,
    cells: &mut Vec<Cell>,
    x1: usize,
    y1: usize,
    x2: isize,
    y2: isize,
    random: u8,
) -> (moved: bool)
    requires
        reach_in_bounds(*old(cell), old(cells)@, x1 as int, y1 as int, x2 as int, y2 as int),
    ensures
        moved == grow_destroy_outcome(*old(cell), old(cells)@, x1 as int, y1 as int, x2 as int, y2 as int, random).0,
        *final(cell) == grow_destroy_outcome(
            *old(cell),
            old(cells)@,
            x1 as int,
            y1 as int,
            x2 as int,
            y2 as int,
            random,
        ).1,
        final(cells)@ == grow_destroy_outcome(
            *old(cell),
            old(cells)@,
            x1 as int,
            y1 as int,
            x2 as int,
            y2 as int,
            random,
        ).2,
{
    let (cell2id, x2, y2) = match locate(cell.id, x2, y2) {
        Some(target) => target,
        None => return false,
    };
    let x2 = x2 as usize;
    let y2 = y2 as usize;
    let p1 = y1 * CELL_SIZE + x1;

    if cell2id == cell.id {
        let p2 = y2 * CELL_SIZE + x2;
        if cell.grid[p2].id == 0 {
            let ghost before = *cell;
            cell.grid[p2] = cell.grid[p1];
            cell.grid[p2].color[0] = (cell.grid[p2].color[0] as i32 + (random as i32 % 33 - 16)) as u8;
            cell.grid[p2].color[1] = ((cell.grid[p2].color[1] as i32 + (random as i32 % 32 - 16)) as u8).wrapping_add(64);
            cell.grid[p2].color[2] = (cell.grid[p2].color[2] as i32 + (random as i32 % 31 - 16)) as u8;
            proof {
                let want = spread(before.grid@[p1 as int], random);
                assert(cell.grid@[p2 as int].color =~= want.color);
                assert(cell.grid@ =~= before.with_pixel(p2 as int, want).grid@);
                assert(cell.grid =~= before.with_pixel(p2 as int, want).grid);
            }
            cell.rect_update(x2 as isize, y2 as isize);
            let ghost marked = *cell;
            cell.grid[p1] = Pixel::new(0, [0, 0, 0]);
            proof {
                let hole = Pixel::fresh(AIR, [0u8, 0u8, 0u8]);
                assert(cell.grid@ =~= marked.with_pixel(p1 as int, hole).grid@);
                assert(cell.grid =~= marked.with_pixel(p1 as int, hole).grid);
            }
            return true;
        }
    } else if cell2id < CELL_AMOUNT * CELL_AMOUNT {
        let p2 = y2 * CELL_SIZE + x2;
        if cells[cell2id].grid[p2].id == 0 {
            let ghost window = cells@;
            let ghost before = *cell;
            cells[cell2id].grid[p2] = cell.grid[p1];
            proof {
                let c2 = window[cell2id as int].with_pixel(p2 as int, cell.grid@[p1 as int]);
                assert(cells@[cell2id as int].grid@ =~= c2.grid@);
                assert(cells@[cell2id as int].grid =~= c2.grid);
            }
            cells[cell2id].rect_update(x2 as isize, y2 as isize);
            proof {
                let c2 = window[cell2id as int].with_pixel(p2 as int, cell.grid@[p1 as int]).marked(
                    x2 as int,
                    y2 as int,
                );
                assert(cells@ =~= window.update(cell2id as int, c2));
            }
            cell.grid[p1] = Pixel::new(0, [0, 0, 0]);
            proof {
                let hole = Pixel::fresh(AIR, [0u8, 0u8, 0u8]);
                assert(cell.grid@ =~= before.with_pixel(p1 as int, hole).grid@);
                assert(cell.grid =~= before.with_pixel(p1 as int, hole).grid);
            }
            return true;
        }
    }
    false
}

/// The materials in a cell: how many of its pixels hold each material id.
pub open spec fn materials(c: Cell) -> Multiset<u8> {
    c.grid@.map_values(|p: Pixel| p.id).to_multiset()
}

/// Replacing pixel `k` by one of the same material keeps the materials; replacing it
/// by one of another material trades one for the other.
proof fn lemma_materials_with_pixel(c: Cell, k: int, p: Pixel)
    requires
        0 <= k < GRID_LEN,
    ensures
        materials(c.with_pixel(k, p)) == materials(c).insert(p.id).remove(c.grid@[k].id),
        c.with_pixel(k, p).grid@.map_values(|q: Pixel| q.id) == c.grid@.map_values(|q: Pixel| q.id).update(k, p.id),
{
    let ids = c.grid@.map_values(|q: Pixel| q.id);
    assert(c.with_pixel(k, p).grid@.map_values(|q: Pixel| q.id) =~= ids.update(k, p.id));
}

/// Two pixels trade places within a cell, `a` (from `p1`) and `b` (from `p2`): the
/// materials of the cell stay.
proof fn lemma_trade_within(c: Cell, p1: int, p2: int, a: Pixel, b: Pixel)
    requires
        0 <= p1 < GRID_LEN,
        0 <= p2 < GRID_LEN,
        p1 != p2,
        a.id == c.grid@[p1].id,
        b.id == c.grid@[p2].id,
    ensures
        materials(c.with_pixel(p1, b).with_pixel(p2, a)) == materials(c),
{
    let ids = c.grid@.map_values(|q: Pixel| q.id);
    lemma_materials_with_pixel(c, p1, b);
    let c1 = c.with_pixel(p1, b);
    lemma_materials_with_pixel(c1, p2, a);
    assert(c1.grid@[p2].id == b.id);
    assert(ids.to_multiset().count(a.id) > 0) by {
        assert(ids[p1] == a.id);
        vstd::seq_lib::to_multiset_contains(ids, a.id);
    }
    assert(materials(c).insert(b.id).remove(a.id).insert(a.id).remove(b.id) =~= materials(c));
}

/// A pixel of `c` at `p1` and one of `d` at `p2` trade places, `a` going into `d` and
/// `b` into `c`: the materials of the two cells together stay.
proof fn lemma_trade_between(c: Cell, d: Cell, p1: int, p2: int, a: Pixel, b: Pixel)
    requires
        0 <= p1 < GRID_LEN,
        0 <= p2 < GRID_LEN,
        a.id == c.grid@[p1].id,
        b.id == d.grid@[p2].id,
    ensures
        materials(c.with_pixel(p1, b)).add(materials(d.with_pixel(p2, a))) == materials(c).add(materials(d)),
{
    lemma_materials_with_pixel(c, p1, b);
    lemma_materials_with_pixel(d, p2, a);
    let ids_c = c.grid@.map_values(|q: Pixel| q.id);
    let ids_d = d.grid@.map_values(|q: Pixel| q.id);
    assert(ids_c.to_multiset().count(a.id) > 0) by {
        assert(ids_c[p1] == a.id);
        vstd::seq_lib::to_multiset_contains(ids_c, a.id);
    }
    assert(ids_d.to_multiset().count(b.id) > 0) by {
        assert(ids_d[p2] == b.id);
        vstd::seq_lib::to_multiset_contains(ids_d, b.id);
    }
    assert(materials(c).insert(b.id).remove(a.id).add(materials(d).insert(a.id).remove(b.id)) =~= materials(
        c,
    ).add(materials(d)));
}

/// A move keeps every material: unless the pixel moved into neighbour `n`, the
/// window is left as it was and the cell holds the same materials; when it did, the
/// cell and `n` together hold the same materials. No other cell of the window changes.
pub proof fn lemma_move_conserves_materials(
    cell: Cell,
    cells: Seq<Cell>,
    x1: int,
    y1: int,
    x2: int,
    y2: int,
    random: u8,
)
    requires
        reach_in_bounds(cell, cells, x1, y1, x2, y2),
    ensures
        ({
            let o = move_outcome(cell, cells, x1, y1, x2, y2, random);
            let n = neighbour_id(cell.id as int, x2, y2);
            &&& o.2.len() == cells.len()
            &&& forall|k: int| 0 <= k < cells.len() && k != n ==> #[trigger] o.2[k] == cells[k]
            &&& !o.0 || n == cell.id ==> o.2 == cells && materials(o.1) == materials(cell)
            &&& o.0 && n != cell.id ==> 0 <= n < cells.len() && materials(o.1).add(materials(o.2[n])) == materials(
                cell,
            ).add(materials(cells[n]))
        }),
{
    let o = move_outcome(cell, cells, x1, y1, x2, y2, random);
    let n = neighbour_id(cell.id as int, x2, y2);
    let p1 = grid_index(x1, y1);
    let pushed = cell.with_pixel(p1, cell.grid@[p1].pushed(random));
    lemma_materials_with_pixel(cell, p1, cell.grid@[p1].pushed(random));
    assert(materials(cell).insert(cell.grid@[p1].id).remove(cell.grid@[p1].id) =~= materials(cell)) by {
        let ids = cell.grid@.map_values(|q: Pixel| q.id);
        assert(ids[p1] == cell.grid@[p1].id);
        vstd::seq_lib::to_multiset_contains(ids, cell.grid@[p1].id);
    }
    if !leaves_window(cell.id as int, x2, y2) {
        let p2 = grid_index(wrap_coord(x2), wrap_coord(y2));
        if n == cell.id {
            if o.0 {
                lemma_trade_within(pushed, p1, p2, pushed.grid@[p1], pushed.grid@[p2].settled());
            }
        } else if n < CELLS_PER_REGION {
            if o.0 {
                lemma_trade_between(pushed, cells[n], p1, p2, pushed.grid@[p1], cells[n].grid@[p2].settled());
                assert(o.2[n] == cells[n].with_pixel(p2, pushed.grid@[p1]).marked(wrap_coord(x2), wrap_coord(y2)));
            }
        }
    }
}

/// A pixel of air at `p2` takes `moved`, of the material at `p1`, and `p1` turns to
/// air: the cell's materials stay.
proof fn lemma_spread_within(cell: Cell, p1: int, p2: int, moved: Pixel, tx: int, ty: int)
    requires
        0 <= p1 < GRID_LEN,
        0 <= p2 < GRID_LEN,
        cell.grid@[p2].id == AIR,
        moved.id == cell.grid@[p1].id,
    ensures
        materials(cell.with_pixel(p2, moved).marked(tx, ty).with_pixel(p1, Pixel::fresh(AIR, [0u8, 0u8, 0u8])))
            == materials(cell),
{
    let hole = Pixel::fresh(AIR, [0u8, 0u8, 0u8]);
    let c1 = cell.with_pixel(p2, moved).marked(tx, ty);
    let ids = cell.grid@.map_values(|q: Pixel| q.id);
    assert(c1.with_pixel(p1, hole).grid@ == cell.with_pixel(p2, moved).with_pixel(p1, hole).grid@);
    if p1 == p2 {
        assert(cell.with_pixel(p2, moved).with_pixel(p1, hole).grid@ =~= cell.with_pixel(p1, hole).grid@);
        lemma_materials_with_pixel(cell, p1, hole);
        assert(ids[p1] == AIR);
        vstd::seq_lib::to_multiset_contains(ids, AIR);
        assert(materials(cell).insert(AIR).remove(AIR) =~= materials(cell));
    } else {
        assert(cell.with_pixel(p2, moved).with_pixel(p1, hole).grid@ =~= cell.with_pixel(p1, hole).with_pixel(
            p2,
            moved,
        ).grid@);
        lemma_trade_within(cell, p1, p2, moved, hole);
    }
    assert(materials(c1.with_pixel(p1, hole)) == materials(cell.with_pixel(p2, moved).with_pixel(p1, hole)));
}

/// A plant that spreads moves: unless it moved into neighbour `n`, the window is left
/// as it was and the cell holds the same materials; when it did, the cell and `n`
/// together hold the same materials. No other cell of the window changes.
pub proof fn lemma_spread_conserves_materials(
    cell: Cell,
    cells: Seq<Cell>,
    x1: int,
    y1: int,
    x2: int,
    y2: int,
    random: u8,
)
    requires
        reach_in_bounds(cell, cells, x1, y1, x2, y2),
    ensures
        ({
            let o = grow_destroy_outcome(cell, cells, x1, y1, x2, y2, random);
            let n = neighbour_id(cell.id as int, x2, y2);
            &&& o.2.len() == cells.len()
            &&& forall|k: int| 0 <= k < cells.len() && k != n ==> #[trigger] o.2[k] == cells[k]
            &&& !o.0 || n == cell.id ==> o.2 == cells && materials(o.1) == materials(cell)
            &&& o.0 && n != cell.id ==> 0 <= n < cells.len() && materials(o.1).add(materials(o.2[n])) == materials(
                cell,
            ).add(materials(cells[n]))
        }),
{
    let o = grow_destroy_outcome(cell, cells, x1, y1, x2, y2, random);
    let n = neighbour_id(cell.id as int, x2, y2);
    let p1 = grid_index(x1, y1);
    let hole = Pixel::fresh(AIR, [0u8, 0u8, 0u8]);
    if !leaves_window(cell.id as int, x2, y2) {
        let tx = wrap_coord(x2);
        let ty = wrap_coord(y2);
        let p2 = grid_index(tx, ty);
        if n == cell.id {
            if o.0 {
                lemma_spread_within(cell, p1, p2, spread(cell.grid@[p1], random), tx, ty);
            }
        } else if n < CELLS_PER_REGION {
            if o.0 {
                lemma_trade_between(cell, cells[n], p1, p2, cell.grid@[p1], hole);
                assert(o.2[n] == cells[n].with_pixel(p2, cell.grid@[p1]).marked(tx, ty));
            }
        }
    }
}

/// The offset `(x2, y2)` from a pixel of cell `id` lands on a pixel of the window:
/// it does not cross the window's outer edge and its cell is one of the window's.
pub open spec fn target_in_window(id: int, x2: int, y2: int) -> bool {
    !leaves_window(id, x2, y2) && (neighbour_id(id, x2, y2) == id || neighbour_id(id, x2, y2) < CELLS_PER_REGION)
}

/// The pixel at offset `(x2, y2)` from a pixel of `cell`: in `cell` itself, or in the
/// neighbouring cell of the window `cells` that holds it.
pub open spec fn pixel_at_offset(cell: Cell, cells: Seq<Cell>, x2: int, y2: int) -> Pixel {
    let n = neighbour_id(cell.id as int, x2, y2);
    let p2 = grid_index(wrap_coord(x2), wrap_coord(y2));
    if n == cell.id {
        cell.grid@[p2]
    } else {
        cells[n].grid@[p2]
    }
}

/// A move only ever displaces a strictly lighter pixel, and it fails only where
/// there is no such pixel: when the pixel at `(x1, y1)` moves, the pixel at the
/// target lay in the window and was lighter than the mover, the mover now sits at
/// the target and the displaced pixel at `(x1, y1)`; when it does not move, the
/// window is unchanged, the cell keeps every material in place, and a target in the
/// window was at least as heavy as the mover.
pub proof fn lemma_move_displaces_only_lighter(
    cell: Cell,
    cells: Seq<Cell>,
    x1: int,
    y1: int,
    x2: int,
    y2: int,
    random: u8,
)
    requires
        reach_in_bounds(cell, cells, x1, y1, x2, y2),
    ensures
        ({
            let o = move_outcome(cell, cells, x1, y1, x2, y2, random);
            let p1 = grid_index(x1, y1);
            let mover = cell.grid@[p1];
            let target = pixel_at_offset(cell, cells, x2, y2);
            let n = neighbour_id(cell.id as int, x2, y2);
            let p2 = grid_index(wrap_coord(x2), wrap_coord(y2));
            &&& o.0 ==> target_in_window(cell.id as int, x2, y2) && density_of(target.id) < density_of(mover.id)
            &&& o.0 ==> o.1.grid@[p1].id == target.id
            &&& o.0 && n == cell.id ==> o.1.grid@[p2].id == mover.id
            &&& o.0 && n != cell.id ==> o.2[n].grid@[p2].id == mover.id
            &&& !o.0 ==> o.2 == cells && o.1.id == cell.id && forall|k: int|
                0 <= k < GRID_LEN ==> #[trigger] o.1.grid@[k].id == cell.grid@[k].id
            &&& !o.0 && target_in_window(cell.id as int, x2, y2) ==> density_of(target.id) >= density_of(mover.id)
        }),
{
    let p1 = grid_index(x1, y1);
    let p2 = grid_index(wrap_coord(x2), wrap_coord(y2));
    let o = move_outcome(cell, cells, x1, y1, x2, y2, random);
    let n = neighbour_id(cell.id as int, x2, y2);
    let pushed = cell.with_pixel(p1, cell.grid@[p1].pushed(random));
    assert(pushed.grid@[p1].id == cell.grid@[p1].id);
    if !leaves_window(cell.id as int, x2, y2) && n == cell.id {
        assert(0 <= p2 < GRID_LEN);
        assert(pushed.grid@[p2].id == cell.grid@[p2].id);
        if o.0 && p1 != p2 {
            assert(o.1.grid@[p2].id == cell.grid@[p1].id);
        }
    }
    if !o.0 {
        assert forall|k: int| 0 <= k < GRID_LEN implies #[trigger] o.1.grid@[k].id == cell.grid@[k].id by {
            assert(o.1 == pushed);
        }
    }
}

} // verus!
