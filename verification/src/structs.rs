use vstd::prelude::*;

use std::sync::{Arc, Mutex};

use crate::pixels::{wrap_add_u8, MATERIAL_COUNT};
use crate::shift::REGION_COUNT;
use crate::{CELLS_PER_REGION, CELL_AMOUNT, CELL_SIZE, GRID_LEN, PIXEL_DATA_SIZE, PITCH, PITCH_SIZE, REGION_AMOUNT};

verus! {

broadcast use vstd::array::group_array_axioms;

/// The smaller of two integers.
pub open spec fn min_int(a: int, b: int) -> int {
    if a <= b { a } else { b }
}

/// The larger of two integers.
pub open spec fn max_int(a: int, b: int) -> int {
    if a >= b { a } else { b }
}

/// A coordinate pulled into the closed range `0..=CELL_SIZE`.
pub open spec fn clamp_to_cell(v: int) -> int {
    if v < 0 {
        0
    } else if v > CELL_SIZE {
        CELL_SIZE as int
    } else {
        v
    }
}

/// The part of a cell that changed and still has to be simulated or redrawn.
#[derive(Clone, Copy)]
pub struct DirtyRect {
    pub x1: usize,
    pub y1: usize,
    pub x2: usize,
    pub y2: usize,
}

impl DirtyRect {
    /// Every bound lies inside the cell.
    pub open spec fn bounded(self) -> bool {
        &&& self.x1 <= CELL_SIZE
        &&& self.y1 <= CELL_SIZE
        &&& self.x2 <= CELL_SIZE
        &&& self.y2 <= CELL_SIZE
    }

    /// The rectangle that spans the whole cell.
    pub open spec fn whole_cell() -> DirtyRect {
        DirtyRect { x1: 0, y1: 0, x2: CELL_SIZE, y2: CELL_SIZE }
    }

    /// The rectangle grown so that it takes in the point `(x, y)`. An axis whose two
    /// bounds add up to 0 counts as unset: its lower bound restarts at the point.
    pub open spec fn including(self, x: int, y: int) -> DirtyRect {
        DirtyRect {
            x1: (if self.x1 + self.x2 == 0 { x } else { min_int(self.x1 as int, x) }) as usize,
            x2: max_int(self.x2 as int, x) as usize,
            y1: (if self.y1 + self.y2 == 0 { y } else { min_int(self.y1 as int, y) }) as usize,
            y2: max_int(self.y2 as int, y) as usize,
        }
    }

    /// The rectangle widened by `dx` and `dy` on every side, cut back to the cell.
    pub open spec fn widened(self, dx: isize, dy: isize) -> DirtyRect {
        DirtyRect {
            x1: max_int(self.x1 - dx, 0) as usize,
            x2: min_int(self.x2 + (dx as usize), CELL_SIZE as int) as usize,
            y1: max_int(self.y1 - dy, 0) as usize,
            y2: min_int(self.y2 + (dy as usize), CELL_SIZE as int) as usize,
        }
    }

    /// `widened` does not overflow on this rectangle.
    pub open spec fn can_widen(self, dx: isize, dy: isize) -> bool {
        &&& self.x2 + (dx as usize) <= usize::MAX
        &&& self.y2 + (dy as usize) <= usize::MAX
        &&& self.x1 - dx <= isize::MAX
        &&& self.y1 - dy <= isize::MAX
    }
}

/// A rectangle grown to take in a point of the cell covers that point, and a
/// rectangle that was already set (on each axis) only grows.
pub proof fn lemma_including_covers(r: DirtyRect, x: int, y: int)
    requires
        r.bounded(),
        0 <= x <= CELL_SIZE,
        0 <= y <= CELL_SIZE,
    ensures
        r.including(x, y).x1 <= x <= r.including(x, y).x2,
        r.including(x, y).y1 <= y <= r.including(x, y).y2,
        r.including(x, y).bounded(),
        r.x1 + r.x2 != 0 ==> r.including(x, y).x1 <= r.x1 && r.x2 <= r.including(x, y).x2,
        r.y1 + r.y2 != 0 ==> r.including(x, y).y1 <= r.y1 && r.y2 <= r.including(x, y).y2,
{
}

/// One pixel of the world.
#[derive(Clone, Copy)]
pub struct Pixel {
    pub id: u8,
    pub color: [u8; 3],
    pub speed: [i8; 2],
    pub iteration: u8,
    pub temperature: i8,
}

impl Pixel {
    /// A resting pixel of material `id` and colour `color`.
    pub open spec fn fresh(id: u8, color: [u8; 3]) -> Pixel {
        Pixel { id: id, color: color, speed: [0i8, 0i8], iteration: 0, temperature: 0 }
    }

    /// A resting pixel of material `new_id` and colour `color_new`.
    pub fn new(new_id: u8, color_new: [u8; 3]) -> (p: Pixel)
        ensures
            p == Pixel::fresh(new_id, color_new),
    {
        Pixel { id: new_id, color: color_new, speed: [0, 0], iteration: 0, temperature: 0 }
    }
}

/// A square of `CELL_SIZE` by `CELL_SIZE` pixels, with the texture bytes drawn from
/// them and the rectangles of it that are still active.
#[derive(Clone, Copy)]
pub struct Cell {
    pub id: usize,
    pub pixel_data: [u8; PIXEL_DATA_SIZE],
    pub grid: [Pixel; GRID_LEN],
    pub rect: DirtyRect,
    pub calculated_rect: DirtyRect,
}

/// Index of the pixel at column `x`, row `y` of a cell's grid.
pub open spec fn grid_index(x: int, y: int) -> int {
    y * CELL_SIZE + x
}

/// Index of the first texture byte of the pixel at column `x`, row `y`.
pub open spec fn data_index(x: int, y: int) -> int {
    y * PITCH + x * PITCH_SIZE
}

impl Cell {
    /// Both rectangles lie inside the cell.
    pub open spec fn rects_bounded(self) -> bool {
        self.rect.bounded() && self.calculated_rect.bounded()
    }

    /// A cell as `Cell::new` makes it.
    pub open spec fn is_fresh(self, id: usize) -> bool {
        &&& self.id == id
        &&& forall|k: int| 0 <= k < PIXEL_DATA_SIZE ==> #[trigger] self.pixel_data@[k] == 70
        &&& forall|k: int| 0 <= k < GRID_LEN ==> #[trigger] self.grid@[k] == Pixel::fresh(0, [70u8, 70u8, 70u8])
        &&& self.rect == DirtyRect::whole_cell()
        &&& self.calculated_rect == DirtyRect::whole_cell()
    }

    /// Grows both rectangles to take in `(x, y)`, clamped to the cell.
    pub fn rect_update(&mut self, x: isize, y: isize)
        requires
            old(self).rects_bounded(),
        ensures
            final(self).rects_bounded(),
            final(self).rect == old(self).rect.including(clamp_to_cell(x as int), clamp_to_cell(y as int)),
            final(self).calculated_rect == old(self).calculated_rect.including(
                clamp_to_cell(x as int),
                clamp_to_cell(y as int),
            ),
            final(self).id == old(self).id,
            final(self).grid == old(self).grid,
            final(self).pixel_data == old(self).pixel_data,
    {
        let x: usize = if x < 0 {
            0
        } else if x as usize > CELL_SIZE {
            CELL_SIZE
        } else {
            x as usize
        };
        let y: usize = if y < 0 {
            0
        } else if y as usize > CELL_SIZE {
            CELL_SIZE
        } else {
            y as usize
        };
        self.rect = include_point(self.rect, x, y);
        self.calculated_rect = include_point(self.calculated_rect, x, y);
    }

    /// Widens both rectangles by `x` and `y` on every side, cut back to the cell.
    pub fn rect_resize(&mut self, x: isize, y: isize)
        requires
            old(self).rects_bounded(),
            old(self).rect.can_widen(x, y),
            old(self).calculated_rect.can_widen(x, y),
        ensures
            x >= 0 && y >= 0 ==> final(self).rects_bounded(),
            final(self).rect == old(self).rect.widened(x, y),
            final(self).calculated_rect == old(self).calculated_rect.widened(x, y),
            final(self).id == old(self).id,
            final(self).grid == old(self).grid,
            final(self).pixel_data == old(self).pixel_data,
    {
        let cal_x1 = self.calculated_rect.x1 as isize - x;
        let cal_y1 = self.calculated_rect.y1 as isize - y;
        let rect_x1 = self.rect.x1 as isize - x;
        let rect_y1 = self.rect.y1 as isize - y;

        self.calculated_rect.x2 += x as usize;
        self.calculated_rect.y2 += y as usize;
        self.rect.x2 += x as usize;
        self.rect.y2 += y as usize;

        self.calculated_rect.x1 = if cal_x1 < 0 { 0 } else { cal_x1 as usize };
        self.calculated_rect.x2 = if self.calculated_rect.x2 < CELL_SIZE { self.calculated_rect.x2 } else { CELL_SIZE };
        self.calculated_rect.y1 = if cal_y1 < 0 { 0 } else { cal_y1 as usize };
        self.calculated_rect.y2 = if self.calculated_rect.y2 < CELL_SIZE { self.calculated_rect.y2 } else { CELL_SIZE };
        self.rect.x1 = if rect_x1 < 0 { 0 } else { rect_x1 as usize };
        self.rect.x2 = if self.rect.x2 < CELL_SIZE { self.rect.x2 } else { CELL_SIZE };
        self.rect.y1 = if rect_y1 < 0 { 0 } else { rect_y1 as usize };
        self.rect.y2 = if self.rect.y2 < CELL_SIZE { self.rect.y2 } else { CELL_SIZE };
    }

    /// The cell after `place_pixel(x, y, id, color)`: a fresh pixel at `(x, y)`, its
    /// colour in the first three texture bytes of the pixel (the fourth stays), and
    /// both rectangles grown to take in `(x - 1, y - 1)` and then `(x + 1, y + 1)`,
    /// clamped to the cell.
    pub open spec fn placed(self, x: int, y: int, id: u8, color: [u8; 3]) -> Cell {
        let b = data_index(x, y);
        Cell {
            grid: vstd::array::spec_array_update(self.grid, grid_index(x, y), Pixel::fresh(id, color)),
            pixel_data: vstd::array::spec_array_update(
                vstd::array::spec_array_update(vstd::array::spec_array_update(self.pixel_data, b, color[0]), b + 1, color[1]),
                b + 2,
                color[2],
            ),
            rect: self.rect.including(clamp_to_cell(x - 1), clamp_to_cell(y - 1)).including(
                clamp_to_cell(x + 1),
                clamp_to_cell(y + 1),
            ),
            calculated_rect: self.calculated_rect.including(clamp_to_cell(x - 1), clamp_to_cell(y - 1)).including(
                clamp_to_cell(x + 1),
                clamp_to_cell(y + 1),
            ),
            ..self
        }
    }

    /// Puts a fresh pixel of material `id` and colour `color` at `(x, y)`, writes its
    /// colour into the texture data and marks the pixels around it dirty.
    pub fn place_pixel(&mut self, x: usize, y: usize, id: u8, color: [u8; 3])
        requires
            old(self).rects_bounded(),
            grid_index(x as int, y as int) < GRID_LEN,
        ensures
            *final(self) == old(self).placed(x as int, y as int, id, color),
            final(self).rects_bounded(),
    {
        self.rect_update(x as isize - 1, y as isize - 1);
        self.rect_update(x as isize + 1, y as isize + 1);
        let g = y * CELL_SIZE + x;
        self.grid[g] = Pixel::new(id, color);
        let b = y * PITCH + x * PITCH_SIZE;
        self.pixel_data[b] = self.grid[g].color[0];
        self.pixel_data[b + 1] = self.grid[g].color[1];
        self.pixel_data[b + 2] = self.grid[g].color[2];
        proof {
            let want = old(self).placed(x as int, y as int, id, color);
            assert(self.grid@ =~= want.grid@);
            assert(self.grid =~= want.grid);
            assert(self.pixel_data@ =~= want.pixel_data@);
            assert(self.pixel_data =~= want.pixel_data);
        }
    }

    /// A cell with every pixel grey air and both rectangles spanning it.
    pub fn new(new_id: usize) -> (c: Cell)
        ensures
            c.is_fresh(new_id),
            c.rects_bounded(),
    {
        let pixel = Pixel::new(0, [70, 70, 70]);
        Cell {
            id: new_id,
            pixel_data: [70u8; PIXEL_DATA_SIZE],
            grid: [pixel; GRID_LEN],
            rect: DirtyRect { x1: 0, y1: 0, x2: CELL_SIZE, y2: CELL_SIZE },
            calculated_rect: DirtyRect { x1: 0, y1: 0, x2: CELL_SIZE, y2: CELL_SIZE },
        }
    }
}

/// `r` grown to take in the point `(x, y)`.
fn include_point(r: DirtyRect, x: usize, y: usize) -> (res: DirtyRect)
    requires
        r.bounded(),
        x <= CELL_SIZE,
        y <= CELL_SIZE,
    ensures
        res == r.including(x as int, y as int),
        res.bounded(),
{
    let x1 = if r.x1 + r.x2 == 0 { x } else { r.x1 };
    let y1 = if r.y1 + r.y2 == 0 { y } else { r.y1 };
    DirtyRect {
        x1: if x < x1 { x } else { x1 },
        x2: if x > r.x2 { x } else { r.x2 },
        y1: if y < y1 { y } else { y1 },
        y2: if y > r.y2 { y } else { r.y2 },
    }
}

/// Pixels along one side of the square rock texture.
pub const TEXTURE_SIZE: usize = 32;

/// Bytes the rock texture must hold: up to the blue byte of its last texel.
pub const TEXTURE_BYTES: usize = 4095;

/// The world's y coordinate below which cells are filled with terrain.
pub const GROUND_LEVEL: i32 = 1280;

/// What the noise gave for one pixel of a cell: `kind` picks the material (taken
/// modulo 3) and `shade` its colour.
#[derive(Clone, Copy)]
pub struct TerrainSample {
    pub kind: u8,
    pub shade: u8,
}

/// World coordinates of the first pixel of the cell at `cell_position` within the
/// region at `region_position`.
pub open spec fn world_origin_of(region_position: [i32; 2], cell_position: [i32; 2]) -> (int, int) {
    (
        (cell_position[0] + region_position[0] * CELL_AMOUNT) * CELL_SIZE,
        (cell_position[1] + region_position[1] * CELL_AMOUNT) * CELL_SIZE,
    )
}

/// `v` is a value of `i32`.
pub open spec fn fits_i32(v: int) -> bool {
    i32::MIN <= v <= i32::MAX
}

/// Computing `world_origin_of` in `i32` does not overflow.
pub open spec fn origin_fits(region_position: [i32; 2], cell_position: [i32; 2]) -> bool {
    &&& fits_i32(region_position[0] * CELL_AMOUNT)
    &&& fits_i32(cell_position[0] + region_position[0] * CELL_AMOUNT)
    &&& fits_i32((cell_position[0] + region_position[0] * CELL_AMOUNT) * CELL_SIZE)
    &&& fits_i32(region_position[1] * CELL_AMOUNT)
    &&& fits_i32(cell_position[1] + region_position[1] * CELL_AMOUNT)
    &&& fits_i32((cell_position[1] + region_position[1] * CELL_AMOUNT) * CELL_SIZE)
}

/// World coordinates of the first pixel of the cell at `cell_position` within the
/// region at `region_position`.
pub fn world_origin(region_position: [i32; 2], cell_position: [i32; 2]) -> (origin: [i32; 2])
    requires
        origin_fits(region_position, cell_position),
    ensures
        origin[0] == world_origin_of(region_position, cell_position).0,
        origin[1] == world_origin_of(region_position, cell_position).1,
{
    [
        (cell_position[0] + region_position[0] * CELL_AMOUNT as i32) * CELL_SIZE as i32,
        (cell_position[1] + region_position[1] * CELL_AMOUNT as i32) * CELL_SIZE as i32,
    ]
}

/// Index of the first byte of the texel under pixel `k` of a cell: the texture
/// repeats every `TEXTURE_SIZE` pixels.
pub open spec fn texel_index(k: int) -> int {
    ((k % CELL_SIZE as int) % TEXTURE_SIZE as int + ((k / CELL_SIZE as int) % TEXTURE_SIZE as int) * TEXTURE_SIZE) * PITCH_SIZE
}

/// Pixel `k` of a cell below ground: its material is `kind % 3`; sand is a pale
/// colour lit by the shade, rock is the texture brightened by the shade, anything
/// else is grey. Speeds and the other fields stay.
pub open spec fn terrain_pixel(old: Pixel, k: int, sample: TerrainSample, texture: Seq<u8>) -> Pixel {
    let id = sample.kind % 3;
    let saturation = sample.shade / 4;
    let t = texel_index(k);
    let color: [u8; 3] = if id == 1 {
        [(120 + saturation) as u8, 200u8, 200u8]
    } else if id == 2 {
        [
            wrap_add_u8(texture[t], saturation / 4),
            wrap_add_u8(texture[t + 1], saturation / 4),
            wrap_add_u8(texture[t + 2], saturation / 4),
        ]
    } else if id == 3 {
        [200u8, 0u8, 0u8]
    } else {
        [70u8, 70u8, 70u8]
    };
    Pixel { id: id, color: color, ..old }
}

/// `after` is `before` filled with terrain as the cell at `cell_position` of the
/// region at `region_position`: below ground (world `y` above `GROUND_LEVEL`) each
/// pixel `k` becomes `terrain_pixel` of its sample `terrain[k]` and the texture, above
/// ground each pixel becomes black air; the id, texture data and rectangles stay.
pub open spec fn generated_from(
    before: Cell,
    after: Cell,
    region_position: [i32; 2],
    cell_position: [i32; 2],
    texture: Seq<u8>,
    terrain: Seq<TerrainSample>,
) -> bool {
    &&& after.id == before.id
    &&& after.pixel_data == before.pixel_data
    &&& after.rect == before.rect
    &&& after.calculated_rect == before.calculated_rect
    &&& world_origin_of(region_position, cell_position).1 > GROUND_LEVEL ==> forall|k: int|
        0 <= k < GRID_LEN ==> #[trigger] after.grid@[k] == terrain_pixel(before.grid@[k], k, terrain[k], texture)
    &&& world_origin_of(region_position, cell_position).1 <= GROUND_LEVEL ==> forall|k: int|
        0 <= k < GRID_LEN ==> #[trigger] after.grid@[k] == Pixel::fresh(0, [0u8, 0u8, 0u8])
}

/// `after` is a cell as `Cell::new(id)` makes it, filled with terrain as `Cell::generate`
/// fills it (see `generated_from`): id `id`, every texture byte 70, both rectangles
/// the whole cell, and each pixel `terrain_pixel` of a grey air pixel below ground or
/// black air above it.
pub open spec fn fresh_generated(
    after: Cell,
    id: int,
    region_position: [i32; 2],
    cell_position: [i32; 2],
    texture: Seq<u8>,
    terrain: Seq<TerrainSample>,
) -> bool {
    &&& after.id == id
    &&& forall|k: int| 0 <= k < PIXEL_DATA_SIZE ==> #[trigger] after.pixel_data@[k] == 70
    &&& after.rect == DirtyRect::whole_cell()
    &&& after.calculated_rect == DirtyRect::whole_cell()
    &&& world_origin_of(region_position, cell_position).1 > GROUND_LEVEL ==> forall|k: int|
        0 <= k < GRID_LEN ==> #[trigger] after.grid@[k] == terrain_pixel(
            Pixel::fresh(0, [70u8, 70u8, 70u8]),
            k,
            terrain[k],
            texture,
        )
    &&& world_origin_of(region_position, cell_position).1 <= GROUND_LEVEL ==> forall|k: int|
        0 <= k < GRID_LEN ==> #[trigger] after.grid@[k] == Pixel::fresh(0, [0u8, 0u8, 0u8])
}

impl Cell {
    /// Fills the cell with terrain, or with black air when it lies above ground
    /// (`world_origin` y at most `GROUND_LEVEL`). Below ground each pixel takes its
    /// material and colour from its sample in `terrain` and the rock texture in
    /// `texture_data`; its speeds stay.
    pub fn generate(
        &mut self,
        region_position: [i32; 2],
        cell_position: [i32; 2],
        texture_data: &Vec<u8>,
        terrain: &Vec<TerrainSample>,
    )
        requires
            origin_fits(region_position, cell_position),
            world_origin_of(region_position, cell_position).1 > GROUND_LEVEL ==> terrain.len() >= GRID_LEN
                && texture_data.len() >= TEXTURE_BYTES,
        ensures
            generated_from(*old(self), *final(self), region_position, cell_position, texture_data@, terrain@),
            old(self).wf() ==> final(self).wf(),
    {
        let world_position = world_origin(region_position, cell_position);
        if world_position[1] > (CELL_AMOUNT * CELL_SIZE) as i32 {
            let mut k: usize = 0;
            while k < GRID_LEN
                invariant
                    k <= GRID_LEN,
                    terrain.len() >= GRID_LEN,
                    texture_data.len() >= TEXTURE_BYTES,
                    self.id == old(self).id,
                    self.pixel_data == old(self).pixel_data,
                    self.rect == old(self).rect,
                    self.calculated_rect == old(self).calculated_rect,
                    forall|j: int| 0 <= j < k ==> #[trigger] self.grid@[j] == terrain_pixel(
                        old(self).grid@[j],
                        j,
                        terrain@[j],
                        texture_data@,
                    ),
                    forall|j: int| k <= j < GRID_LEN ==> #[trigger] self.grid@[j] == old(self).grid@[j],
                decreases GRID_LEN - k,
            {
                let x = k % CELL_SIZE;
                let y = k / CELL_SIZE;
                let texture_position = (x % TEXTURE_SIZE + (y % TEXTURE_SIZE) * TEXTURE_SIZE) * PITCH_SIZE;
                let id = terrain[k].kind % 3;
                let mut color: [u8; 3] = [70, 70, 70];
                let mut saturation = terrain[k].shade / 4;
                if id == 1 {
                    color = [120 + saturation, 200, 200];
                } else if id == 2 {
                    saturation = saturation / 4;
                    color[2] = texture_data[texture_position + 2].wrapping_add(saturation);
                    color[1] = texture_data[texture_position + 1].wrapping_add(saturation);
                    color[0] = texture_data[texture_position].wrapping_add(saturation);
                } else if id == 3 {
                    color = [200, 0, 0];
                }
                self.grid[k].id = id;
                self.grid[k].color = color;
                proof {
                    let want = terrain_pixel(old(self).grid@[k as int], k as int, terrain@[k as int], texture_data@);
                    assert(texture_position == texel_index(k as int));
                    assert(self.grid@[k as int].color =~= want.color);
                }
                k += 1;
            }
        } else {
            self.grid = [Pixel::new(0, [0, 0, 0]); GRID_LEN];
        }
        proof {
            if old(self).wf() {
                assert forall|j: int| 0 <= j < GRID_LEN implies (#[trigger] self.grid@[j]).wf() by {
                    assert(old(self).grid@[j].wf());
                }
            }
        }
    }
}

/// A square of `CELL_AMOUNT` by `CELL_AMOUNT` cells of the world, shared with the
/// threads that simulate them.
#[derive(Clone)]
pub struct Region {
    pub id: usize,
    pub generated: bool,
    pub biome_changed: bool,
    pub biome: u32,
    pub cell_to_generate: usize,
    pub position: [i32; 2],
    pub cells: Vec<Arc<Mutex<Cell>>>,
}

/// Position of cell `i` within its region: column, then row.
pub open spec fn cell_position_of(i: int) -> [i32; 2] {
    [(i % CELL_AMOUNT as int) as i32, (i / CELL_AMOUNT as int) as i32]
}

/// Cell `i` of a region at `position` can be generated from `texture_data` and
/// `samples`: its world origin fits in `i32`, and below ground there are samples for
/// every pixel and a whole texture.
pub open spec fn can_generate(position: [i32; 2], i: int, texture_data: Seq<u8>, samples: Seq<TerrainSample>) -> bool {
    &&& origin_fits(position, cell_position_of(i))
    &&& world_origin_of(position, cell_position_of(i)).1 > GROUND_LEVEL ==> samples.len() >= GRID_LEN
        && texture_data.len() >= TEXTURE_BYTES
}

/// The generation counter and flag after one call of `generate_cell`.
pub open spec fn progress(cell_to_generate: int, generated: bool) -> (int, bool) {
    if cell_to_generate + 1 >= CELLS_PER_REGION {
        (0, true)
    } else {
        (cell_to_generate + 1, generated)
    }
}

/// The generation counter and flag after `n` calls of `generate_cell`.
pub open spec fn progress_after(cell_to_generate: int, generated: bool, n: nat) -> (int, bool)
    decreases n,
{
    if n == 0 {
        (cell_to_generate, generated)
    } else {
        let next = progress(cell_to_generate, generated);
        progress_after(next.0, next.1, (n - 1) as nat)
    }
}

/// Before the end of the region, each call moves on to the next cell: after `n`
/// calls from the first cell the counter stands at cell `n`, so the calls regenerate
/// the cells one by one in index order.
pub proof fn lemma_progress_counts(cell_to_generate: int, generated: bool, n: nat)
    requires
        0 <= cell_to_generate,
        cell_to_generate + n < CELLS_PER_REGION,
    ensures
        progress_after(cell_to_generate, generated, n) == (cell_to_generate + n, generated),
    decreases n,
{
    if n > 0 {
        lemma_progress_counts(cell_to_generate + 1, generated, (n - 1) as nat);
    }
}

/// Starting from the first cell, `CELLS_PER_REGION` calls of `generate_cell`
/// generate every cell once: the region is then generated and starts over.
pub proof fn lemma_full_cycle_generates(generated: bool)
    ensures
        progress_after(0, generated, CELLS_PER_REGION as nat) == (0int, true),
{
    lemma_progress_counts(0, generated, (CELLS_PER_REGION - 1) as nat);
    lemma_progress_split(0, generated, (CELLS_PER_REGION - 1) as nat);
}

/// `n + 1` calls are `n` calls and then one more.
proof fn lemma_progress_split(cell_to_generate: int, generated: bool, n: nat)
    ensures
        progress_after(cell_to_generate, generated, n + 1) == progress(
            progress_after(cell_to_generate, generated, n).0,
            progress_after(cell_to_generate, generated, n).1,
        ),
    decreases n,
{
    let next = progress(cell_to_generate, generated);
    assert(progress_after(cell_to_generate, generated, n + 1) == progress_after(next.0, next.1, n));
    if n > 0 {
        lemma_progress_split(next.0, next.1, (n - 1) as nat);
        assert(((n - 1) as nat) + 1 == n);
        assert(progress_after(cell_to_generate, generated, n) == progress_after(next.0, next.1, (n - 1) as nat));
    }
}

/// The cells of a region at `position` filled with terrain: cell `i` of `cells`,
/// as the cell at column `i % CELL_AMOUNT`, row `i / CELL_AMOUNT`, from its samples
/// `terrain[i]` and the texture.
pub fn regenerated_cells(
    position: [i32; 2],
    cells: &Vec<Cell>,
    texture_data: &Vec<u8>,
    terrain: &Vec<Vec<TerrainSample>>,
) -> (out: Vec<Cell>)
    requires
        cells.len() >= CELLS_PER_REGION,
        terrain.len() >= CELLS_PER_REGION,
        forall|i: int| 0 <= i < CELLS_PER_REGION ==> can_generate(position, i, texture_data@, #[trigger] terrain@[i]@),
    ensures
        out.len() == CELLS_PER_REGION,
        forall|i: int|
            0 <= i < CELLS_PER_REGION ==> generated_from(
                cells@[i],
                #[trigger] out@[i],
                position,
                cell_position_of(i),
                texture_data@,
                terrain@[i]@,
            ),
{
    let mut out: Vec<Cell> = Vec::new();
    let mut i: usize = 0;
    while i < CELL_AMOUNT * CELL_AMOUNT
        invariant
            i <= CELLS_PER_REGION,
            out.len() == i,
            cells.len() >= CELLS_PER_REGION,
            terrain.len() >= CELLS_PER_REGION,
            forall|j: int| 0 <= j < CELLS_PER_REGION ==> can_generate(position, j, texture_data@, #[trigger] terrain@[j]@),
            forall|j: int|
                0 <= j < i ==> generated_from(
                    cells@[j],
                    #[trigger] out@[j],
                    position,
                    cell_position_of(j),
                    texture_data@,
                    terrain@[j]@,
                ),
        decreases CELLS_PER_REGION - i,
    {
        let cell_position = [(i % CELL_AMOUNT) as i32, (i / CELL_AMOUNT) as i32];
        proof {
            assert(cell_position =~= cell_position_of(i as int));
            assert(can_generate(position, i as int, texture_data@, terrain@[i as int]@));
        }
        let mut c = cells[i];
        c.generate(position, cell_position, texture_data, &terrain[i]);
        out.push(c);
        i += 1;
    }
    out
}

/// Region `i` of the 5 by 5 world is a corner of it.
pub open spec fn is_corner(i: int) -> bool {
    i == 0 || i == REGION_AMOUNT - 1 || i == REGION_COUNT - 1 || i == REGION_AMOUNT * (REGION_AMOUNT - 1)
}

/// Whether region `i` of the world generates its next cell this frame: when it is
/// not yet generated and is not one of the four corners, which are never in view.
pub fn generates_next_cell(i: usize, generated: bool) -> (due: bool)
    ensures
        due == (!generated && !is_corner(i as int)),
{
    !generated && i != 0 && i != REGION_AMOUNT - 1 && i != REGION_AMOUNT * REGION_AMOUNT - 1 && i != REGION_AMOUNT * (
    REGION_AMOUNT - 1)
}

/// After `n < CELLS_PER_REGION` calls of `generate_cell` from the first cell the
/// counter stands at cell `n` and the flag is as it was, so call `n` regenerates cell
/// `n`; the call after the last cell sets the flag and starts over.
pub proof fn lemma_generation_cycle(generated: bool)
    ensures
        forall|n: nat| n < CELLS_PER_REGION ==> #[trigger] progress_after(0, generated, n) == (n as int, generated),
        progress_after(0, generated, CELLS_PER_REGION as nat) == (0int, true),
{
    assert forall|n: nat| n < CELLS_PER_REGION implies #[trigger] progress_after(0, generated, n) == (n as int, generated) by {
        lemma_progress_counts(0, generated, n);
    }
    lemma_full_cycle_generates(generated);
}

impl Region {
    /// The region with the same handles and fields, apart from the generation counter
    /// and flag.
    pub open spec fn same_but_progress(self, other: Region) -> bool {
        &&& self.id == other.id
        &&& self.biome_changed == other.biome_changed
        &&& self.biome == other.biome
        &&& self.position == other.position
        &&& self.cells@ == other.cells@
    }

    /// Generates every cell of the region and returns them: cell `i` sits at column
    /// `i % CELL_AMOUNT`, row `i / CELL_AMOUNT` and is filled from its samples
    /// `terrain[i]`. When the region has no cells yet, cell `i` starts as
    /// `Cell::new(i)`, and the caller puts each returned cell in a new lock of
    /// `cells`; otherwise `current[i]` is what lock `i` holds now, and the caller
    /// writes `out[i]` back into it. The region itself is left as it is.
    pub fn generate(
        &self,
        current: &Vec<Cell>,
        texture_data: &Vec<u8>,
        terrain: &Vec<Vec<TerrainSample>>,
    ) -> (out: Vec<Cell>)
        requires
            self.cells.len() == 0 || (self.cells.len() >= CELLS_PER_REGION && current.len() >= CELLS_PER_REGION),
            terrain.len() >= CELLS_PER_REGION,
            forall|i: int|
                0 <= i < CELLS_PER_REGION ==> can_generate(self.position, i, texture_data@, #[trigger] terrain@[i]@),
        ensures
            out.len() == CELLS_PER_REGION,
            self.cells.len() != 0 ==> forall|i: int|
                0 <= i < CELLS_PER_REGION ==> generated_from(
                    current@[i],
                    #[trigger] out@[i],
                    self.position,
                    cell_position_of(i),
                    texture_data@,
                    terrain@[i]@,
                ),
            self.cells.len() == 0 ==> forall|i: int|
                0 <= i < CELLS_PER_REGION ==> fresh_generated(
                    #[trigger] out@[i],
                    i,
                    self.position,
                    cell_position_of(i),
                    texture_data@,
                    terrain@[i]@,
                ),
    {
        if self.cells.len() == 0 {
            let mut fresh: Vec<Cell> = Vec::new();
            let mut i: usize = 0;
            while i < CELL_AMOUNT * CELL_AMOUNT
                invariant
                    i <= CELLS_PER_REGION,
                    fresh.len() == i,
                    forall|j: int| 0 <= j < i ==> (#[trigger] fresh@[j]).is_fresh(j as usize),
                decreases CELLS_PER_REGION - i,
            {
                fresh.push(Cell::new(i));
                i += 1;
            }
            let out = regenerated_cells(self.position, &fresh, texture_data, terrain);
            proof {
                assert forall|i: int| 0 <= i < CELLS_PER_REGION implies fresh_generated(
                    #[trigger] out@[i],
                    i,
                    self.position,
                    cell_position_of(i),
                    texture_data@,
                    terrain@[i]@,
                ) by {
                    assert(fresh@[i].is_fresh(i as usize));
                    assert(generated_from(fresh@[i], out@[i], self.position, cell_position_of(i), texture_data@, terrain@[i]@));
                    assert forall|k: int| 0 <= k < PIXEL_DATA_SIZE implies #[trigger] out@[i].pixel_data@[k] == 70 by {
                        assert(fresh@[i].pixel_data@[k] == 70);
                    }
                    assert forall|k: int| 0 <= k < GRID_LEN implies #[trigger] fresh@[i].grid@[k] == Pixel::fresh(
                        0,
                        [70u8, 70u8, 70u8],
                    ) by {}
                }
            }
            out
        } else {
            regenerated_cells(self.position, current, texture_data, terrain)
        }
    }

    /// Generates the next cell of the region: `current` is what lock
    /// `cell_to_generate` holds now. Returns that index and the cell filled with
    /// terrain as the cell at column `cell_to_generate % CELL_AMOUNT`, row
    /// `cell_to_generate / CELL_AMOUNT`, which the caller writes into that lock (what a
    /// lock holds is shared with other threads, so no clause speaks of it). Then the
    /// counter moves on; after the last cell the region counts as generated and starts
    /// over at the first.
    pub fn generate_cell(&mut self, current: Cell, texture_data: &Vec<u8>, terrain: &Vec<TerrainSample>) -> (r: (
        usize,
        Cell,
    ))
        requires
            old(self).cell_to_generate < CELLS_PER_REGION,
            can_generate(old(self).position, old(self).cell_to_generate as int, texture_data@, terrain@),
        ensures
            r.0 == old(self).cell_to_generate,
            generated_from(
                current,
                r.1,
                old(self).position,
                cell_position_of(old(self).cell_to_generate as int),
                texture_data@,
                terrain@,
            ),
            final(self).same_but_progress(*old(self)),
            (final(self).cell_to_generate as int, final(self).generated) == progress(
                old(self).cell_to_generate as int,
                old(self).generated,
            ),
    {
        let k = self.cell_to_generate;
        let cell_position = [(k % CELL_AMOUNT) as i32, (k / CELL_AMOUNT) as i32];
        proof {
            assert(cell_position =~= cell_position_of(k as int));
        }
        let mut c = current;
        c.generate(self.position, cell_position, texture_data, terrain);
        self.cell_to_generate += 1;
        if self.cell_to_generate >= CELL_AMOUNT * CELL_AMOUNT {
            self.generated = true;
            self.cell_to_generate = 0;
        }
        (k, c)
    }

    /// Does nothing.
    pub fn set_biome() {
    }
}

} // verus!
