use vstd::prelude::*;

use crate::entity::trunc_div;
use crate::pixels::{AIR, MATERIAL_COUNT, PLANT, ROCK, SAND, WATER};
use crate::structs::{fits_i32, grid_index, Cell, Pixel};
use crate::{ACTIVE_REGS, CELLS_PER_REGION, CELL_AMOUNT, CELL_SIZE, GRID_LEN, PITCH, PIXEL_DATA_SIZE};

verus! {

broadcast use vstd::array::group_array_axioms;

/// Cells along one side of the active area.
pub const SHOT_CELLS: usize = 30;

/// Bytes in one row of a screenshot of the active area.
pub const SHOT_ROW: usize = 15360;

/// Rows in a screenshot of the active area.
pub const SHOT_ROWS: usize = 3840;

/// Bytes in a screenshot of the active area.
pub const SHOT_LEN: usize = 58982400;

/// Index of the cell whose texture holds byte `k` of a screenshot of the active area.
pub open spec fn shot_cell(k: int) -> int {
    (k / SHOT_ROW as int) / CELL_SIZE as int * SHOT_CELLS as int + (k % SHOT_ROW as int) / PITCH as int
}

/// Index within its cell's texture of byte `k` of a screenshot of the active area.
pub open spec fn shot_byte(k: int) -> int {
    (k % SHOT_ROW as int) % PITCH as int + ((k / SHOT_ROW as int) % CELL_SIZE as int) * PITCH
}

proof fn lemma_shot_index(i: int, y: int, j: int, x: int)
    requires
        0 <= i < 30,
        0 <= y < 128,
        0 <= j < 30,
        0 <= x < 512,
    ensures
        shot_cell(((i * 128 + y) * 30 + j) * 512 + x) == i * 30 + j,
        shot_byte(((i * 128 + y) * 30 + j) * 512 + x) == x + y * 512,
{
    let k = ((i * 128 + y) * 30 + j) * 512 + x;
    let row = i * 128 + y;
    let col = j * 512 + x;
    assert(k == row * 15360 + col) by (nonlinear_arith)
        requires
            k == ((i * 128 + y) * 30 + j) * 512 + x,
            row == i * 128 + y,
            col == j * 512 + x,
    ;
    assert(k / 15360 == row && k % 15360 == col) by (nonlinear_arith)
        requires
            k == row * 15360 + col,
            0 <= row,
            0 <= col < 15360,
    ;
    assert(row / 128 == i && row % 128 == y) by (nonlinear_arith)
        requires
            row == i * 128 + y,
            0 <= i,
            0 <= y < 128,
    ;
    assert(col / 512 == j && col % 512 == x) by (nonlinear_arith)
        requires
            col == j * 512 + x,
            0 <= j,
            0 <= x < 512,
    ;
}

/// The image of the whole active area, four bytes per pixel, row by row: byte `k`
/// is byte `shot_byte(k)` of the texture of cell `shot_cell(k)`. `textures` holds the
/// texture data of the active area's cells, row by row.
pub fn screenshot_data(textures: &Vec<[u8; PIXEL_DATA_SIZE]>) -> (shot: Vec<u8>)
    requires
        textures.len() >= SHOT_CELLS * SHOT_CELLS,
    ensures
        shot.len() == SHOT_LEN,
        forall|k: int| 0 <= k < SHOT_LEN ==> #[trigger] shot@[k] == textures@[shot_cell(k)]@[shot_byte(k)],
{
    let mut screenshot_data: Vec<u8> = Vec::new();
    let mut i: usize = 0;
    while i < CELL_AMOUNT * ACTIVE_REGS
        invariant
            i <= 30,
            textures.len() >= 900,
            screenshot_data.len() == i * 128 * 15360,
            forall|k: int|
                0 <= k < screenshot_data.len() ==> #[trigger] screenshot_data@[k] == textures@[shot_cell(k)]@[shot_byte(k)],
        decreases 30 - i,
    {
        let mut y: usize = 0;
        while y < CELL_SIZE
            invariant
                i < 30,
                y <= 128,
                textures.len() >= 900,
                screenshot_data.len() == (i * 128 + y) * 15360,
                forall|k: int|
                    0 <= k < screenshot_data.len() ==> #[trigger] screenshot_data@[k] == textures@[shot_cell(k)]@[shot_byte(k)],
            decreases 128 - y,
        {
            let mut j: usize = 0;
            while j < CELL_AMOUNT * ACTIVE_REGS
                invariant
                    i < 30,
                    y < 128,
                    j <= 30,
                    textures.len() >= 900,
                    screenshot_data.len() == ((i * 128 + y) * 30 + j) * 512,
                    forall|k: int|
                        0 <= k < screenshot_data.len() ==> #[trigger] screenshot_data@[k] == textures@[shot_cell(
                            k,
                        )]@[shot_byte(k)],
                decreases 30 - j,
            {
                let mut x: usize = 0;
                while x < PITCH
                    invariant
                        i < 30,
                        y < 128,
                        j < 30,
                        x <= 512,
                        textures.len() >= 900,
                        screenshot_data.len() == ((i * 128 + y) * 30 + j) * 512 + x,
                        forall|k: int|
                            0 <= k < screenshot_data.len() ==> #[trigger] screenshot_data@[k] == textures@[shot_cell(
                                k,
                            )]@[shot_byte(k)],
                    decreases 512 - x,
                {
                    proof {
                        lemma_shot_index(i as int, y as int, j as int, x as int);
                    }
                    let cell = i * CELL_AMOUNT * ACTIVE_REGS + j;
                    screenshot_data.push(textures[cell][x + y * PITCH]);
                    x += 1;
                }
                j += 1;
            }
            y += 1;
        }
        i += 1;
    }
    screenshot_data
}

/// Pixels along one side of the map.
pub const MAP_SIZE: usize = 128;

/// Pixels in the map.
pub const MAP_PIXELS: usize = 16384;

/// Bytes in the map's texture.
pub const MAP_BYTES: usize = 65536;

/// The pixel at the centre of the map, drawn white.
pub const MAP_CENTRE: usize = 8256;

/// `a * b` wrapped at 256.
pub open spec fn wrap_mul_u8(a: int, b: int) -> u8 {
    ((a * b) % 256) as u8
}

/// `a - b` wrapped at 256.
pub open spec fn wrap_sub_u8(a: int, b: int) -> u8 {
    (if a - b < 0 { a - b + 256 } else { a - b }) as u8
}

/// The colour of a biome on the map as `[red, green, blue]`: the first seven biomes
/// have fixed colours; the others are shaded by `shade / 4`, with the colour bytes
/// wrapping at 256.
pub open spec fn biome_colour(biome: u32, shade: u8) -> [u8; 3] {
    let s = (shade / 4) as int;
    if biome == 0 {
        [0u8, 0u8, 0u8]
    } else if biome == 1 {
        [255u8, 0u8, 0u8]
    } else if biome == 2 {
        [0u8, 255u8, 0u8]
    } else if biome == 3 {
        [0u8, 0u8, 255u8]
    } else if biome == 4 || biome == 5 {
        [255u8, 255u8, 0u8]
    } else if biome == 6 {
        [255u8, 0u8, 255u8]
    } else {
        [wrap_mul_u8(s, 80), wrap_sub_u8(255, wrap_mul_u8(s, 80) as int), wrap_sub_u8(128, wrap_mul_u8(s, 100) as int)]
    }
}

/// Byte `channel` (blue, green, red, alpha) of a map pixel of `biome` and `shade`;
/// the centre pixel is white.
pub open spec fn map_byte(biome: u32, shade: u8, centre: bool, channel: int) -> u8 {
    if centre || channel == 3 {
        255
    } else {
        biome_colour(biome, shade)[2 - channel]
    }
}

/// The colour of a biome on the map, as `[red, green, blue]`.
fn colour_of_biome(biome: u32, shade: u8) -> (rgb: [u8; 3])
    ensures
        rgb == biome_colour(biome, shade),
{
    let mut r: u8 = 0;
    let mut g: u8 = 0;
    let mut b: u8 = 0;
    match biome {
        0 => {},
        1 => {
            r = 255;
        },
        2 => {
            g = 255;
        },
        3 => {
            b = 255;
        },
        4 => {
            g = 255;
            r = 255;
        },
        5 => {
            r = 255;
            g = 255;
        },
        6 => {
            r = 255;
            b = 255;
        },
        _ => {
            r = (shade / 4).wrapping_mul(80);
            g = 255u8.wrapping_sub((shade / 4).wrapping_mul(80));
            b = 128u8.wrapping_sub((shade / 4).wrapping_mul(100));
        },
    }
    let rgb = [r, g, b];
    proof {
        assert(rgb =~= biome_colour(biome, shade));
    }
    rgb
}

proof fn lemma_quad(p: int, c: int)
    requires
        0 <= p,
        0 <= c < 4,
    ensures
        (p * 4 + c) / 4 == p,
        (p * 4 + c) % 4 == c,
{
    assert((p * 4 + c) / 4 == p && (p * 4 + c) % 4 == c) by (nonlinear_arith)
        requires
            0 <= p,
            0 <= c < 4,
    ;
}

/// The map texture, four bytes (blue, green, red, alpha) per pixel, row by row:
/// pixel `p` shows biome `biomes[p]` shaded by `shades[p]`, and the centre pixel is
/// white.
pub fn update_map(biomes: &Vec<u32>, shades: &Vec<u8>) -> (map_data: Vec<u8>)
    requires
        biomes.len() >= MAP_PIXELS,
        shades.len() >= MAP_PIXELS,
    ensures
        map_data.len() == MAP_BYTES,
        forall|k: int|
            0 <= k < MAP_BYTES ==> #[trigger] map_data@[k] == map_byte(
                biomes@[k / 4],
                shades@[k / 4],
                k / 4 == MAP_CENTRE,
                k % 4,
            ),
{
    let mut map_data: Vec<u8> = Vec::new();
    let mut i: usize = 0;
    while i < CELL_SIZE
        invariant
            i <= 128,
            biomes.len() >= MAP_PIXELS,
            shades.len() >= MAP_PIXELS,
            map_data.len() == i * 128 * 4,
            forall|k: int|
                0 <= k < map_data.len() ==> #[trigger] map_data@[k] == map_byte(
                    biomes@[k / 4],
                    shades@[k / 4],
                    k / 4 == MAP_CENTRE,
                    k % 4,
                ),
        decreases 128 - i,
    {
        let mut j: usize = 0;
        while j < CELL_SIZE
            invariant
                i < 128,
                j <= 128,
                biomes.len() >= MAP_PIXELS,
                shades.len() >= MAP_PIXELS,
                map_data.len() == (i * 128 + j) * 4,
                forall|k: int|
                    0 <= k < map_data.len() ==> #[trigger] map_data@[k] == map_byte(
                        biomes@[k / 4],
                        shades@[k / 4],
                        k / 4 == MAP_CENTRE,
                        k % 4,
                    ),
            decreases 128 - j,
        {
            let p = i * CELL_SIZE + j;
            let rgb = colour_of_biome(biomes[p], shades[p]);
            proof {
                lemma_quad(p as int, 0);
                lemma_quad(p as int, 1);
                lemma_quad(p as int, 2);
                lemma_quad(p as int, 3);
            }
            if j >= CELL_SIZE / 2 && j <= CELL_SIZE / 2 && i >= CELL_SIZE / 2 && i <= CELL_SIZE / 2 {
                map_data.push(255);
                map_data.push(255);
                map_data.push(255);
                map_data.push(255);
            } else {
                map_data.push(rgb[2]);
                map_data.push(rgb[1]);
                map_data.push(rgb[0]);
                map_data.push(255);
            }
            j += 1;
        }
        i += 1;
    }
    map_data
}

/// The window's cells have their rectangles inside them.
pub open spec fn window_bounded(cells: Seq<Cell>) -> bool {
    &&& cells.len() >= CELLS_PER_REGION
    &&& forall|k: int| 0 <= k < cells.len() ==> (#[trigger] cells[k]).rects_bounded()
}

/// `after` is `before` with some pixels painted with material `id` in `color`: only
/// air is painted over, unless `id` is air itself, which clears anything; texture
/// bytes change only to the colour (a pixel's alpha byte never). Cell ids stay and
/// rectangles stay inside their cells.
pub open spec fn painted_over(before: Seq<Cell>, after: Seq<Cell>, id: u8, color: [u8; 3]) -> bool {
    &&& after.len() == before.len()
    &&& forall|k: int|
        0 <= k < before.len() ==> {
            &&& (#[trigger] after[k]).id == before[k].id
            &&& before[k].rects_bounded() ==> after[k].rects_bounded()
            &&& forall|p: int|
                0 <= p < GRID_LEN ==> #[trigger] after[k].grid@[p] == before[k].grid@[p] || ((before[k].grid@[p].id
                    == AIR || id == AIR) && after[k].grid@[p] == Pixel::fresh(id, color))
            &&& forall|b: int|
                0 <= b < PIXEL_DATA_SIZE ==> #[trigger] after[k].pixel_data@[b] == before[k].pixel_data@[b] || (b % 4
                    < 3 && after[k].pixel_data@[b] == color[b % 4])
        }
}

/// The brush size after the mouse wheel turns by `wheel`: the sum, kept within one
/// pixel and a cell's width.
pub fn resize_brush(brush_size: i32, wheel: i32) -> (size: i32)
    requires
        fits_i32(brush_size + wheel),
    ensures
        size == (if brush_size + wheel < 1 {
            1
        } else if brush_size + wheel > CELL_SIZE {
            CELL_SIZE as int
        } else {
            brush_size + wheel
        }),
{
    let sum = brush_size + wheel;
    if sum < 1 {
        1
    } else if sum > CELL_SIZE as i32 {
        CELL_SIZE as i32
    } else {
        sum
    }
}

/// The colour that painting material `id` lays down, `saturation` (at most 107) lending
/// sand and rock their shade: air is grey, sand pale blue-white, rock grey, water red
/// and plants green; other ids are not painted.
pub fn paint_colour(id: u8, saturation: u8) -> (colour: Option<[u8; 3]>)
    requires
        saturation <= 107,
    ensures
        id == AIR ==> colour == Some([70u8, 70u8, 70u8]),
        id == SAND ==> colour == Some([(148 + saturation) as u8, 200u8, 200u8]),
        id == ROCK ==> colour == Some([(20 + saturation) as u8, (20 + saturation) as u8, (20 + saturation) as u8]),
        id == WATER ==> colour == Some([180u8, 50u8, 50u8]),
        id == PLANT ==> colour == Some([40u8, 180u8, 40u8]),
        id >= MATERIAL_COUNT ==> colour is None,
{
    match id {
        0 => Some([70, 70, 70]),
        1 => Some([128 + 20 + saturation, 200, 200]),
        2 => Some([20 + saturation, 20 + saturation, 20 + saturation]),
        3 => Some([180, 50, 50]),
        4 => Some([40, 180, 40]),
        _ => None,
    }
}

/// `|v|`.
pub open spec fn abs_int(v: int) -> int {
    if v < 0 {
        -v
    } else {
        v
    }
}

/// Index in the window of the cell that holds the point at distance `(px, py)` from
/// the window's origin: ten cells of `CELL_SIZE` pixels to a row.
pub open spec fn point_cell(px: int, py: int) -> int {
    px / CELL_SIZE as int + (py / CELL_SIZE as int) * CELL_AMOUNT as int
}

/// The window after the point at distance `(px, py)` from its origin is painted with
/// material `id` in `color`: the cell's pixel there is placed anew when it is air or
/// `id` is air, and left as it is otherwise.
pub open spec fn painted_point(cells: Seq<Cell>, px: int, py: int, id: u8, color: [u8; 3]) -> Seq<Cell> {
    let k = point_cell(px, py);
    let x = px % CELL_SIZE as int;
    let y = py % CELL_SIZE as int;
    if cells[k].grid@[grid_index(x, y)].id == AIR || id == AIR {
        cells.update(k, cells[k].placed(x, y, id, color))
    } else {
        cells
    }
}

/// First offset of the brush square of `brush_size`.
pub open spec fn brush_low(brush_size: i32) -> int {
    1 - trunc_div(brush_size as int, 2)
}

/// One past the last offset of the brush square of `brush_size`.
pub open spec fn brush_high(brush_size: i32) -> int {
    trunc_div(brush_size as int, 2) + 1
}

/// The distance from the origin, along one axis, of point `m` of a brush span that
/// starts at `c + lo`.
pub open spec fn brush_at(c: int, lo: int, m: int) -> int {
    abs_int(c + lo + m)
}

/// The window after the first `n` points of a brush row, at height `py` and from
/// `cx + lo` rightwards, are painted, each taken by its distance from the origin.
pub open spec fn brush_row(cells: Seq<Cell>, cx: int, py: int, lo: int, n: nat, id: u8, color: [u8; 3]) -> Seq<
    Cell,
>
    decreases n,
{
    if n == 0 {
        cells
    } else {
        painted_point(brush_row(cells, cx, py, lo, (n - 1) as nat, id, color), brush_at(cx, lo, n - 1), py, id, color)
    }
}

/// The window after the first `m` rows, from `cy + lo` downwards, of a brush square
/// `w` points wide starting at column `cx + lo` are painted.
pub open spec fn brush_rows(
    cells: Seq<Cell>,
    cx: int,
    cy: int,
    lo: int,
    w: nat,
    m: nat,
    id: u8,
    color: [u8; 3],
) -> Seq<Cell>
    decreases m,
{
    if m == 0 {
        cells
    } else {
        brush_row(brush_rows(cells, cx, cy, lo, w, (m - 1) as nat, id, color), cx, brush_at(cy, lo, m - 1), lo, w, id, color)
    }
}

/// The window after the brush square of `brush_size` around `(cx, cy)` is painted,
/// row by row from the top, each row from the left.
pub open spec fn brushed(cells: Seq<Cell>, cx: int, cy: int, id: u8, color: [u8; 3], brush_size: i32) -> Seq<Cell> {
    let lo = brush_low(brush_size);
    let w = brush_high(brush_size) - lo;
    if w <= 0 {
        cells
    } else {
        brush_rows(cells, cx, cy, lo, w as nat, w as nat, id, color)
    }
}

/// The larger magnitude of the two ends of `lo..=hi`, the largest of the range.
pub open spec fn reach(lo: int, hi: int) -> int {
    if abs_int(lo) >= abs_int(hi) {
        abs_int(lo)
    } else {
        abs_int(hi)
    }
}

/// The brush square of `brush_size` around `(cx, cy)` can be painted into a window of
/// `len` cells: its coordinates and their magnitudes are values of `i32`, and the cell
/// of each of its points exists.
pub open spec fn brush_fits(len: int, cx: int, cy: int, brush_size: i32) -> bool {
    let lo = brush_low(brush_size);
    let hi = brush_high(brush_size);
    lo < hi ==> {
        &&& i32::MIN < cx + lo
        &&& cx + hi - 1 <= i32::MAX
        &&& i32::MIN < cy + lo
        &&& cy + hi - 1 <= i32::MAX
        &&& point_cell(reach(cx + lo, cx + hi - 1), reach(cy + lo, cy + hi - 1)) < len
    }
}

/// `|v|`.
fn abs_i32(v: i32) -> (a: i32)
    requires
        v > i32::MIN,
    ensures
        a == abs_int(v as int),
{
    if v < 0 {
        -v
    } else {
        v
    }
}

proof fn lemma_painted_over_trans(a: Seq<Cell>, b: Seq<Cell>, c: Seq<Cell>, id: u8, color: [u8; 3])
    requires
        painted_over(a, b, id, color),
        painted_over(b, c, id, color),
    ensures
        painted_over(a, c, id, color),
{
    assert forall|k: int| 0 <= k < a.len() implies {
        &&& (#[trigger] c[k]).id == a[k].id
        &&& a[k].rects_bounded() ==> c[k].rects_bounded()
        &&& forall|p: int|
            0 <= p < GRID_LEN ==> #[trigger] c[k].grid@[p] == a[k].grid@[p] || ((a[k].grid@[p].id == AIR || id
                == AIR) && c[k].grid@[p] == Pixel::fresh(id, color))
        &&& forall|q: int|
            0 <= q < PIXEL_DATA_SIZE ==> #[trigger] c[k].pixel_data@[q] == a[k].pixel_data@[q] || (q % 4 < 3
                && c[k].pixel_data@[q] == color[q % 4])
    } by {
        assert(b[k].id == a[k].id);
        assert forall|p: int| 0 <= p < GRID_LEN implies #[trigger] c[k].grid@[p] == a[k].grid@[p] || ((
        a[k].grid@[p].id == AIR || id == AIR) && c[k].grid@[p] == Pixel::fresh(id, color)) by {
            assert(b[k].grid@[p] == a[k].grid@[p] || ((a[k].grid@[p].id == AIR || id == AIR) && b[k].grid@[p]
                == Pixel::fresh(id, color)));
            assert(c[k].grid@[p] == b[k].grid@[p] || ((b[k].grid@[p].id == AIR || id == AIR) && c[k].grid@[p]
                == Pixel::fresh(id, color)));
        }
        assert forall|q: int| 0 <= q < PIXEL_DATA_SIZE implies #[trigger] c[k].pixel_data@[q] == a[k].pixel_data@[q]
            || (q % 4 < 3 && c[k].pixel_data@[q] == color[q % 4]) by {
            assert(b[k].pixel_data@[q] == a[k].pixel_data@[q] || (q % 4 < 3 && b[k].pixel_data@[q] == color[q % 4]));
            assert(c[k].pixel_data@[q] == b[k].pixel_data@[q] || (q % 4 < 3 && c[k].pixel_data@[q] == color[q % 4]));
        }
    }
}

/// Paints the pixel at distance `(px, py)` from the window's origin, when it is air or
/// `id` is air.
fn paint_point(cells: &mut Vec<Cell>, px: i32, py: i32, id: u8, color: [u8; 3])
    requires
        window_bounded(old(cells)@),
        0 <= px,
        0 <= py,
        point_cell(px as int, py as int) < old(cells).len(),
    ensures
        final(cells)@ == painted_point(old(cells)@, px as int, py as int, id, color),
        window_bounded(final(cells)@),
        painted_over(old(cells)@, final(cells)@, id, color),
{
    let k = (px / CELL_SIZE as i32 + (py / CELL_SIZE as i32) * CELL_AMOUNT as i32) as usize;
    let x = (px % CELL_SIZE as i32) as usize;
    let y = (py % CELL_SIZE as i32) as usize;
    let ghost before = cells@;
    proof {
        assert(before[k as int].rects_bounded());
    }
    if cells[k].grid[x + y * CELL_SIZE].id == 0 || id == 0 {
        cells[k].place_pixel(x, y, id, color);
        proof {
            assert(cells@ =~= painted_point(before, px as int, py as int, id, color));
            let g = (y * CELL_SIZE + x) as int;
            assert forall|p: int| 0 <= p < GRID_LEN implies #[trigger] cells@[k as int].grid@[p] == before[k as int].grid@[p]
                || ((before[k as int].grid@[p].id == AIR || id == AIR) && cells@[k as int].grid@[p] == Pixel::fresh(
                id,
                color,
            )) by {
                if p != g {
                    assert(cells@[k as int].grid@[p] == before[k as int].grid@[p]);
                }
            }
            assert forall|j: int| 0 <= j < cells.len() implies (#[trigger] cells@[j]).rects_bounded() by {
                assert(before[j].rects_bounded());
            }
            let d = y as int * 512 + x as int * 4;
            assert((d + 0) % 4 == 0 && (d + 1) % 4 == 1 && (d + 2) % 4 == 2) by (nonlinear_arith)
                requires
                    d == y as int * 512 + x as int * 4,
                    0 <= x,
                    0 <= y,
            ;
            assert forall|q: int| 0 <= q < PIXEL_DATA_SIZE implies #[trigger] cells@[k as int].pixel_data@[q]
                == before[k as int].pixel_data@[q] || (q % 4 < 3 && cells@[k as int].pixel_data@[q] == color[q % 4]) by {
                if q == d || q == d + 1 || q == d + 2 {
                } else {
                    assert(cells@[k as int].pixel_data@[q] == before[k as int].pixel_data@[q]);
                }
            }
        }
    }
}

/// A point of the brush square lies in the cell range that `brush_fits` vouches for.
proof fn lemma_brush_point_fits(len: int, cx: int, cy: int, brush_size: i32, j: int, i: int)
    requires
        brush_fits(len, cx, cy, brush_size),
        brush_low(brush_size) <= j < brush_high(brush_size),
        brush_low(brush_size) <= i < brush_high(brush_size),
    ensures
        i32::MIN < cx + j <= i32::MAX,
        i32::MIN < cy + i <= i32::MAX,
        point_cell(abs_int(cx + j), abs_int(cy + i)) < len,
{
    let lo = brush_low(brush_size);
    let hi = brush_high(brush_size);
    let rx = reach(cx + lo, cx + hi - 1);
    let ry = reach(cy + lo, cy + hi - 1);
    assert(abs_int(cx + j) <= rx);
    assert(abs_int(cy + i) <= ry);
    vstd::arithmetic::div_mod::lemma_div_is_ordered(abs_int(cx + j), rx, CELL_SIZE as int);
    vstd::arithmetic::div_mod::lemma_div_is_ordered(abs_int(cy + i), ry, CELL_SIZE as int);
}

/// Paints the brush square of `brush_size` around `(cx, cy)`, row by row: each point
/// of it, taken by its distance from the window's origin, is painted when it is air
/// or `id` is air.
fn paint_brush(cells: &mut Vec<Cell>, cx: i32, cy: i32, id: u8, color: [u8; 3], brush_size: i32)
    requires
        window_bounded(old(cells)@),
        brush_fits(old(cells).len() as int, cx as int, cy as int, brush_size),
    ensures
        final(cells)@ == brushed(old(cells)@, cx as int, cy as int, id, color, brush_size),
        window_bounded(final(cells)@),
        painted_over(old(cells)@, final(cells)@, id, color),
{
    let lo = -(brush_size / 2 - 1);
    let hi = brush_size / 2 + 1;
    let ghost len = cells.len() as int;
    let ghost w: nat = if hi > lo { (hi - lo) as nat } else { 0 };
    let mut i = lo;
    while i < hi
        invariant
            lo == brush_low(brush_size),
            hi == brush_high(brush_size),
            w == if hi > lo { (hi - lo) as nat } else { 0nat },
            lo <= i,
            i <= hi || lo >= hi,
            lo >= hi ==> i == lo,
            len == old(cells).len(),
            brush_fits(len, cx as int, cy as int, brush_size),
            window_bounded(cells@),
            cells.len() == len,
            cells@ == brush_rows(old(cells)@, cx as int, cy as int, lo as int, w, (i - lo) as nat, id, color),
            painted_over(old(cells)@, cells@, id, color),
        decreases hi - i,
    {
        let ghost row_start = cells@;
        let ghost py = abs_int(cy + i);
        let mut j = lo;
        while j < hi
            invariant
                lo == brush_low(brush_size),
                hi == brush_high(brush_size),
                w == (hi - lo) as nat,
                lo <= i < hi,
                lo <= j <= hi,
                len == old(cells).len(),
                brush_fits(len, cx as int, cy as int, brush_size),
                py == abs_int(cy + i),
                window_bounded(cells@),
                cells.len() == len,
                cells@ == brush_row(row_start, cx as int, py, lo as int, (j - lo) as nat, id, color),
                painted_over(old(cells)@, cells@, id, color),
            decreases hi - j,
        {
            proof {
                lemma_brush_point_fits(len, cx as int, cy as int, brush_size, j as int, i as int);
            }
            let ghost before = cells@;
            let px = abs_i32(cx + j);
            let py_now = abs_i32(cy + i);
            paint_point(cells, px, py_now, id, color);
            proof {
                lemma_painted_over_trans(old(cells)@, before, cells@, id, color);
                assert((j + 1 - lo) as nat - 1 == (j - lo) as nat);
            }
            j += 1;
        }
        proof {
            assert((i + 1 - lo) as nat - 1 == (i - lo) as nat);
        }
        i += 1;
    }
    proof {
        if lo < hi {
            assert(i == hi);
            assert((i - lo) as nat == w);
            assert(brushed(old(cells)@, cx as int, cy as int, id, color, brush_size) == brush_rows(
                old(cells)@,
                cx as int,
                cy as int,
                lo as int,
                w,
                w,
                id,
                color,
            ));
        } else {
            assert(i == lo);
            assert(cells@ == old(cells)@);
        }
    }
}

/// The ends of a line are apart by a value of `i32` along each axis whose magnitude
/// is one too.
pub open spec fn span_fits(x1: int, x2: int, y1: int, y2: int) -> bool {
    &&& i32::MIN < x2 - x1 <= i32::MAX
    &&& i32::MIN < y2 - y1 <= i32::MAX
}

/// The arithmetic of one Bresenham step with error term `err` stays inside `i32`:
/// twice the error, the error less `dy`, and that plus `dx` where they are taken.
pub open spec fn step_fits(dx: int, dy: int, err: int) -> bool {
    let e2 = 2 * err;
    let err1 = if e2 > -dy { err - dy } else { err };
    &&& fits_i32(e2)
    &&& fits_i32(err1)
    &&& e2 < dx ==> fits_i32(err1 + dx)
}

/// The step direction from `u` towards `v`: 1 when `u < v`, -1 otherwise.
pub open spec fn line_dir(u: int, v: int) -> int {
    if u < v {
        1
    } else {
        -1
    }
}

/// The Bresenham step after `a` steps along x and `b` along y with error term `err`,
/// on the line from `(x1, y1)` to `(x2, y2)`: the new `(a, b, err)`.
pub open spec fn line_next(x1: int, y1: int, x2: int, y2: int, a: int, b: int, err: int) -> (int, int, int) {
    let dx = abs_int(x2 - x1);
    let dy = abs_int(y2 - y1);
    let e2 = 2 * err;
    let a2 = if e2 > -dy { a + 1 } else { a };
    let err1 = if e2 > -dy { err - dy } else { err };
    let b2 = if e2 < dx { b + 1 } else { b };
    let err2 = if e2 < dx { err1 + dx } else { err1 };
    (a2, b2, err2)
}

/// The window after the Bresenham walk from `(x1, y1)` to `(x2, y2)`, resumed after
/// `a` steps along x and `b` along y with error term `err`, paints the brush at each
/// point it visits before `(x2, y2)`; at most `fuel` points.
pub open spec fn line_from(
    cells: Seq<Cell>,
    x1: int,
    y1: int,
    x2: int,
    y2: int,
    a: int,
    b: int,
    err: int,
    id: u8,
    color: [u8; 3],
    brush_size: i32,
    fuel: nat,
) -> Seq<Cell>
    decreases fuel,
{
    if fuel == 0 || (a == abs_int(x2 - x1) && b == abs_int(y2 - y1)) {
        cells
    } else {
        let painted = brushed(cells, x1 + line_dir(x1, x2) * a, y1 + line_dir(y1, y2) * b, id, color, brush_size);
        let next = line_next(x1, y1, x2, y2, a, b, err);
        line_from(painted, x1, y1, x2, y2, next.0, next.1, next.2, id, color, brush_size, (fuel - 1) as nat)
    }
}

/// Every step of the walk that `line_from` makes, with the same arguments, runs
/// inside `i32` and every brush square it paints fits a window of `len` cells.
pub open spec fn line_fits_from(
    len: int,
    x1: int,
    y1: int,
    x2: int,
    y2: int,
    a: int,
    b: int,
    err: int,
    brush_size: i32,
    fuel: nat,
) -> bool
    decreases fuel,
{
    if fuel == 0 || (a == abs_int(x2 - x1) && b == abs_int(y2 - y1)) {
        true
    } else {
        let next = line_next(x1, y1, x2, y2, a, b, err);
        &&& brush_fits(len, x1 + line_dir(x1, x2) * a, y1 + line_dir(y1, y2) * b, brush_size)
        &&& step_fits(abs_int(x2 - x1), abs_int(y2 - y1), err)
        &&& line_fits_from(len, x1, y1, x2, y2, next.0, next.1, next.2, brush_size, (fuel - 1) as nat)
    }
}

/// The window after `place_line(x1, x2, y1, y2, id, color, brush_size)`: the brush
/// around `(x1, y1)` alone when the ends meet, otherwise the brush at every point of
/// the Bresenham line from `(x1, y1)` before `(x2, y2)`.
pub open spec fn line_painted(
    cells: Seq<Cell>,
    x1: int,
    x2: int,
    y1: int,
    y2: int,
    id: u8,
    color: [u8; 3],
    brush_size: i32,
) -> Seq<Cell> {
    let dx = abs_int(x2 - x1);
    let dy = abs_int(y2 - y1);
    if x1 == x2 && y1 == y2 {
        brushed(cells, x1, y1, id, color, brush_size)
    } else {
        line_from(cells, x1, y1, x2, y2, 0, 0, dx - dy, id, color, brush_size, (dx + dy) as nat)
    }
}

/// `place_line(x1, x2, y1, y2, ..)` runs inside `i32` and every brush square it
/// paints fits a window of `len` cells.
pub open spec fn line_fits(len: int, x1: int, x2: int, y1: int, y2: int, brush_size: i32) -> bool {
    let dx = abs_int(x2 - x1);
    let dy = abs_int(y2 - y1);
    if x1 == x2 && y1 == y2 {
        brush_fits(len, x1, y1, brush_size)
    } else {
        span_fits(x1, x2, y1, y2) && line_fits_from(len, x1, y1, x2, y2, 0, 0, dx - dy, brush_size, (dx + dy) as nat)
    }
}

proof fn lemma_line_step(dx: int, dy: int, a: int, b: int, err: int)
    requires
        0 <= a <= dx,
        0 <= b <= dy,
        a < dx || b < dy,
        err == dx * (1 + b) - dy * (1 + a),
    ensures
        a == dx ==> !(2 * err > -dy),
        b == dy ==> !(2 * err < dx),
        dx * (1 + (b + 1)) - dy * (1 + a) == err + dx,
        dx * (1 + b) - dy * (1 + (a + 1)) == err - dy,
        dx * (1 + (b + 1)) - dy * (1 + (a + 1)) == err + dx - dy,
{
    assert(a == dx ==> !(2 * err > -dy)) by (nonlinear_arith)
        requires
            0 <= a <= dx,
            0 <= b <= dy,
            a < dx || b < dy,
            err == dx * (1 + b) - dy * (1 + a),
    ;
    assert(b == dy ==> !(2 * err < dx)) by (nonlinear_arith)
        requires
            0 <= a <= dx,
            0 <= b <= dy,
            a < dx || b < dy,
            err == dx * (1 + b) - dy * (1 + a),
    ;
    assert(dx * (1 + (b + 1)) - dy * (1 + a) == err + dx) by (nonlinear_arith)
        requires
            err == dx * (1 + b) - dy * (1 + a),
    ;
    assert(dx * (1 + b) - dy * (1 + (a + 1)) == err - dy) by (nonlinear_arith)
        requires
            err == dx * (1 + b) - dy * (1 + a),
    ;
    assert(dx * (1 + (b + 1)) - dy * (1 + (a + 1)) == err + dx - dy) by (nonlinear_arith)
        requires
            err == dx * (1 + b) - dy * (1 + a),
    ;
}


/// After `a` of the `d` steps of direction `s` from `x0` towards `x2`, the walk is
/// still between its ends, and it is at `x2` exactly when all steps are taken.
proof fn lemma_walk_at(x0: int, x2: int, s: int, d: int, a: int)
    requires
        s == line_dir(x0, x2),
        d == abs_int(x2 - x0),
        0 <= a <= d,
    ensures
        (x0 + s * a == x2) <==> (a == d),
        x0 <= x2 ==> x0 <= x0 + s * a <= x2,
        x2 <= x0 ==> x2 <= x0 + s * a <= x0,
{
}

/// `|v|` of a value of `i64`.
fn magnitude(v: i64) -> (m: u64)
    requires
        v > i64::MIN,
    ensures
        m == abs_int(v as int),
{
    if v < 0 {
        (-v) as u64
    } else {
        v as u64
    }
}

/// Whether the brush square of `brush_size` around `(cx, cy)` can be painted into a
/// window of `len` cells.
pub fn brush_in_window(len: usize, cx: i32, cy: i32, brush_size: i32) -> (ok: bool)
    ensures
        ok == brush_fits(len as int, cx as int, cy as int, brush_size),
{
    let lo = -(brush_size / 2 - 1);
    let hi = brush_size / 2 + 1;
    if lo >= hi {
        return true;
    }
    let xl = cx as i64 + lo as i64;
    let xh = cx as i64 + hi as i64 - 1;
    let yl = cy as i64 + lo as i64;
    let yh = cy as i64 + hi as i64 - 1;
    if xl <= i32::MIN as i64 || xh > i32::MAX as i64 || yl <= i32::MIN as i64 || yh > i32::MAX as i64 {
        return false;
    }
    let (al, ah) = (magnitude(xl), magnitude(xh));
    let rx = if al >= ah { al } else { ah };
    let (bl, bh) = (magnitude(yl), magnitude(yh));
    let ry = if bl >= bh { bl } else { bh };
    proof {
        assert(ry / 128 <= ry) by (nonlinear_arith);
        assert(rx / 128 <= rx) by (nonlinear_arith);
    }
    let cell = rx / CELL_SIZE as u64 + (ry / CELL_SIZE as u64) * CELL_AMOUNT as u64;
    cell < len as u64
}

/// Paints a line from `(x1, y1)` towards `(x2, y2)` with the brush of `brush_size`:
/// a lone point when the ends meet, otherwise every point of the Bresenham line
/// before `(x2, y2)`. Each brush point, taken by its distance from the window's
/// origin, is painted when it is air or `id` is air.
#[verifier::spinoff_prover]
pub fn place_line(
    cells: &mut Vec<Cell>,
    x1: i32,
    x2: i32,
    y1: i32,
    y2: i32,
    id: u8,
    color: [u8; 3],
    brush_size: i32,
)
    requires
        window_bounded(old(cells)@),
        line_fits(old(cells).len() as int, x1 as int, x2 as int, y1 as int, y2 as int, brush_size),
    ensures
        final(cells)@ == line_painted(old(cells)@, x1 as int, x2 as int, y1 as int, y2 as int, id, color, brush_size),
        window_bounded(final(cells)@),
        painted_over(old(cells)@, final(cells)@, id, color),
{
    let ghost x0 = x1;
    let ghost y0 = y1;
    let ghost len = cells.len() as int;
    let ghost total = line_painted(old(cells)@, x1 as int, x2 as int, y1 as int, y2 as int, id, color, brush_size);
    let mut x1 = x1;
    let mut y1 = y1;
    if x1 == x2 && y1 == y2 {
        paint_brush(cells, x1, y1, id, color, brush_size);
        return;
    }
    let dx = abs_i32(x2 - x1);
    let dy = abs_i32(y2 - y1);
    let mut sx: i32 = -1;
    let mut sy: i32 = -1;
    let mut err = dx - dy;
    if x1 < x2 {
        sx = 1;
    }
    if y1 < y2 {
        sy = 1;
    }
    let ghost mut a: int = 0;
    let ghost mut b: int = 0;
    let ghost mut t: int = 0;
    proof {
        assert(err == dx * (1 + b) - dy * (1 + a)) by (nonlinear_arith)
            requires
                err == dx - dy,
                a == 0,
                b == 0,
        ;
    }
    while x1 != x2 || y1 != y2
        invariant
            window_bounded(cells@),
            len == old(cells).len(),
            cells.len() == len,
            painted_over(old(cells)@, cells@, id, color),
            sx == line_dir(x0 as int, x2 as int),
            sy == line_dir(y0 as int, y2 as int),
            dx == abs_int(x2 - x0),
            dy == abs_int(y2 - y0),
            0 <= a <= dx,
            0 <= b <= dy,
            0 <= t <= a + b,
            x1 == x0 + sx * a,
            y1 == y0 + sy * b,
            err == dx * (1 + b) - dy * (1 + a),
            total == line_from(
                cells@,
                x0 as int,
                y0 as int,
                x2 as int,
                y2 as int,
                a,
                b,
                err as int,
                id,
                color,
                brush_size,
                (dx + dy - t) as nat,
            ),
            line_fits_from(len, x0 as int, y0 as int, x2 as int, y2 as int, a, b, err as int, brush_size, (dx + dy - t) as nat),
        decreases (dx - a) + (dy - b),
    {
        proof {
            lemma_walk_at(x0 as int, x2 as int, sx as int, dx as int, a);
            lemma_walk_at(y0 as int, y2 as int, sy as int, dy as int, b);
            assert(a < dx || b < dy);
            lemma_line_step(dx as int, dy as int, a, b, err as int);
            assert(dx + dy - t > 0);
        }
        let ghost before = cells@;
        paint_brush(cells, x1, y1, id, color, brush_size);
        proof {
            lemma_painted_over_trans(old(cells)@, before, cells@, id, color);
            assert(step_fits(dx as int, dy as int, err as int));
        }
        let err2 = 2 * err;
        if err2 > -dy {
            proof {
                lemma_walk_at(x0 as int, x2 as int, sx as int, dx as int, a + 1);
                assert(sx * (a + 1) == sx * a + sx) by (nonlinear_arith);
            }
            err -= dy;
            x1 += sx;
            proof {
                a = a + 1;
            }
        }
        if err2 < dx {
            proof {
                lemma_walk_at(y0 as int, y2 as int, sy as int, dy as int, b + 1);
                assert(sy * (b + 1) == sy * b + sy) by (nonlinear_arith);
            }
            err += dx;
            y1 += sy;
            proof {
                b = b + 1;
            }
        }
        proof {
            t = t + 1;
        }
    }
    proof {
        lemma_walk_at(x0 as int, x2 as int, sx as int, dx as int, a);
        lemma_walk_at(y0 as int, y2 as int, sy as int, dy as int, b);
        assert(a == dx && b == dy);
        assert(total == cells@);
    }
}

/// Whether every brush square that `place_line(x1, x2, y1, y2, .., brush_size)`
/// would paint fits a window of `len` cells.
#[verifier::spinoff_prover]
pub fn line_in_window(len: usize, x1: i32, x2: i32, y1: i32, y2: i32, brush_size: i32) -> (ok: bool)
    requires
    ensures
        ok == line_fits(len as int, x1 as int, x2 as int, y1 as int, y2 as int, brush_size),
{
    let ghost whole = line_fits(len as int, x1 as int, x2 as int, y1 as int, y2 as int, brush_size);
    let mut x = x1;
    let mut y = y1;
    if x == x2 && y == y2 {
        return brush_in_window(len, x, y, brush_size);
    }
    let span_x = x2 as i64 - x as i64;
    let span_y = y2 as i64 - y as i64;
    if span_x <= i32::MIN as i64 || span_x > i32::MAX as i64 || span_y <= i32::MIN as i64 || span_y > i32::MAX as i64 {
        return false;
    }
    let dx = abs_i32(x2 - x);
    let dy = abs_i32(y2 - y);
    let mut sx: i32 = -1;
    let mut sy: i32 = -1;
    let mut err = dx - dy;
    if x < x2 {
        sx = 1;
    }
    if y < y2 {
        sy = 1;
    }
    let ghost mut a: int = 0;
    let ghost mut b: int = 0;
    let ghost mut t: int = 0;
    proof {
        assert(err == dx * (1 + b) - dy * (1 + a)) by (nonlinear_arith)
            requires
                err == dx - dy,
                a == 0,
                b == 0,
        ;
    }
    while x != x2 || y != y2
        invariant
            sx == line_dir(x1 as int, x2 as int),
            sy == line_dir(y1 as int, y2 as int),
            dx == abs_int(x2 - x1),
            dy == abs_int(y2 - y1),
            0 <= a <= dx,
            0 <= b <= dy,
            0 <= t <= a + b,
            x == x1 + sx * a,
            y == y1 + sy * b,
            err == dx * (1 + b) - dy * (1 + a),
            whole == line_fits(len as int, x1 as int, x2 as int, y1 as int, y2 as int, brush_size),
            whole == line_fits_from(
                len as int,
                x1 as int,
                y1 as int,
                x2 as int,
                y2 as int,
                a,
                b,
                err as int,
                brush_size,
                (dx + dy - t) as nat,
            ),
        decreases (dx - a) + (dy - b),
    {
        proof {
            lemma_walk_at(x1 as int, x2 as int, sx as int, dx as int, a);
            lemma_walk_at(y1 as int, y2 as int, sy as int, dy as int, b);
            assert(a < dx || b < dy);
            lemma_line_step(dx as int, dy as int, a, b, err as int);
            assert(dx + dy - t > 0);
        }
        if !brush_in_window(len, x, y, brush_size) {
            proof {
                assert(x == x1 + line_dir(x1 as int, x2 as int) * a);
                assert(y == y1 + line_dir(y1 as int, y2 as int) * b);
                assert(!(a == abs_int(x2 - x1) && b == abs_int(y2 - y1)));
                assert(!brush_fits(len as int, x as int, y as int, brush_size));
                let f = (dx + dy - t) as nat;
                assert(f > 0);
                assert(!line_fits_from(len as int, x1 as int, y1 as int, x2 as int, y2 as int, a, b, err as int, brush_size, f));
            }
            return false;
        }
        let wide_e2 = 2 * (err as i64);
        let wide_err1 = if wide_e2 > -(dy as i64) { err as i64 - dy as i64 } else { err as i64 };
        let step_ok = i32::MIN as i64 <= wide_e2 && wide_e2 <= i32::MAX as i64 && i32::MIN as i64 <= wide_err1
            && wide_err1 <= i32::MAX as i64 && (wide_e2 >= dx as i64 || wide_err1 + dx as i64 <= i32::MAX as i64);
        if !step_ok {
            proof {
                assert(!step_fits(dx as int, dy as int, err as int));
                assert(!(a == abs_int(x2 - x1) && b == abs_int(y2 - y1)));
                let f = (dx + dy - t) as nat;
                assert(!line_fits_from(len as int, x1 as int, y1 as int, x2 as int, y2 as int, a, b, err as int, brush_size, f));
            }
            return false;
        }
        let err2 = 2 * err;
        if err2 > -dy {
            proof {
                lemma_walk_at(x1 as int, x2 as int, sx as int, dx as int, a + 1);
            }
            err -= dy;
            x += sx;
            proof {
                a = a + 1;
            }
        }
        if err2 < dx {
            proof {
                lemma_walk_at(y1 as int, y2 as int, sy as int, dy as int, b + 1);
            }
            err += dx;
            y += sy;
            proof {
                b = b + 1;
            }
        }
        proof {
            t = t + 1;
        }
    }
    true
}

/// The pixel at distance `(px, py)` from the window's origin holds a material.
pub open spec fn solid_at(cells: Seq<Cell>, px: int, py: int) -> bool {
    cells[point_cell(px, py)].grid@[grid_index(px % CELL_SIZE as int, py % CELL_SIZE as int)].id != AIR
}

/// `after` has as many cells as `before`, and every pixel of `before` that holds a
/// material is the same in `after`.
pub open spec fn solids_kept(before: Seq<Cell>, after: Seq<Cell>) -> bool {
    &&& after.len() == before.len()
    &&& forall|k: int, g: int|
        0 <= k < before.len() && 0 <= g < GRID_LEN && before[k].grid@[g].id != AIR ==> #[trigger] after[k].grid@[g]
            == before[k].grid@[g]
}

/// Every point of the brush square of `brush_size` around `(cx, cy)` holds a material.
pub open spec fn brush_solid(cells: Seq<Cell>, cx: int, cy: int, brush_size: i32) -> bool {
    let lo = brush_low(brush_size);
    let w = brush_high(brush_size) - lo;
    forall|r: int, j: int| 0 <= r < w && 0 <= j < w ==> #[trigger] solid_at(cells, brush_at(cx, lo, j), brush_at(cy, lo, r))
}

proof fn lemma_solids_kept_trans(a: Seq<Cell>, b: Seq<Cell>, c: Seq<Cell>)
    requires
        solids_kept(a, b),
        solids_kept(b, c),
    ensures
        solids_kept(a, c),
{
    assert forall|k: int, g: int|
        0 <= k < a.len() && 0 <= g < GRID_LEN && a[k].grid@[g].id != AIR implies #[trigger] c[k].grid@[g]
            == a[k].grid@[g] by {
        assert(b[k].grid@[g] == a[k].grid@[g]);
    }
}

/// A point that holds a material still holds it where solids are kept.
proof fn lemma_solid_stays(before: Seq<Cell>, after: Seq<Cell>, px: int, py: int)
    requires
        solids_kept(before, after),
        0 <= px,
        0 <= py,
        point_cell(px, py) < before.len(),
        solid_at(before, px, py),
    ensures
        solid_at(after, px, py),
{
    let g = grid_index(px % CELL_SIZE as int, py % CELL_SIZE as int);
    assert(0 <= g < GRID_LEN);
    assert(after[point_cell(px, py)].grid@[g] == before[point_cell(px, py)].grid@[g]);
}

/// Painting a point with a material keeps every material, leaves the point holding
/// one, and changes nothing where the point held one already.
proof fn lemma_point_repaint(cells: Seq<Cell>, px: int, py: int, id: u8, color: [u8; 3])
    requires
        id != AIR,
        0 <= px,
        0 <= py,
        point_cell(px, py) < cells.len(),
    ensures
        solids_kept(cells, painted_point(cells, px, py, id, color)),
        solid_at(painted_point(cells, px, py, id, color), px, py),
        solid_at(cells, px, py) ==> painted_point(cells, px, py, id, color) == cells,
{
    let k0 = point_cell(px, py);
    let g0 = grid_index(px % CELL_SIZE as int, py % CELL_SIZE as int);
    assert(0 <= g0 < GRID_LEN);
    let after = painted_point(cells, px, py, id, color);
    assert forall|k: int, g: int|
        0 <= k < cells.len() && 0 <= g < GRID_LEN && cells[k].grid@[g].id != AIR implies #[trigger] after[k].grid@[g]
            == cells[k].grid@[g] by {
        if k == k0 && g != g0 {
            assert(after[k].grid@[g] == cells[k].grid@[g]);
        }
    }
}

/// Painting a brush row with a material keeps every material and leaves each point
/// of the row holding one; where they all held one already it changes nothing.
proof fn lemma_row_repaint(cells: Seq<Cell>, cx: int, py: int, lo: int, n: nat, id: u8, color: [u8; 3])
    requires
        id != AIR,
        0 <= py,
        forall|m: int| 0 <= m < n ==> #[trigger] point_cell(brush_at(cx, lo, m), py) < cells.len(),
    ensures
        solids_kept(cells, brush_row(cells, cx, py, lo, n, id, color)),
        forall|m: int| 0 <= m < n ==> #[trigger] solid_at(brush_row(cells, cx, py, lo, n, id, color), brush_at(cx, lo, m), py),
        (forall|m: int| 0 <= m < n ==> #[trigger] solid_at(cells, brush_at(cx, lo, m), py)) ==> brush_row(
            cells,
            cx,
            py,
            lo,
            n,
            id,
            color,
        ) == cells,
    decreases n,
{
    if n > 0 {
        let prev = brush_row(cells, cx, py, lo, (n - 1) as nat, id, color);
        lemma_row_repaint(cells, cx, py, lo, (n - 1) as nat, id, color);
        let p = brush_at(cx, lo, n - 1);
        assert(point_cell(p, py) < cells.len());
        lemma_point_repaint(prev, p, py, id, color);
        let res = brush_row(cells, cx, py, lo, n, id, color);
        assert(res == painted_point(prev, p, py, id, color));
        lemma_solids_kept_trans(cells, prev, res);
        assert forall|m: int| 0 <= m < n implies #[trigger] solid_at(res, brush_at(cx, lo, m), py) by {
            if m < n - 1 {
                assert(point_cell(brush_at(cx, lo, m), py) < cells.len());
                lemma_solid_stays(prev, res, brush_at(cx, lo, m), py);
            }
        }
        if forall|m: int| 0 <= m < n ==> #[trigger] solid_at(cells, brush_at(cx, lo, m), py) {
            assert(prev == cells);
            assert(solid_at(cells, p, py));
        }
    }
}

/// Painting the first `m` rows of a brush square with a material keeps every
/// material and leaves each of their points holding one; where they all held one
/// already it changes nothing.
proof fn lemma_rows_repaint(cells: Seq<Cell>, cx: int, cy: int, lo: int, w: nat, m: nat, id: u8, color: [u8; 3])
    requires
        id != AIR,
        forall|r: int, j: int|
            0 <= r < m && 0 <= j < w ==> #[trigger] point_cell(brush_at(cx, lo, j), brush_at(cy, lo, r)) < cells.len(),
    ensures
        solids_kept(cells, brush_rows(cells, cx, cy, lo, w, m, id, color)),
        forall|r: int, j: int|
            0 <= r < m && 0 <= j < w ==> #[trigger] solid_at(
                brush_rows(cells, cx, cy, lo, w, m, id, color),
                brush_at(cx, lo, j),
                brush_at(cy, lo, r),
            ),
        (forall|r: int, j: int|
            0 <= r < m && 0 <= j < w ==> #[trigger] solid_at(cells, brush_at(cx, lo, j), brush_at(cy, lo, r)))
            ==> brush_rows(cells, cx, cy, lo, w, m, id, color) == cells,
    decreases m,
{
    if m > 0 {
        let prev = brush_rows(cells, cx, cy, lo, w, (m - 1) as nat, id, color);
        lemma_rows_repaint(cells, cx, cy, lo, w, (m - 1) as nat, id, color);
        let py = brush_at(cy, lo, m - 1);
        assert forall|j: int| 0 <= j < w implies #[trigger] point_cell(brush_at(cx, lo, j), py) < prev.len() by {
            assert(point_cell(brush_at(cx, lo, j), brush_at(cy, lo, m - 1)) < cells.len());
        }
        lemma_row_repaint(prev, cx, py, lo, w, id, color);
        let res = brush_rows(cells, cx, cy, lo, w, m, id, color);
        assert(res == brush_row(prev, cx, py, lo, w, id, color));
        lemma_solids_kept_trans(cells, prev, res);
        assert forall|r: int, j: int| 0 <= r < m && 0 <= j < w implies #[trigger] solid_at(
            res,
            brush_at(cx, lo, j),
            brush_at(cy, lo, r),
        ) by {
            if r < m - 1 {
                assert(point_cell(brush_at(cx, lo, j), brush_at(cy, lo, r)) < cells.len());
                assert(solid_at(prev, brush_at(cx, lo, j), brush_at(cy, lo, r)));
                lemma_solid_stays(prev, res, brush_at(cx, lo, j), brush_at(cy, lo, r));
            } else {
                assert(solid_at(res, brush_at(cx, lo, j), py));
            }
        }
        if forall|r: int, j: int|
            0 <= r < m && 0 <= j < w ==> #[trigger] solid_at(cells, brush_at(cx, lo, j), brush_at(cy, lo, r)) {
            assert forall|r: int, j: int| 0 <= r < m - 1 && 0 <= j < w implies #[trigger] solid_at(
                cells,
                brush_at(cx, lo, j),
                brush_at(cy, lo, r),
            ) by {
                assert(solid_at(cells, brush_at(cx, lo, j), brush_at(cy, lo, r)));
            }
            assert(prev == cells);
            assert forall|j: int| 0 <= j < w implies #[trigger] solid_at(cells, brush_at(cx, lo, j), py) by {
                assert(solid_at(cells, brush_at(cx, lo, j), brush_at(cy, lo, m - 1)));
            }
        }
    }
}

/// Painting a brush square with a material keeps every material and leaves every
/// point of the square holding one; where they all held one already it changes
/// nothing.
proof fn lemma_brush_repaint(cells: Seq<Cell>, cx: int, cy: int, id: u8, color: [u8; 3], brush_size: i32)
    requires
        id != AIR,
        brush_fits(cells.len() as int, cx, cy, brush_size),
    ensures
        solids_kept(cells, brushed(cells, cx, cy, id, color, brush_size)),
        brush_solid(brushed(cells, cx, cy, id, color, brush_size), cx, cy, brush_size),
        brush_solid(cells, cx, cy, brush_size) ==> brushed(cells, cx, cy, id, color, brush_size) == cells,
{
    let lo = brush_low(brush_size);
    let w = brush_high(brush_size) - lo;
    if w > 0 {
        assert forall|r: int, j: int| 0 <= r < w && 0 <= j < w implies #[trigger] point_cell(
            brush_at(cx, lo, j),
            brush_at(cy, lo, r),
        ) < cells.len() by {
            lemma_brush_point_fits(cells.len() as int, cx, cy, brush_size, lo + j, lo + r);
        }
        lemma_rows_repaint(cells, cx, cy, lo, w as nat, w as nat, id, color);
    }
}

/// A square that held material everywhere still does where solids are kept.
proof fn lemma_brush_solid_stays(before: Seq<Cell>, after: Seq<Cell>, cx: int, cy: int, brush_size: i32)
    requires
        solids_kept(before, after),
        brush_fits(before.len() as int, cx, cy, brush_size),
        brush_solid(before, cx, cy, brush_size),
    ensures
        brush_solid(after, cx, cy, brush_size),
{
    let lo = brush_low(brush_size);
    let w = brush_high(brush_size) - lo;
    assert forall|r: int, j: int| 0 <= r < w && 0 <= j < w implies #[trigger] solid_at(
        after,
        brush_at(cx, lo, j),
        brush_at(cy, lo, r),
    ) by {
        lemma_brush_point_fits(before.len() as int, cx, cy, brush_size, lo + j, lo + r);
        assert(solid_at(before, brush_at(cx, lo, j), brush_at(cy, lo, r)));
        lemma_solid_stays(before, after, brush_at(cx, lo, j), brush_at(cy, lo, r));
    }
}

/// Walking a line with a material keeps every material, and walking it again from the
/// same step changes nothing.
proof fn lemma_line_repaint(
    cells: Seq<Cell>,
    x1: int,
    y1: int,
    x2: int,
    y2: int,
    a: int,
    b: int,
    err: int,
    id: u8,
    color: [u8; 3],
    brush_size: i32,
    fuel: nat,
)
    requires
        id != AIR,
        line_fits_from(cells.len() as int, x1, y1, x2, y2, a, b, err, brush_size, fuel),
    ensures
        solids_kept(cells, line_from(cells, x1, y1, x2, y2, a, b, err, id, color, brush_size, fuel)),
        line_from(
            line_from(cells, x1, y1, x2, y2, a, b, err, id, color, brush_size, fuel),
            x1,
            y1,
            x2,
            y2,
            a,
            b,
            err,
            id,
            color,
            brush_size,
            fuel,
        ) == line_from(cells, x1, y1, x2, y2, a, b, err, id, color, brush_size, fuel),
    decreases fuel,
{
    if fuel > 0 && !(a == abs_int(x2 - x1) && b == abs_int(y2 - y1)) {
        let px = x1 + line_dir(x1, x2) * a;
        let py = y1 + line_dir(y1, y2) * b;
        let c1 = brushed(cells, px, py, id, color, brush_size);
        lemma_brush_repaint(cells, px, py, id, color, brush_size);
        let next = line_next(x1, y1, x2, y2, a, b, err);
        lemma_line_repaint(c1, x1, y1, x2, y2, next.0, next.1, next.2, id, color, brush_size, (fuel - 1) as nat);
        let d = line_from(cells, x1, y1, x2, y2, a, b, err, id, color, brush_size, fuel);
        assert(d == line_from(c1, x1, y1, x2, y2, next.0, next.1, next.2, id, color, brush_size, (fuel - 1) as nat));
        lemma_solids_kept_trans(cells, c1, d);
        lemma_brush_solid_stays(c1, d, px, py, brush_size);
        lemma_brush_repaint(d, px, py, id, color, brush_size);
        assert(brushed(d, px, py, id, color, brush_size) == d);
    }
}

/// Painting a line with a material a second time changes nothing: the first time
/// every brush point along it came to hold a material, and material is never painted
/// over.
pub proof fn lemma_repainting_changes_nothing(
    cells: Seq<Cell>,
    x1: int,
    x2: int,
    y1: int,
    y2: int,
    id: u8,
    color: [u8; 3],
    brush_size: i32,
)
    requires
        id != AIR,
        line_fits(cells.len() as int, x1, x2, y1, y2, brush_size),
    ensures
        line_painted(line_painted(cells, x1, x2, y1, y2, id, color, brush_size), x1, x2, y1, y2, id, color, brush_size)
            == line_painted(cells, x1, x2, y1, y2, id, color, brush_size),
{
    if x1 == x2 && y1 == y2 {
        lemma_brush_repaint(cells, x1, y1, id, color, brush_size);
        let once = brushed(cells, x1, y1, id, color, brush_size);
        lemma_brush_repaint(once, x1, y1, id, color, brush_size);
    } else {
        let dx = abs_int(x2 - x1);
        let dy = abs_int(y2 - y1);
        lemma_line_repaint(cells, x1, y1, x2, y2, 0, 0, dx - dy, id, color, brush_size, (dx + dy) as nat);
    }
}

/// The four bytes (blue, green, red, alpha) of a map pixel.
pub open spec fn map_pixel(biome: u32, shade: u8, centre: bool) -> Seq<u8> {
    seq![map_byte(biome, shade, centre, 0), map_byte(biome, shade, centre, 1), map_byte(biome, shade, centre, 2), map_byte(biome, shade, centre, 3)]
}

/// The map draws the first seven biomes in fixed colours whatever the shade (bytes in
/// blue, green, red, alpha order): 0 black, 1 red, 2 green, 3 blue, 4 and 5 yellow,
/// 6 magenta; the centre pixel is white whatever its biome.
pub proof fn lemma_fixed_biome_colours(shade: u8, biome: u32)
    ensures
        map_pixel(0, shade, false) == seq![0u8, 0u8, 0u8, 255u8],
        map_pixel(1, shade, false) == seq![0u8, 0u8, 255u8, 255u8],
        map_pixel(2, shade, false) == seq![0u8, 255u8, 0u8, 255u8],
        map_pixel(3, shade, false) == seq![255u8, 0u8, 0u8, 255u8],
        map_pixel(4, shade, false) == seq![0u8, 255u8, 255u8, 255u8],
        map_pixel(5, shade, false) == seq![0u8, 255u8, 255u8, 255u8],
        map_pixel(6, shade, false) == seq![255u8, 0u8, 255u8, 255u8],
        map_pixel(biome, shade, true) == seq![255u8, 255u8, 255u8, 255u8],
{
    assert(map_pixel(0, shade, false) =~= seq![0u8, 0u8, 0u8, 255u8]);
    assert(map_pixel(1, shade, false) =~= seq![0u8, 0u8, 255u8, 255u8]);
    assert(map_pixel(2, shade, false) =~= seq![0u8, 255u8, 0u8, 255u8]);
    assert(map_pixel(3, shade, false) =~= seq![255u8, 0u8, 0u8, 255u8]);
    assert(map_pixel(4, shade, false) =~= seq![0u8, 255u8, 255u8, 255u8]);
    assert(map_pixel(5, shade, false) =~= seq![0u8, 255u8, 255u8, 255u8]);
    assert(map_pixel(6, shade, false) =~= seq![255u8, 0u8, 255u8, 255u8]);
    assert(map_pixel(biome, shade, true) =~= seq![255u8, 255u8, 255u8, 255u8]);
}

} // verus!
