use vstd::multiset::Multiset;
use vstd::prelude::*;

use crate::pixels::{
    lemma_move_displaces_only_lighter, pixel_at_offset, target_in_window, density_of, wrap_coord,
    lemma_move_conserves_materials, lemma_spread_conserves_materials, materials,
    grow_destroy_outcome, neighbour_id, move_outcome, reach_in_bounds, transparency, transparency_of, try_grow_destroy,
    try_move, PLANT, SAND, WATER,
};
use crate::random::{random_below, thread_rng};
use crate::structs::{data_index, grid_index, max_int, min_int, Cell, DirtyRect, Pixel};
use crate::{CELLS_PER_REGION, CELL_AMOUNT, CELL_SIZE, GRID_LEN, PITCH, PITCH_SIZE};

verus! {

broadcast use {vstd::array::group_array_axioms, vstd::multiset::group_multiset_axioms};

/// The window of cells: at least one per cell id, each well formed.
pub open spec fn window_wf(cells: Seq<Cell>) -> bool {
    &&& cells.len() >= CELLS_PER_REGION
    &&& forall|k: int| 0 <= k < cells.len() ==> (#[trigger] cells[k]).wf()
}

/// The materials of the window's cells, leaving out the slot at index `skip`.
pub open spec fn window_materials(cells: Seq<Cell>, skip: int) -> Multiset<u8>
    decreases cells.len(),
{
    if cells.len() == 0 {
        Multiset::empty()
    } else {
        let rest = window_materials(cells.drop_last(), skip);
        if cells.len() - 1 == skip {
            rest
        } else {
            rest.add(materials(cells.last()))
        }
    }
}

/// The materials of a cell together with those of the rest of its window (the
/// window's slot for the cell itself left out).
pub open spec fn total_materials(cell: Cell, cells: Seq<Cell>) -> Multiset<u8> {
    materials(cell).add(window_materials(cells, cell.id as int))
}

/// Replacing cell `n` of the window (not the left-out slot) trades its materials
/// for the new cell's.
proof fn lemma_window_update(cells: Seq<Cell>, skip: int, n: int, c: Cell)
    requires
        0 <= n < cells.len(),
        n != skip,
    ensures
        window_materials(cells.update(n, c), skip).add(materials(cells[n])) == window_materials(cells, skip).add(
            materials(c),
        ),
    decreases cells.len(),
{
    let updated = cells.update(n, c);
    let lhs = window_materials(updated, skip).add(materials(cells[n]));
    let rhs = window_materials(cells, skip).add(materials(c));
    assert(updated.drop_last() =~= if n == cells.len() - 1 {
        cells.drop_last()
    } else {
        cells.drop_last().update(n, c)
    });
    if n != cells.len() - 1 {
        lemma_window_update(cells.drop_last(), skip, n, c);
    }
    assert forall|v: u8| lhs.count(v) == rhs.count(v) by {
        if n != cells.len() - 1 {
            let inner_l = window_materials(cells.drop_last().update(n, c), skip).add(materials(cells[n]));
            let inner_r = window_materials(cells.drop_last(), skip).add(materials(c));
            assert(inner_l.count(v) == inner_r.count(v));
        }
    }
    assert(lhs =~= rhs);
}

/// A move (or a plant spreading) that keeps the materials of the cell, or of the
/// cell and one other window cell together, keeps the total.
proof fn lemma_trade_keeps_total(cell: Cell, cells: Seq<Cell>, after: Cell, after_cells: Seq<Cell>, n: int)
    requires
        after.id == cell.id,
        after_cells.len() == cells.len(),
        forall|k: int| 0 <= k < cells.len() && k != n ==> #[trigger] after_cells[k] == cells[k],
        (after_cells == cells && materials(after) == materials(cell)) || (0 <= n < cells.len() && n != cell.id
            && materials(after).add(materials(after_cells[n])) == materials(cell).add(materials(cells[n]))),
    ensures
        total_materials(after, after_cells) == total_materials(cell, cells),
{
    if !(after_cells == cells && materials(after) == materials(cell)) {
        assert(after_cells =~= cells.update(n, after_cells[n]));
        lemma_window_update(cells, cell.id as int, n, after_cells[n]);
        let w = window_materials(cells, cell.id as int);
        let w2 = window_materials(after_cells, cell.id as int);
        let t1 = total_materials(after, after_cells);
        let t0 = total_materials(cell, cells);
        assert forall|v: u8| t1.count(v) == t0.count(v) by {
            assert(materials(after).add(materials(after_cells[n])).count(v) == materials(cell).add(
                materials(cells[n]),
            ).count(v));
            assert(w2.add(materials(cells[n])).count(v) == w.add(materials(after_cells[n])).count(v));
        }
        assert(t1 =~= t0);
    }
}

/// A move keeps the total materials of a cell and its window.
proof fn lemma_move_keeps_total(c: Cell, cs: Seq<Cell>, z: int, i: int, x2: int, y2: int, random: u8)
    requires
        reach_in_bounds(c, cs, z, i, x2, y2),
    ensures
        total_materials(move_outcome(c, cs, z, i, x2, y2, random).1, move_outcome(c, cs, z, i, x2, y2, random).2)
            == total_materials(c, cs),
{
    lemma_move_conserves_materials(c, cs, z, i, x2, y2, random);
    let o = move_outcome(c, cs, z, i, x2, y2, random);
    let n = neighbour_id(c.id as int, x2, y2);
    lemma_trade_keeps_total(c, cs, o.1, o.2, n);
}

/// A plant spreading keeps the total materials of a cell and its window.
proof fn lemma_spread_keeps_total(c: Cell, cs: Seq<Cell>, z: int, i: int, x2: int, y2: int, random: u8)
    requires
        reach_in_bounds(c, cs, z, i, x2, y2),
    ensures
        total_materials(
            grow_destroy_outcome(c, cs, z, i, x2, y2, random).1,
            grow_destroy_outcome(c, cs, z, i, x2, y2, random).2,
        ) == total_materials(c, cs),
{
    lemma_spread_conserves_materials(c, cs, z, i, x2, y2, random);
    let o = grow_destroy_outcome(c, cs, z, i, x2, y2, random);
    let n = neighbour_id(c.id as int, x2, y2);
    lemma_trade_keeps_total(c, cs, o.1, o.2, n);
}

/// Changing a pixel's speed or the texture keeps the cell's materials.
proof fn lemma_same_ids_same_materials(c: Cell, d: Cell)
    requires
        forall|k: int| 0 <= k < GRID_LEN ==> #[trigger] d.grid@[k].id == c.grid@[k].id,
    ensures
        materials(d) == materials(c),
{
    assert(d.grid@.map_values(|q: Pixel| q.id) =~= c.grid@.map_values(|q: Pixel| q.id));
}

/// The sign of `v`: -1, 0 or 1.
pub open spec fn sign_of(v: int) -> int {
    if v > 0 {
        1
    } else if v < 0 {
        -1
    } else {
        0
    }
}

/// The state after a run of move attempts: unchanged once one has moved, else the
/// next attempt, to offset `(x2, y2)`, is made.
pub open spec fn or_move(o: (bool, Cell, Seq<Cell>), z: int, i: int, x2: int, y2: int, random: u8) -> (bool, Cell, Seq<Cell>) {
    if o.0 {
        o
    } else {
        move_outcome(o.1, o.2, z, i, x2, y2, random)
    }
}

/// The cell with the pixel at `p` brought to rest.
pub open spec fn settle_at(c: Cell, p: int) -> Cell {
    c.with_pixel(p, c.grid@[p].settled())
}

/// The cell with the pixel at `p` falling one step at a time.
pub open spec fn slow_fall_at(c: Cell, p: int) -> Cell {
    let q = c.grid@[p];
    c.with_pixel(p, Pixel { speed: [q.speed[0], 1i8], ..q })
}

/// The end of a pixel's turn: when none of its attempts moved it, it comes to rest.
pub open spec fn settle_unless_moved(o: (bool, Cell, Seq<Cell>), p: int) -> (Cell, Seq<Cell>) {
    if o.0 {
        (o.1, o.2)
    } else {
        (settle_at(o.1, p), o.2)
    }
}

/// The cell with the colour and opacity of pixel `(z, i)` written into its texture.
pub open spec fn drawn(c: Cell, z: int, i: int) -> Cell {
    let q = c.grid@[grid_index(z, i)];
    let b = data_index(z, i);
    Cell {
        pixel_data: vstd::array::spec_array_update(
            vstd::array::spec_array_update(
                vstd::array::spec_array_update(
                    vstd::array::spec_array_update(c.pixel_data, b, q.color[0]),
                    b + 1,
                    q.color[1],
                ),
                b + 2,
                q.color[2],
            ),
            b + 3,
            transparency_of(q.id),
        ),
        ..c
    }
}

/// Sand with speed `(s0, s1)` at `(z, i)`: it tries to fall straight, then (on a high
/// roll) against its sideways speed, then with it, then against it again; with a roll
/// of 0 or 1 it tries the slanted ways first and straight down last.
pub open spec fn sand_turn(c: Cell, cs: Seq<Cell>, z: int, i: int, rn: u8, s0: int, s1: int) -> (Cell, Seq<Cell>) {
    let o = (false, c, cs);
    if rn > 1 {
        let o1 = or_move(o, z, i, z, i + s1, rn);
        let o2 = if rn > 128 { or_move(o1, z, i, z - s0, i + s1, rn) } else { o1 };
        let o3 = or_move(o2, z, i, z + s0, i + s1, rn);
        let o4 = or_move(o3, z, i, z - s0, i + s1, rn);
        settle_unless_moved(o4, grid_index(z, i))
    } else {
        let o1 = or_move(o, z, i, z + s0, i + s1, rn);
        let o2 = or_move(o1, z, i, z - s0, i + s1, rn);
        let o3 = or_move(o2, z, i, z, i + s1, rn);
        settle_unless_moved(o3, grid_index(z, i))
    }
}

/// Water with falling speed `s1` at `(z, i)`: it tries a sideways step of
/// `rn % 8 - 3` and a fall; one roll in 24 tries the sideways step first. After the
/// first failed fall it falls one step at a time.
pub open spec fn water_turn(c: Cell, cs: Seq<Cell>, z: int, i: int, rn: u8, s1: int) -> (Cell, Seq<Cell>) {
    let p = grid_index(z, i);
    let side = z + (rn % 8) as int - 3;
    let o = (false, c, cs);
    if rn % 24 == 4 {
        let o1 = or_move(o, z, i, side, i, rn);
        let o2 = or_move(o1, z, i, z, i + s1, rn);
        let o3 = if o2.0 { o2 } else { (false, slow_fall_at(o2.1, p), o2.2) };
        let o4 = or_move(o3, z, i, side, i + s1, rn);
        settle_unless_moved(o4, p)
    } else {
        let o1 = or_move(o, z, i, z, i + s1, rn);
        let o2 = if o1.0 { o1 } else { (false, slow_fall_at(o1.1, p), o1.2) };
        let o3 = or_move(o2, z, i, side, i, rn);
        let o4 = or_move(o3, z, i, side, i + s1, rn);
        settle_unless_moved(o4, p)
    }
}

/// A plant at `(z, i)`: on a roll in `120..=144` it tries to spread one step in the
/// direction the roll picks.
pub open spec fn plant_turn(c: Cell, cs: Seq<Cell>, z: int, i: int, rn: u8) -> (Cell, Seq<Cell>) {
    let p = grid_index(z, i);
    if 120 <= rn <= 144 {
        let o = grow_destroy_outcome(
            c,
            cs,
            z,
            i,
            z + sign_of((rn % 12) as int - 6),
            i + sign_of((rn % 24) as int - 12),
            rn,
        );
        settle_unless_moved(o, p)
    } else {
        (settle_at(c, p), cs)
    }
}

/// One pixel's turn with roll `rn`: unless the roll equals the pixel's stored
/// iteration, its colour is drawn into the texture and sand, water and plants act.
pub open spec fn pixel_turn(c: Cell, cs: Seq<Cell>, z: int, i: int, rn: u8) -> (Cell, Seq<Cell>) {
    let q = c.grid@[grid_index(z, i)];
    if q.iteration == rn {
        (c, cs)
    } else {
        let d = drawn(c, z, i);
        if q.id == SAND {
            sand_turn(d, cs, z, i, rn, q.speed[0] as int, q.speed[1] as int)
        } else if q.id == WATER {
            water_turn(d, cs, z, i, rn, q.speed[1] as int)
        } else if q.id == PLANT {
            plant_turn(d, cs, z, i, rn)
        } else {
            (d, cs)
        }
    }
}

/// A move from `(z, i)` by less than half a cell keeps every pixel and cell well formed.
proof fn lemma_move_keeps_wf(c: Cell, cs: Seq<Cell>, z: int, i: int, x2: int, y2: int, random: u8)
    requires
        c.wf(),
        c.id < CELLS_PER_REGION,
        window_wf(cs),
        0 <= z < CELL_SIZE,
        0 <= i < CELL_SIZE,
        -64 < x2 - z < 64,
        -64 < y2 - i < 64,
    ensures
        reach_in_bounds(c, cs, z, i, x2, y2),
        move_outcome(c, cs, z, i, x2, y2, random).1.wf(),
        move_outcome(c, cs, z, i, x2, y2, random).1.id == c.id,
        window_wf(move_outcome(c, cs, z, i, x2, y2, random).2),
        move_outcome(c, cs, z, i, x2, y2, random).2[c.id as int] == cs[c.id as int],
{
    assert(c.grid@[grid_index(z, i)].wf());
    let o = move_outcome(c, cs, z, i, x2, y2, random);
    assert forall|k: int| 0 <= k < GRID_LEN implies (#[trigger] o.1.grid@[k]).wf() by {
        assert(c.grid@[k].wf());
    }
    assert forall|k: int| 0 <= k < o.2.len() implies (#[trigger] o.2[k]).wf() by {
        assert(cs[k].wf());
        let n = neighbour_id(c.id as int, x2, y2);
        if k == n && o.2 != cs {
            assert forall|j: int| 0 <= j < GRID_LEN implies (#[trigger] o.2[k].grid@[j]).wf() by {
                assert(cs[k].grid@[j].wf());
            }
        }
    }
}

/// A plant spreading from `(z, i)` by at most one step keeps every pixel and cell well
/// formed.
proof fn lemma_spread_keeps_wf(c: Cell, cs: Seq<Cell>, z: int, i: int, x2: int, y2: int, random: u8)
    requires
        c.wf(),
        c.id < CELLS_PER_REGION,
        window_wf(cs),
        0 <= z < CELL_SIZE,
        0 <= i < CELL_SIZE,
        -2 < x2 - z < 2,
        -2 < y2 - i < 2,
    ensures
        reach_in_bounds(c, cs, z, i, x2, y2),
        grow_destroy_outcome(c, cs, z, i, x2, y2, random).1.wf(),
        grow_destroy_outcome(c, cs, z, i, x2, y2, random).1.id == c.id,
        window_wf(grow_destroy_outcome(c, cs, z, i, x2, y2, random).2),
        grow_destroy_outcome(c, cs, z, i, x2, y2, random).2[c.id as int] == cs[c.id as int],
{
    assert(c.grid@[grid_index(z, i)].wf());
    let o = grow_destroy_outcome(c, cs, z, i, x2, y2, random);
    assert forall|k: int| 0 <= k < GRID_LEN implies (#[trigger] o.1.grid@[k]).wf() by {
        assert(c.grid@[k].wf());
    }
    assert forall|k: int| 0 <= k < o.2.len() implies (#[trigger] o.2[k]).wf() by {
        assert(cs[k].wf());
        let n = neighbour_id(c.id as int, x2, y2);
        if k == n && o.2 != cs {
            assert forall|j: int| 0 <= j < GRID_LEN implies (#[trigger] o.2[k].grid@[j]).wf() by {
                assert(cs[k].grid@[j].wf());
            }
        }
    }
}

/// Bringing a pixel to rest, or to a falling speed of one, keeps the cell well formed.
proof fn lemma_rest_keeps_wf(c: Cell, p: int)
    requires
        c.wf(),
        0 <= p < GRID_LEN,
    ensures
        settle_at(c, p).wf(),
        slow_fall_at(c, p).wf(),
{
    assert forall|k: int| 0 <= k < GRID_LEN implies (#[trigger] settle_at(c, p).grid@[k]).wf() by {
        assert(c.grid@[k].wf());
    }
    assert forall|k: int| 0 <= k < GRID_LEN implies (#[trigger] slow_fall_at(c, p).grid@[k]).wf() by {
        assert(c.grid@[k].wf());
    }
}

/// A move attempt in a run keeps the cells well formed and the total materials.
proof fn lemma_or_move_keeps_total(o: (bool, Cell, Seq<Cell>), z: int, i: int, x2: int, y2: int, rn: u8)
    requires
        o.1.wf(),
        o.1.id < CELLS_PER_REGION,
        window_wf(o.2),
        0 <= z < CELL_SIZE,
        0 <= i < CELL_SIZE,
        -64 < x2 - z < 64,
        -64 < y2 - i < 64,
    ensures
        or_move(o, z, i, x2, y2, rn).1.wf(),
        or_move(o, z, i, x2, y2, rn).1.id == o.1.id,
        window_wf(or_move(o, z, i, x2, y2, rn).2),
        total_materials(or_move(o, z, i, x2, y2, rn).1, or_move(o, z, i, x2, y2, rn).2) == total_materials(
            o.1,
            o.2,
        ),
{
    if !o.0 {
        lemma_move_keeps_wf(o.1, o.2, z, i, x2, y2, rn);
        lemma_move_keeps_total(o.1, o.2, z, i, x2, y2, rn);
    }
}

/// Bringing a pixel to rest, or to a falling speed of one, keeps the total materials.
proof fn lemma_rest_keeps_total(c: Cell, cs: Seq<Cell>, p: int)
    requires
        0 <= p < GRID_LEN,
    ensures
        total_materials(settle_at(c, p), cs) == total_materials(c, cs),
        total_materials(slow_fall_at(c, p), cs) == total_materials(c, cs),
{
    assert forall|k: int| 0 <= k < GRID_LEN implies #[trigger] settle_at(c, p).grid@[k].id == c.grid@[k].id by {}
    assert forall|k: int| 0 <= k < GRID_LEN implies #[trigger] slow_fall_at(c, p).grid@[k].id == c.grid@[k].id by {}
    lemma_same_ids_same_materials(c, settle_at(c, p));
    lemma_same_ids_same_materials(c, slow_fall_at(c, p));
}

/// The end of a turn keeps the total materials.
proof fn lemma_settle_unless_moved_keeps_total(o: (bool, Cell, Seq<Cell>), p: int)
    requires
        0 <= p < GRID_LEN,
    ensures
        total_materials(settle_unless_moved(o, p).0, settle_unless_moved(o, p).1) == total_materials(o.1, o.2),
{
    lemma_rest_keeps_total(o.1, o.2, p);
}

/// Sand taking its turn keeps the total materials of its cell and window.
proof fn lemma_sand_turn_keeps_total(c: Cell, cs: Seq<Cell>, z: int, i: int, rn: u8, s0: int, s1: int)
    requires
        c.wf(),
        c.id < CELLS_PER_REGION,
        window_wf(cs),
        0 <= z < CELL_SIZE,
        0 <= i < CELL_SIZE,
        -64 < s0 < 64,
        -64 < s1 < 64,
    ensures
        total_materials(sand_turn(c, cs, z, i, rn, s0, s1).0, sand_turn(c, cs, z, i, rn, s0, s1).1)
            == total_materials(c, cs),
{
    let o = (false, c, cs);
    if rn > 1 {
        let o1 = or_move(o, z, i, z, i + s1, rn);
        lemma_or_move_keeps_total(o, z, i, z, i + s1, rn);
        let o2 = if rn > 128 { or_move(o1, z, i, z - s0, i + s1, rn) } else { o1 };
        lemma_or_move_keeps_total(o1, z, i, z - s0, i + s1, rn);
        let o3 = or_move(o2, z, i, z + s0, i + s1, rn);
        lemma_or_move_keeps_total(o2, z, i, z + s0, i + s1, rn);
        let o4 = or_move(o3, z, i, z - s0, i + s1, rn);
        lemma_or_move_keeps_total(o3, z, i, z - s0, i + s1, rn);
        lemma_settle_unless_moved_keeps_total(o4, grid_index(z, i));
    } else {
        let o1 = or_move(o, z, i, z + s0, i + s1, rn);
        lemma_or_move_keeps_total(o, z, i, z + s0, i + s1, rn);
        let o2 = or_move(o1, z, i, z - s0, i + s1, rn);
        lemma_or_move_keeps_total(o1, z, i, z - s0, i + s1, rn);
        let o3 = or_move(o2, z, i, z, i + s1, rn);
        lemma_or_move_keeps_total(o2, z, i, z, i + s1, rn);
        lemma_settle_unless_moved_keeps_total(o3, grid_index(z, i));
    }
}

/// Water taking its turn keeps the total materials of its cell and window.
proof fn lemma_water_turn_keeps_total(c: Cell, cs: Seq<Cell>, z: int, i: int, rn: u8, s1: int)
    requires
        c.wf(),
        c.id < CELLS_PER_REGION,
        window_wf(cs),
        0 <= z < CELL_SIZE,
        0 <= i < CELL_SIZE,
        -64 < s1 < 64,
    ensures
        total_materials(water_turn(c, cs, z, i, rn, s1).0, water_turn(c, cs, z, i, rn, s1).1) == total_materials(
            c,
            cs,
        ),
{
    let p = grid_index(z, i);
    let side = z + (rn % 8) as int - 3;
    let o = (false, c, cs);
    if rn % 24 == 4 {
        let o1 = or_move(o, z, i, side, i, rn);
        lemma_or_move_keeps_total(o, z, i, side, i, rn);
        let o2 = or_move(o1, z, i, z, i + s1, rn);
        lemma_or_move_keeps_total(o1, z, i, z, i + s1, rn);
        let o3 = if o2.0 { o2 } else { (false, slow_fall_at(o2.1, p), o2.2) };
        lemma_rest_keeps_total(o2.1, o2.2, p);
        lemma_rest_keeps_wf(o2.1, p);
        let o4 = or_move(o3, z, i, side, i + s1, rn);
        lemma_or_move_keeps_total(o3, z, i, side, i + s1, rn);
        lemma_settle_unless_moved_keeps_total(o4, p);
    } else {
        let o1 = or_move(o, z, i, z, i + s1, rn);
        lemma_or_move_keeps_total(o, z, i, z, i + s1, rn);
        let o2 = if o1.0 { o1 } else { (false, slow_fall_at(o1.1, p), o1.2) };
        lemma_rest_keeps_total(o1.1, o1.2, p);
        lemma_rest_keeps_wf(o1.1, p);
        let o3 = or_move(o2, z, i, side, i, rn);
        lemma_or_move_keeps_total(o2, z, i, side, i, rn);
        let o4 = or_move(o3, z, i, side, i + s1, rn);
        lemma_or_move_keeps_total(o3, z, i, side, i + s1, rn);
        lemma_settle_unless_moved_keeps_total(o4, p);
    }
}

/// A plant taking its turn keeps the total materials of its cell and window.
proof fn lemma_plant_turn_keeps_total(c: Cell, cs: Seq<Cell>, z: int, i: int, rn: u8)
    requires
        c.wf(),
        c.id < CELLS_PER_REGION,
        window_wf(cs),
        0 <= z < CELL_SIZE,
        0 <= i < CELL_SIZE,
    ensures
        total_materials(plant_turn(c, cs, z, i, rn).0, plant_turn(c, cs, z, i, rn).1) == total_materials(c, cs),
{
    let p = grid_index(z, i);
    if 120 <= rn <= 144 {
        let x2 = z + sign_of((rn % 12) as int - 6);
        let y2 = i + sign_of((rn % 24) as int - 12);
        lemma_spread_keeps_wf(c, cs, z, i, x2, y2, rn);
        lemma_spread_keeps_total(c, cs, z, i, x2, y2, rn);
        lemma_settle_unless_moved_keeps_total(grow_destroy_outcome(c, cs, z, i, x2, y2, rn), p);
    } else {
        lemma_rest_keeps_total(c, cs, p);
    }
}

/// Every pixel's turn conserves material: the materials of the cell together with
/// those of the other cells of its window are the same after the turn as before,
/// whatever the roll.
pub proof fn lemma_pixel_turn_conserves_materials(c: Cell, cs: Seq<Cell>, z: int, i: int, rn: u8)
    requires
        c.wf(),
        c.id < CELLS_PER_REGION,
        window_wf(cs),
        0 <= z < CELL_SIZE,
        0 <= i < CELL_SIZE,
    ensures
        total_materials(pixel_turn(c, cs, z, i, rn).0, pixel_turn(c, cs, z, i, rn).1) == total_materials(c, cs),
{
    let q = c.grid@[grid_index(z, i)];
    assert(q.wf());
    let d = drawn(c, z, i);
    assert(d.wf());
    if q.iteration != rn {
        if q.id == SAND {
            lemma_sand_turn_keeps_total(d, cs, z, i, rn, q.speed[0] as int, q.speed[1] as int);
        } else if q.id == WATER {
            lemma_water_turn_keeps_total(d, cs, z, i, rn, q.speed[1] as int);
        } else if q.id == PLANT {
            lemma_plant_turn_keeps_total(d, cs, z, i, rn);
        }
    }
}

/// The sign of `v`: -1, 0 or 1.
fn signum(v: isize) -> (s: isize)
    ensures
        s == sign_of(v as int),
{
    if v > 0 {
        1
    } else if v < 0 {
        -1
    } else {
        0
    }
}

/// Brings the pixel at `p` to rest.
fn settle(cell: &mut Cell, p: usize)
    requires
        old(cell).wf(),
        p < GRID_LEN,
    ensures
        *final(cell) == settle_at(*old(cell), p as int),
        final(cell).wf(),
{
    cell.grid[p].speed = [1, 1];
    proof {
        let want = settle_at(*old(cell), p as int);
        assert(cell.grid@[p as int].speed =~= want.grid@[p as int].speed);
        assert(cell.grid@ =~= want.grid@);
        assert(cell.grid =~= want.grid);
        lemma_rest_keeps_wf(*old(cell), p as int);
    }
}

/// Writes the colour and opacity of the pixel at `(z, i)` into the texture data.
fn draw_pixel(cell: &mut Cell, z: usize, i: usize)
    requires
        old(cell).wf(),
        z < CELL_SIZE,
        i < CELL_SIZE,
    ensures
        *final(cell) == drawn(*old(cell), z as int, i as int),
        final(cell).wf(),
{
    let pixel = cell.grid[i * CELL_SIZE + z];
    proof {
        assert(pixel.wf());
    }
    let b = i * PITCH + z * PITCH_SIZE;
    let ghost start = *cell;
    let mut j: usize = 0;
    while j < 3
        invariant
            0 <= j <= 3,
            b == data_index(z as int, i as int),
            b + 3 < crate::PIXEL_DATA_SIZE,
            pixel == start.grid@[grid_index(z as int, i as int)],
            cell.grid == start.grid,
            cell.id == start.id,
            cell.rect == start.rect,
            cell.calculated_rect == start.calculated_rect,
            forall|k: int|
                0 <= k < crate::PIXEL_DATA_SIZE && !(b <= k < b + j) ==> #[trigger] cell.pixel_data@[k]
                    == start.pixel_data@[k],
            forall|k: int| 0 <= k < j ==> #[trigger] cell.pixel_data@[b + k] == pixel.color[k],
        decreases 3 - j,
    {
        cell.pixel_data[b + j] = pixel.color[j];
        j += 1;
    }
    cell.pixel_data[b + 3] = transparency(pixel.id);
    proof {
        let want = drawn(start, z as int, i as int);
        assert(cell.pixel_data@[b + 0] == pixel.color[0]);
        assert(cell.pixel_data@[b + 1] == pixel.color[1]);
        assert(cell.pixel_data@[b + 2] == pixel.color[2]);
        assert(cell.pixel_data@ =~= want.pixel_data@);
        assert(cell.pixel_data =~= want.pixel_data);
    }
}

/// Sets the falling speed of the pixel at `p` to one step.
fn slow_fall(cell: &mut Cell, p: usize)
    requires
        old(cell).wf(),
        p < GRID_LEN,
    ensures
        *final(cell) == slow_fall_at(*old(cell), p as int),
        final(cell).wf(),
{
    cell.grid[p].speed[1] = 1;
    proof {
        let want = slow_fall_at(*old(cell), p as int);
        assert(cell.grid@[p as int].speed =~= want.grid@[p as int].speed);
        assert(cell.grid@ =~= want.grid@);
        assert(cell.grid =~= want.grid);
        lemma_rest_keeps_wf(*old(cell), p as int);
    }
}

/// One pixel's turn: with roll `random_num` the pixel at `(z, i)` of `cell` is drawn
/// into the texture and, as sand, water or plant, tries to move or spread into `cells`.
pub fn update_pixel(cell: &mut Cell, cells: &mut Vec<Cell>, z: usize, i: usize, random_num: u8)
    requires
        old(cell).wf(),
        old(cell).id < CELLS_PER_REGION,
        window_wf(old(cells)@),
        z < CELL_SIZE,
        i < CELL_SIZE,
    ensures
        *final(cell) == pixel_turn(*old(cell), old(cells)@, z as int, i as int, random_num).0,
        final(cells)@ == pixel_turn(*old(cell), old(cells)@, z as int, i as int, random_num).1,
        final(cell).wf(),
        final(cell).id == old(cell).id,
        window_wf(final(cells)@),
        final(cells)@[old(cell).id as int] == old(cells)@[old(cell).id as int],
        total_materials(*final(cell), final(cells)@) == total_materials(*old(cell), old(cells)@),
{
    let p = i * CELL_SIZE + z;
    let pixel = cell.grid[p];
    proof {
        assert(pixel.wf());
        lemma_pixel_turn_conserves_materials(*cell, cells@, z as int, i as int, random_num);
    }
    if pixel.iteration == random_num {
        return;
    }
    draw_pixel(cell, z, i);
    let s0 = pixel.speed[0] as isize;
    let s1 = pixel.speed[1] as isize;
    match pixel.id {
        1 => sand_turn_at(cell, cells, z, i, random_num, s0, s1),
        3 => water_turn_at(cell, cells, z, i, random_num, s1),
        4 => plant_turn_at(cell, cells, z, i, random_num),
        _ => {},
    }
}

/// Sand at `(z, i)` with speed `(s0, s1)` takes its turn with roll `random_num`.
fn sand_turn_at(cell: &mut Cell, cells: &mut Vec<Cell>, z: usize, i: usize, random_num: u8, s0: isize, s1: isize)
    requires
        old(cell).wf(),
        old(cell).id < CELLS_PER_REGION,
        window_wf(old(cells)@),
        z < CELL_SIZE,
        i < CELL_SIZE,
        -64 < s0 < 64,
        -64 < s1 < 64,
    ensures
        *final(cell) == sand_turn(*old(cell), old(cells)@, z as int, i as int, random_num, s0 as int, s1 as int).0,
        final(cells)@ == sand_turn(*old(cell), old(cells)@, z as int, i as int, random_num, s0 as int, s1 as int).1,
        final(cell).wf(),
        final(cell).id == old(cell).id,
        window_wf(final(cells)@),
        final(cells)@[old(cell).id as int] == old(cells)@[old(cell).id as int],
{
    let p = i * CELL_SIZE + z;
    let zi = z as isize;
    let ii = i as isize;
    if random_num > 1 {
        proof { lemma_move_keeps_wf(*cell, cells@, z as int, i as int, zi as int, ii + s1, random_num); }
        if try_move(cell, cells, z, i, zi, ii + s1, random_num) {
            return;
        }
        if random_num > 128 {
            proof { lemma_move_keeps_wf(*cell, cells@, z as int, i as int, zi - s0, ii + s1, random_num); }
            if try_move(cell, cells, z, i, zi - s0, ii + s1, random_num) {
                return;
            }
        }
        proof { lemma_move_keeps_wf(*cell, cells@, z as int, i as int, zi + s0, ii + s1, random_num); }
        if try_move(cell, cells, z, i, zi + s0, ii + s1, random_num) {
            return;
        }
        proof { lemma_move_keeps_wf(*cell, cells@, z as int, i as int, zi - s0, ii + s1, random_num); }
        if try_move(cell, cells, z, i, zi - s0, ii + s1, random_num) {
            return;
        }
    } else {
        proof { lemma_move_keeps_wf(*cell, cells@, z as int, i as int, zi + s0, ii + s1, random_num); }
        if try_move(cell, cells, z, i, zi + s0, ii + s1, random_num) {
            return;
        }
        proof { lemma_move_keeps_wf(*cell, cells@, z as int, i as int, zi - s0, ii + s1, random_num); }
        if try_move(cell, cells, z, i, zi - s0, ii + s1, random_num) {
            return;
        }
        proof { lemma_move_keeps_wf(*cell, cells@, z as int, i as int, zi as int, ii + s1, random_num); }
        if try_move(cell, cells, z, i, zi, ii + s1, random_num) {
            return;
        }
    }
    settle(cell, p);
}

/// Water at `(z, i)` with falling speed `s1` takes its turn with roll `random_num`.
fn water_turn_at(cell: &mut Cell, cells: &mut Vec<Cell>, z: usize, i: usize, random_num: u8, s1: isize)
    requires
        old(cell).wf(),
        old(cell).id < CELLS_PER_REGION,
        window_wf(old(cells)@),
        z < CELL_SIZE,
        i < CELL_SIZE,
        -64 < s1 < 64,
    ensures
        *final(cell) == water_turn(*old(cell), old(cells)@, z as int, i as int, random_num, s1 as int).0,
        final(cells)@ == water_turn(*old(cell), old(cells)@, z as int, i as int, random_num, s1 as int).1,
        final(cell).wf(),
        final(cell).id == old(cell).id,
        window_wf(final(cells)@),
        final(cells)@[old(cell).id as int] == old(cells)@[old(cell).id as int],
{
    let p = i * CELL_SIZE + z;
    let zi = z as isize;
    let ii = i as isize;
    let side = zi + random_num as isize % 8 - 3;
    if random_num % 24 == 4 {
        proof { lemma_move_keeps_wf(*cell, cells@, z as int, i as int, side as int, ii as int, random_num); }
        if try_move(cell, cells, z, i, side, ii, random_num) {
            return;
        }
        proof { lemma_move_keeps_wf(*cell, cells@, z as int, i as int, zi as int, ii + s1, random_num); }
        if try_move(cell, cells, z, i, zi, ii + s1, random_num) {
            return;
        }
        slow_fall(cell, p);
        proof { lemma_move_keeps_wf(*cell, cells@, z as int, i as int, side as int, ii + s1, random_num); }
        if try_move(cell, cells, z, i, side, ii + s1, random_num) {
            return;
        }
    } else {
        proof { lemma_move_keeps_wf(*cell, cells@, z as int, i as int, zi as int, ii + s1, random_num); }
        if try_move(cell, cells, z, i, zi, ii + s1, random_num) {
            return;
        }
        slow_fall(cell, p);
        proof { lemma_move_keeps_wf(*cell, cells@, z as int, i as int, side as int, ii as int, random_num); }
        if try_move(cell, cells, z, i, side, ii, random_num) {
            return;
        }
        proof { lemma_move_keeps_wf(*cell, cells@, z as int, i as int, side as int, ii + s1, random_num); }
        if try_move(cell, cells, z, i, side, ii + s1, random_num) {
            return;
        }
    }
    settle(cell, p);
}

/// A plant at `(z, i)` takes its turn with roll `random_num`.
fn plant_turn_at(cell: &mut Cell, cells: &mut Vec<Cell>, z: usize, i: usize, random_num: u8)
    requires
        old(cell).wf(),
        old(cell).id < CELLS_PER_REGION,
        window_wf(old(cells)@),
        z < CELL_SIZE,
        i < CELL_SIZE,
    ensures
        *final(cell) == plant_turn(*old(cell), old(cells)@, z as int, i as int, random_num).0,
        final(cells)@ == plant_turn(*old(cell), old(cells)@, z as int, i as int, random_num).1,
        final(cell).wf(),
        final(cell).id == old(cell).id,
        window_wf(final(cells)@),
        final(cells)@[old(cell).id as int] == old(cells)@[old(cell).id as int],
{
    let p = i * CELL_SIZE + z;
    let zi = z as isize;
    let ii = i as isize;
    if random_num >= 120 && random_num <= 144 {
        let x2 = zi + signum(random_num as isize % 12 - 6);
        let y2 = ii + signum(random_num as isize % 24 - 12);
        proof { lemma_spread_keeps_wf(*cell, cells@, z as int, i as int, x2 as int, y2 as int, random_num); }
        if try_grow_destroy(cell, cells, z, i, x2, y2, random_num) {
            return;
        }
    }
    settle(cell, p);
}

/// The cell at window index `k` readied for a pass: it takes `k` as its id, and when
/// `k % 16 == tickle` both rectangles become the whole cell.
pub open spec fn prepared(c: Cell, k: int, tickle: int) -> Cell {
    if k % 16 == tickle {
        Cell { id: k as usize, rect: DirtyRect::whole_cell(), calculated_rect: DirtyRect::whole_cell(), ..c }
    } else {
        Cell { id: k as usize, ..c }
    }
}

/// The cell has something to simulate: the bounds of its rectangle do not add up to 0.
pub open spec fn has_work(c: Cell) -> bool {
    c.rect.x1 + c.rect.y1 + c.rect.x2 + c.rect.y2 != 0
}

/// Readies the cell at window index `k` for a pass: it takes `k` as its id, and on
/// the frames when `k % 16 == tickle` it is marked whole, to be simulated all over.
/// Returns whether the cell has anything to simulate: whether the bounds of its
/// rectangle do not add up to 0.
pub fn prepare_for_pass(cell: &mut Cell, k: usize, tickle: usize) -> (due: bool)
    requires
        old(cell).rects_bounded(),
    ensures
        *final(cell) == prepared(*old(cell), k as int, tickle as int),
        due == has_work(*final(cell)),
        old(cell).wf() ==> final(cell).wf(),
{
    cell.id = k;
    if cell.id % 16 == tickle {
        cell.rect = DirtyRect { x1: 0, x2: CELL_SIZE, y1: 0, y2: CELL_SIZE };
        cell.calculated_rect = DirtyRect { x1: 0, x2: CELL_SIZE, y1: 0, y2: CELL_SIZE };
    }
    cell.rect.x1 + cell.rect.y1 + cell.rect.x2 + cell.rect.y2 != 0
}

/// The turns of the pixels of row `i` from column `x1` rightwards, one for each
/// roll in `draws`.
pub open spec fn row_turns(c: Cell, cs: Seq<Cell>, x1: int, i: int, draws: Seq<u8>) -> (Cell, Seq<Cell>)
    decreases draws.len(),
{
    if draws.len() == 0 {
        (c, cs)
    } else {
        let before = row_turns(c, cs, x1, i, draws.drop_last());
        pixel_turn(before.0, before.1, x1 + draws.len() - 1, i, draws.last())
    }
}

/// The turns of whole rows, from row `y_end - 1` upwards, one row for each entry of
/// `rows`, each row from column `x1` rightwards.
pub open spec fn rows_turns(c: Cell, cs: Seq<Cell>, x1: int, y_end: int, rows: Seq<Seq<u8>>) -> (Cell, Seq<Cell>)
    decreases rows.len(),
{
    if rows.len() == 0 {
        (c, cs)
    } else {
        let before = rows_turns(c, cs, x1, y_end, rows.drop_last());
        row_turns(before.0, before.1, x1, y_end - rows.len(), rows.last())
    }
}

/// The smallest rectangle of `a`'s lower bounds and `b`'s upper ones, bound by bound.
pub open spec fn hull(a: DirtyRect, b: DirtyRect) -> DirtyRect {
    DirtyRect {
        x1: min_int(a.x1 as int, b.x1 as int) as usize,
        x2: max_int(a.x2 as int, b.x2 as int) as usize,
        y1: min_int(a.y1 as int, b.y1 as int) as usize,
        y2: max_int(a.y2 as int, b.y2 as int) as usize,
    }
}

/// A pass over rectangle `r` visits at least one pixel.
pub open spec fn pass_visits(r: DirtyRect) -> bool {
    r.x1 < r.x2 && r.y1 < r.y2
}

/// The rolls have the shape of a pass over rectangle `r`: one row of rolls per row of
/// `r`, each as long as `r` is wide.
pub open spec fn draws_shaped(r: DirtyRect, rows: Seq<Seq<u8>>) -> bool {
    &&& rows.len() == max_int(r.y2 - r.y1, 0)
    &&& forall|k: int| 0 <= k < rows.len() ==> (#[trigger] rows[k]).len() == max_int(r.x2 - r.x1, 0)
}

/// The rolls fit a pass over rectangle `r`: they have its shape and every roll is
/// below 255.
pub open spec fn draws_fit(r: DirtyRect, rows: Seq<Seq<u8>>) -> bool {
    &&& draws_shaped(r, rows)
    &&& forall|k: int, j: int| 0 <= k < rows.len() && 0 <= j < rows[k].len() ==> #[trigger] rows[k][j] < 255
}

/// The rows of rolls held in `rows`, each by its view.
pub open spec fn rolls_view(rows: Seq<Vec<u8>>) -> Seq<Seq<u8>> {
    rows.map_values(|r: Vec<u8>| r@)
}

/// A pass of `update_cell` with the rolls `rows`: the rectangle collecting this pass's
/// changes starts empty; every pixel of the calculated rectangle takes its turn, rows
/// from the bottom up, each row left to right; then the calculated rectangle becomes
/// the hull of the old and the new rectangle, and both are widened by 2.
pub open spec fn cell_pass(cell: Cell, cells: Seq<Cell>, rows: Seq<Seq<u8>>) -> (Cell, Seq<Cell>) {
    let r = cell.calculated_rect;
    let start = Cell { rect: DirtyRect { x1: 0, y1: 0, x2: 0, y2: 0 }, ..cell };
    let run = rows_turns(start, cells, r.x1 as int, r.y2 as int, rows);
    let done = Cell { calculated_rect: hull(cell.rect, run.0.rect), ..run.0 };
    (
        Cell { rect: done.rect.widened(2, 2), calculated_rect: done.calculated_rect.widened(2, 2), ..done },
        run.1,
    )
}

/// Lets every pixel in the calculated rectangle of `cell` take its turn with the
/// rolls in `rolls`, one row of rolls per row of the rectangle from the bottom up,
/// one roll per pixel from the left, moving pixels within `cell` and into its
/// neighbours in `cells`; then updates the rectangles for the next pass.
pub fn cell_pass_with(cell: &mut Cell, cells: &mut Vec<Cell>, rolls: &Vec<Vec<u8>>)
    requires
        old(cell).wf(),
        pass_visits(old(cell).calculated_rect) ==> old(cell).id < CELLS_PER_REGION && window_wf(old(cells)@),
        draws_shaped(old(cell).calculated_rect, rolls_view(rolls@)),
    ensures
        *final(cell) == cell_pass(*old(cell), old(cells)@, rolls_view(rolls@)).0,
        final(cells)@ == cell_pass(*old(cell), old(cells)@, rolls_view(rolls@)).1,
        final(cell).wf(),
        final(cell).id == old(cell).id,
        window_wf(old(cells)@) ==> window_wf(final(cells)@),
        final(cells)@[old(cell).id as int] == old(cells)@[old(cell).id as int],
        total_materials(*final(cell), final(cells)@) == total_materials(*old(cell), old(cells)@),
{
    let ghost all = rolls_view(rolls@);
    let x1 = cell.calculated_rect.x1;
    let x2 = cell.calculated_rect.x2;
    let y1 = cell.calculated_rect.y1;
    let y2 = cell.calculated_rect.y2;
    let old_rect = cell.rect;
    cell.rect = DirtyRect { x1: 0, x2: 0, y1: 0, y2: 0 };
    let ghost start = *cell;
    let ghost cells0 = cells@;
    let mut i = y2;
    let mut k: usize = 0;
    while i > y1
        invariant
            x1 == old(cell).calculated_rect.x1,
            x2 == old(cell).calculated_rect.x2,
            y1 == old(cell).calculated_rect.y1,
            y2 == old(cell).calculated_rect.y2,
            x1 <= CELL_SIZE,
            x2 <= CELL_SIZE,
            y2 <= CELL_SIZE,
            i <= y2,
            i >= y1 || i == y2,
            k == y2 - i,
            all == rolls_view(rolls@),
            draws_shaped(old(cell).calculated_rect, all),
            *cell == rows_turns(start, cells0, x1 as int, y2 as int, all.take(k as int)).0,
            cells@ == rows_turns(start, cells0, x1 as int, y2 as int, all.take(k as int)).1,
            cell.wf(),
            cell.id == old(cell).id,
            pass_visits(old(cell).calculated_rect) ==> cell.id < CELLS_PER_REGION && window_wf(cells@),
            cells@[cell.id as int] == old(cells)@[cell.id as int],
            total_materials(*cell, cells@) == total_materials(*old(cell), old(cells)@),
            window_wf(old(cells)@) ==> window_wf(cells@),
        decreases i,
    {
        i -= 1;
        let row = &rolls[k];
        proof {
            assert(row@ == all[k as int]);
        }
        let ghost row_start = (*cell, cells@);
        proof {
            assert(x1 < x2 ==> pass_visits(old(cell).calculated_rect));
        }
        let mut z = x1;
        while z < x2
            invariant
                x1 <= CELL_SIZE,
                x2 <= CELL_SIZE,
                i < CELL_SIZE,
                x1 <= z,
                z <= x2 || z == x1,
                row@.len() == max_int(x2 - x1, 0),
                *cell == row_turns(row_start.0, row_start.1, x1 as int, i as int, row@.take(z - x1)).0,
                cells@ == row_turns(row_start.0, row_start.1, x1 as int, i as int, row@.take(z - x1)).1,
                cell.wf(),
                cell.id == old(cell).id,
                x1 < x2 ==> cell.id < CELLS_PER_REGION && window_wf(cells@),
                cells@[cell.id as int] == old(cells)@[cell.id as int],
                total_materials(*cell, cells@) == total_materials(*old(cell), old(cells)@),
                window_wf(old(cells)@) ==> window_wf(cells@),
            decreases x2 - z,
        {
            let random_num = row[z - x1];
            update_pixel(cell, cells, z, i, random_num);
            proof {
                let next = row@.take(z + 1 - x1);
                assert(next.drop_last() =~= row@.take(z - x1));
                assert(next.last() == random_num);
            }
            z += 1;
        }
        proof {
            assert(row@.take(z - x1) =~= row@);
            let next = all.take(k + 1);
            assert(next.drop_last() =~= all.take(k as int));
            assert(next.last() == row@);
        }
        k += 1;
    }
    let new_rect = cell.rect;
    cell.calculated_rect = DirtyRect {
        x1: if old_rect.x1 < new_rect.x1 { old_rect.x1 } else { new_rect.x1 },
        x2: if old_rect.x2 > new_rect.x2 { old_rect.x2 } else { new_rect.x2 },
        y1: if old_rect.y1 < new_rect.y1 { old_rect.y1 } else { new_rect.y1 },
        y2: if old_rect.y2 > new_rect.y2 { old_rect.y2 } else { new_rect.y2 },
    };
    cell.rect_resize(2, 2);
    proof {
        assert(all.take(k as int) =~= all);
    }
}

/// Lets every pixel in the calculated rectangle of `cell` take its turn, with rolls
/// drawn from the thread's random generator, moving pixels within `cell` and into
/// its neighbours in `cells`; then updates the rectangles for the next pass.
pub fn update_cell(cell: &mut Cell, cells: &mut Vec<Cell>)
    requires
        old(cell).wf(),
        pass_visits(old(cell).calculated_rect) ==> old(cell).id < CELLS_PER_REGION && window_wf(old(cells)@),
    ensures
        exists|rows: Seq<Seq<u8>>|
            {
                &&& draws_fit(old(cell).calculated_rect, rows)
                &&& *final(cell) == #[trigger] cell_pass(*old(cell), old(cells)@, rows).0
                &&& final(cells)@ == cell_pass(*old(cell), old(cells)@, rows).1
            },
        final(cell).wf(),
        final(cell).id == old(cell).id,
        window_wf(old(cells)@) ==> window_wf(final(cells)@),
        final(cells)@[old(cell).id as int] == old(cells)@[old(cell).id as int],
        total_materials(*final(cell), final(cells)@) == total_materials(*old(cell), old(cells)@),
{
    let mut rng = thread_rng();
    let r = cell.calculated_rect;
    let width: usize = if r.x2 > r.x1 { r.x2 - r.x1 } else { 0 };
    let height: usize = if r.y2 > r.y1 { r.y2 - r.y1 } else { 0 };
    let mut rolls: Vec<Vec<u8>> = Vec::new();
    while rolls.len() < height
        invariant
            rolls.len() <= height,
            height == max_int(r.y2 - r.y1, 0),
            width == max_int(r.x2 - r.x1, 0),
            forall|k: int| 0 <= k < rolls.len() ==> (#[trigger] rolls@[k]).len() == width,
            forall|k: int, j: int| 0 <= k < rolls.len() && 0 <= j < rolls@[k].len() ==> #[trigger] rolls@[k]@[j] < 255,
        decreases height - rolls.len(),
    {
        let mut row: Vec<u8> = Vec::new();
        while row.len() < width
            invariant
                row.len() <= width,
                forall|j: int| 0 <= j < row.len() ==> #[trigger] row@[j] < 255,
            decreases width - row.len(),
        {
            row.push(random_below(&mut rng, 255));
        }
        rolls.push(row);
    }
    proof {
        let rows = rolls_view(rolls@);
        assert forall|k: int, j: int| 0 <= k < rows.len() && 0 <= j < rows[k].len() implies #[trigger] rows[k][j] < 255 by {
            assert(rows[k] == rolls@[k]@);
        }
        assert(draws_fit(old(cell).calculated_rect, rows));
    }
    cell_pass_with(cell, cells, &rolls);
}

/// The window index of the `n`-th cell of a frame's pass over the window: four groups
/// of 25 cells, each a checkerboard of every other row and column (odd rows and odd
/// columns first, then odd rows and even columns, even rows and odd columns, even
/// rows and even columns), each group row by row.
pub open spec fn pass_order(n: int) -> int {
    let j = 3 - n / 25;
    let m = n % 25;
    (j / 2 + 2 * (m / 5)) * CELL_AMOUNT as int + j % 2 + 2 * (m % 5)
}

/// The window after the first `n` cells of a frame's pass, with `rolls[m]` the rolls
/// of the `m`-th cell: each cell is readied, and when it has work it takes its pass
/// among the other cells of the window and goes back into its slot.
pub open spec fn window_after(cells: Seq<Cell>, tickle: int, rolls: Seq<Seq<Seq<u8>>>, n: nat) -> Seq<Cell>
    decreases n,
{
    if n == 0 {
        cells
    } else {
        let before = window_after(cells, tickle, rolls, (n - 1) as nat);
        let k = pass_order(n - 1);
        let c = prepared(before[k], k, tickle);
        if has_work(c) {
            let run = cell_pass(c, before, rolls[n - 1]);
            run.1.update(k, run.0)
        } else {
            before.update(k, c)
        }
    }
}

/// The rolls of the first `n` cells of a frame's pass fit them: each cell with work
/// had rolls below 255 shaped like its calculated rectangle.
pub open spec fn rolls_fit(cells: Seq<Cell>, tickle: int, rolls: Seq<Seq<Seq<u8>>>, n: nat) -> bool {
    forall|m: int|
        0 <= m < n ==> {
            let c = prepared(window_after(cells, tickle, rolls, m as nat)[pass_order(m)], pass_order(m), tickle);
            has_work(c) ==> draws_fit(c.calculated_rect, #[trigger] rolls[m])
        }
}

/// The first `n` cells of a pass use only the first `n` rolls.
proof fn lemma_window_after_prefix(cells: Seq<Cell>, tickle: int, rolls: Seq<Seq<Seq<u8>>>, more: Seq<Seq<Seq<u8>>>, n: nat)
    requires
        n <= rolls.len(),
        more.len() >= rolls.len(),
        forall|m: int| 0 <= m < rolls.len() ==> more[m] == rolls[m],
    ensures
        window_after(cells, tickle, more, n) == window_after(cells, tickle, rolls, n),
    decreases n,
{
    if n > 0 {
        lemma_window_after_prefix(cells, tickle, rolls, more, (n - 1) as nat);
    }
}

/// The materials of a whole window are those of any one of its cells together with
/// those of the others.
proof fn lemma_window_split(cells: Seq<Cell>, k: int)
    requires
        0 <= k < cells.len(),
    ensures
        window_materials(cells, -1) == materials(cells[k]).add(window_materials(cells, k)),
    decreases cells.len(),
{
    let rest = cells.drop_last();
    let last = cells.len() - 1;
    if k == last {
        lemma_window_skip_past(rest, k);
        assert(window_materials(cells, -1) =~= materials(cells[k]).add(window_materials(cells, k)));
    } else {
        lemma_window_split(rest, k);
        assert(rest[k] == cells[k]);
        let l = window_materials(cells, -1);
        let r = materials(cells[k]).add(window_materials(cells, k));
        assert forall|v: u8| l.count(v) == r.count(v) by {
            assert(window_materials(rest, -1).count(v) == materials(cells[k]).add(window_materials(rest, k)).count(v));
        }
        assert(l =~= r);
    }
}

/// Leaving out a slot past the end leaves out nothing.
proof fn lemma_window_skip_past(cells: Seq<Cell>, skip: int)
    requires
        skip >= cells.len(),
    ensures
        window_materials(cells, skip) == window_materials(cells, -1),
    decreases cells.len(),
{
    if cells.len() > 0 {
        lemma_window_skip_past(cells.drop_last(), skip);
    }
}

/// Replacing the left-out slot does not change the materials of the others.
proof fn lemma_window_update_skipped(cells: Seq<Cell>, k: int, c: Cell)
    requires
        0 <= k < cells.len(),
    ensures
        window_materials(cells.update(k, c), k) == window_materials(cells, k),
    decreases cells.len(),
{
    let updated = cells.update(k, c);
    if k == cells.len() - 1 {
        assert(updated.drop_last() =~= cells.drop_last());
    } else {
        assert(updated.drop_last() =~= cells.drop_last().update(k, c));
        lemma_window_update_skipped(cells.drop_last(), k, c);
    }
}

/// Writing a cell with the materials of `cell` (taken out of slot `k`) back into the
/// window gives the window `total_materials` of it.
proof fn lemma_window_put_back(cells: Seq<Cell>, k: int, c: Cell)
    requires
        0 <= k < cells.len(),
        c.id == k,
    ensures
        window_materials(cells.update(k, c), -1) == total_materials(c, cells),
{
    lemma_window_split(cells.update(k, c), k);
    lemma_window_update_skipped(cells, k, c);
}

/// One frame's pass over the window: the cells are taken in `pass_order`, four
/// checkerboard groups of 25 one after the other; each is readied for the pass with
/// `tickle`, and when it has work it takes its pass among the other cells of the
/// window with rolls from the thread's generator, then goes back into its slot.
pub fn simulate_window(window: &mut Vec<Cell>, tickle: usize)
    requires
        window_wf(old(window)@),
    ensures
        exists|rolls: Seq<Seq<Seq<u8>>>|
            {
                &&& rolls.len() == CELLS_PER_REGION
                &&& rolls_fit(old(window)@, tickle as int, rolls, CELLS_PER_REGION as nat)
                &&& final(window)@ == #[trigger] window_after(old(window)@, tickle as int, rolls, CELLS_PER_REGION as nat)
            },
        window_wf(final(window)@),
        window_materials(final(window)@, -1) == window_materials(old(window)@, -1),
{
    let ghost start = window@;
    let ghost mut rolls: Seq<Seq<Seq<u8>>> = Seq::empty();
    let mut n: usize = 0;
    while n < CELLS_PER_REGION
        invariant
            n <= CELLS_PER_REGION,
            rolls.len() == n,
            rolls_fit(start, tickle as int, rolls, n as nat),
            window@ == window_after(start, tickle as int, rolls, n as nat),
            window_wf(window@),
            window_materials(window@, -1) == window_materials(start, -1),
        decreases CELLS_PER_REGION - n,
    {
        let j = 3 - n / 25;
        let m = n % 25;
        let k = (j / 2 + 2 * (m / 5)) * CELL_AMOUNT + j % 2 + 2 * (m % 5);
        proof {
            assert(k == pass_order(n as int));
            assert(k < CELLS_PER_REGION);
        }
        let ghost before = window@;
        let mut cell = window[k];
        proof {
            assert(cell.wf());
        }
        let due = prepare_for_pass(&mut cell, k, tickle);
        proof {
            assert(cell.grid == before[k as int].grid);
            assert(materials(cell) == materials(before[k as int]));
            lemma_window_split(before, k as int);
        }
        let ghost mut rows: Seq<Seq<u8>> = Seq::empty();
        if due {
            update_cell(&mut cell, window);
            proof {
                rows = choose|rows: Seq<Seq<u8>>|
                    {
                        &&& draws_fit(prepared(before[k as int], k as int, tickle as int).calculated_rect, rows)
                        &&& cell == #[trigger] cell_pass(prepared(before[k as int], k as int, tickle as int), before, rows).0
                        &&& window@ == cell_pass(prepared(before[k as int], k as int, tickle as int), before, rows).1
                    };
            }
        }
        let ghost mid = window@;
        proof {
            lemma_window_put_back(mid, k as int, cell);
        }
        window.set(k, cell);
        proof {
            let next = rolls.push(rows);
            lemma_window_after_prefix(start, tickle as int, rolls, next, n as nat);
            assert forall|q: int| 0 <= q < n + 1 implies {
                let c = prepared(window_after(start, tickle as int, next, q as nat)[pass_order(q)], pass_order(q), tickle as int);
                has_work(c) ==> draws_fit(c.calculated_rect, #[trigger] next[q])
            } by {
                if q < n {
                    lemma_window_after_prefix(start, tickle as int, rolls, next, q as nat);
                    assert(next[q] == rolls[q]);
                }
            }
            assert(window@ =~= window_after(start, tickle as int, next, (n + 1) as nat));
            assert forall|q: int| 0 <= q < window@.len() implies (#[trigger] window@[q]).wf() by {
                if q != k {
                    assert(mid[q].wf());
                }
            }
            rolls = next;
        }
        n += 1;
    }
}

/// The step of a frame's pass at which window cell `k` takes its pass.
pub open spec fn pass_step(k: int) -> int {
    let i = k / CELL_AMOUNT as int;
    let z = k % CELL_AMOUNT as int;
    let j = 2 * (i % 2) + z % 2;
    (3 - j) * 25 + 5 * (i / 2) + z / 2
}

/// A frame's pass visits every cell of the window exactly once: `pass_order` maps
/// the steps `0..100` one to one onto the window indices `0..100`, and `pass_step`
/// gives, for each cell, the one step that visits it.
pub proof fn lemma_pass_order_is_a_permutation()
    ensures
        forall|n: int| 0 <= n < CELLS_PER_REGION ==> 0 <= #[trigger] pass_order(n) < CELLS_PER_REGION,
        forall|n: int| 0 <= n < CELLS_PER_REGION ==> pass_step(#[trigger] pass_order(n)) == n,
        forall|k: int|
            0 <= k < CELLS_PER_REGION ==> 0 <= #[trigger] pass_step(k) < CELLS_PER_REGION && pass_order(pass_step(k))
                == k,
        forall|n1: int, n2: int|
            0 <= n1 < CELLS_PER_REGION && 0 <= n2 < CELLS_PER_REGION && #[trigger] pass_order(n1)
                == #[trigger] pass_order(n2) ==> n1 == n2,
{
    assert forall|n: int| 0 <= n < CELLS_PER_REGION implies 0 <= #[trigger] pass_order(n) < CELLS_PER_REGION
        && pass_step(pass_order(n)) == n by {
        let j = 3 - n / 25;
        let m = n % 25;
        let i = j / 2 + 2 * (m / 5);
        let z = j % 2 + 2 * (m % 5);
        assert(0 <= j < 4 && 0 <= m < 25);
        assert(0 <= i < 10 && 0 <= z < 10);
        assert(pass_order(n) == i * 10 + z);
        assert((i * 10 + z) / 10 == i && (i * 10 + z) % 10 == z) by (nonlinear_arith)
            requires
                0 <= i < 10,
                0 <= z < 10,
        ;
        assert(i % 2 == j / 2 && i / 2 == m / 5);
        assert(z % 2 == j % 2 && z / 2 == m % 5);
    }
    assert forall|k: int| 0 <= k < CELLS_PER_REGION implies 0 <= #[trigger] pass_step(k) < CELLS_PER_REGION
        && pass_order(pass_step(k)) == k by {
        let i = k / 10;
        let z = k % 10;
        let j = 2 * (i % 2) + z % 2;
        let n = (3 - j) * 25 + 5 * (i / 2) + z / 2;
        assert(0 <= i < 10 && 0 <= z < 10 && k == i * 10 + z);
        assert(0 <= j < 4);
        assert(n / 25 == 3 - j && n % 25 == 5 * (i / 2) + z / 2);
        let m = n % 25;
        assert(m / 5 == i / 2 && m % 5 == z / 2);
        assert(j / 2 + 2 * (i / 2) == i && j % 2 + 2 * (z / 2) == z);
    }
    assert forall|n1: int, n2: int|
        0 <= n1 < CELLS_PER_REGION && 0 <= n2 < CELLS_PER_REGION && #[trigger] pass_order(n1)
            == #[trigger] pass_order(n2) implies n1 == n2 by {
        assert(pass_step(pass_order(n1)) == n1);
        assert(pass_step(pass_order(n2)) == n2);
    }
}

/// A sand pixel could not fall to offset `(x2, y2)`: that spot is off the window, or
/// what lies there is at least as heavy as sand.
pub open spec fn holds_up_sand(c: Cell, cs: Seq<Cell>, x2: int, y2: int) -> bool {
    target_in_window(c.id as int, x2, y2) ==> density_of(pixel_at_offset(c, cs, x2, y2).id) >= density_of(SAND)
}

/// How a run of move attempts by the sand at `p` stands against the start `(c, cs)`:
/// once it has moved, sand no longer sits at `p`; until then the window is as it was
/// and the cell holds every material where it was.
pub open spec fn sand_run(c: Cell, cs: Seq<Cell>, o: (bool, Cell, Seq<Cell>), p: int) -> bool {
    &&& o.0 ==> o.1.grid@[p].id != SAND
    &&& !o.0 ==> o.2 == cs && o.1.id == c.id && forall|k: int|
        0 <= k < GRID_LEN ==> #[trigger] o.1.grid@[k].id == c.grid@[k].id
}

/// One more attempt of a sand pixel's run: the run stays a sand run, and if it still
/// has not moved, the attempted spot held it up.
proof fn lemma_sand_attempt(c: Cell, cs: Seq<Cell>, o: (bool, Cell, Seq<Cell>), z: int, i: int, x2: int, y2: int, rn: u8)
    requires
        c.grid@[grid_index(z, i)].id == SAND,
        sand_run(c, cs, o, grid_index(z, i)),
        o.1.wf(),
        o.1.id < CELLS_PER_REGION,
        window_wf(o.2),
        0 <= z < CELL_SIZE,
        0 <= i < CELL_SIZE,
        -64 < x2 - z < 64,
        -64 < y2 - i < 64,
    ensures
        sand_run(c, cs, or_move(o, z, i, x2, y2, rn), grid_index(z, i)),
        or_move(o, z, i, x2, y2, rn).1.wf(),
        or_move(o, z, i, x2, y2, rn).1.id == o.1.id,
        window_wf(or_move(o, z, i, x2, y2, rn).2),
        !or_move(o, z, i, x2, y2, rn).0 ==> holds_up_sand(c, cs, x2, y2),
{
    lemma_or_move_keeps_total(o, z, i, x2, y2, rn);
    if !o.0 {
        let p = grid_index(z, i);
        lemma_move_keeps_wf(o.1, o.2, z, i, x2, y2, rn);
        lemma_move_displaces_only_lighter(o.1, o.2, z, i, x2, y2, rn);
        let r = or_move(o, z, i, x2, y2, rn);
        assert(o.1.grid@[p].id == SAND);
        let n = neighbour_id(c.id as int, x2, y2);
        let p2 = grid_index(wrap_coord(x2), wrap_coord(y2));
        if target_in_window(c.id as int, x2, y2) && n == c.id {
            assert(0 <= p2 < GRID_LEN);
            assert(o.1.grid@[p2].id == c.grid@[p2].id);
        }
        if !r.0 {
            assert forall|k: int| 0 <= k < GRID_LEN implies #[trigger] r.1.grid@[k].id == c.grid@[k].id by {
                assert(r.1.grid@[k].id == o.1.grid@[k].id);
            }
        }
    }
}

/// Sand that stays where it is on its turn had nothing lighter to fall into: when a
/// sand pixel's turn (with a roll other than its stored iteration) ends with sand
/// still at `(z, i)`, the spots straight down and down either diagonal, by its speed,
/// were each off the window or at least as heavy as sand.
pub proof fn lemma_resting_sand_is_held_up(c: Cell, cs: Seq<Cell>, z: int, i: int, rn: u8)
    requires
        c.wf(),
        c.id < CELLS_PER_REGION,
        window_wf(cs),
        0 <= z < CELL_SIZE,
        0 <= i < CELL_SIZE,
        c.grid@[grid_index(z, i)].id == SAND,
        c.grid@[grid_index(z, i)].iteration != rn,
    ensures
        ({
            let q = c.grid@[grid_index(z, i)];
            let s0 = q.speed[0] as int;
            let s1 = q.speed[1] as int;
            pixel_turn(c, cs, z, i, rn).0.grid@[grid_index(z, i)].id == SAND ==> {
                &&& holds_up_sand(c, cs, z, i + s1)
                &&& holds_up_sand(c, cs, z + s0, i + s1)
                &&& holds_up_sand(c, cs, z - s0, i + s1)
            }
        }),
{
    let p = grid_index(z, i);
    let q = c.grid@[p];
    assert(q.wf());
    let s0 = q.speed[0] as int;
    let s1 = q.speed[1] as int;
    let d = drawn(c, z, i);
    assert(d.wf());
    assert(d.grid == c.grid);
    let o = (false, d, cs);
    assert(sand_run(d, cs, o, p));
    let after = pixel_turn(c, cs, z, i, rn);
    if rn > 1 {
        let o1 = or_move(o, z, i, z, i + s1, rn);
        lemma_sand_attempt(d, cs, o, z, i, z, i + s1, rn);
        let o2 = if rn > 128 { or_move(o1, z, i, z - s0, i + s1, rn) } else { o1 };
        lemma_sand_attempt(d, cs, o1, z, i, z - s0, i + s1, rn);
        let o3 = or_move(o2, z, i, z + s0, i + s1, rn);
        lemma_sand_attempt(d, cs, o2, z, i, z + s0, i + s1, rn);
        let o4 = or_move(o3, z, i, z - s0, i + s1, rn);
        lemma_sand_attempt(d, cs, o3, z, i, z - s0, i + s1, rn);
        assert(after == settle_unless_moved(o4, p));
        if after.0.grid@[p].id == SAND {
            assert(!o4.0);
        }
    } else {
        let o1 = or_move(o, z, i, z + s0, i + s1, rn);
        lemma_sand_attempt(d, cs, o, z, i, z + s0, i + s1, rn);
        let o2 = or_move(o1, z, i, z - s0, i + s1, rn);
        lemma_sand_attempt(d, cs, o1, z, i, z - s0, i + s1, rn);
        let o3 = or_move(o2, z, i, z, i + s1, rn);
        lemma_sand_attempt(d, cs, o2, z, i, z, i + s1, rn);
        assert(after == settle_unless_moved(o3, p));
        if after.0.grid@[p].id == SAND {
            assert(!o3.0);
        }
    }
    assert(pixel_at_offset(d, cs, z, i + s1) == pixel_at_offset(c, cs, z, i + s1));
    assert(pixel_at_offset(d, cs, z + s0, i + s1) == pixel_at_offset(c, cs, z + s0, i + s1));
    assert(pixel_at_offset(d, cs, z - s0, i + s1) == pixel_at_offset(c, cs, z - s0, i + s1));
}

} // verus!
