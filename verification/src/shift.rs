use vstd::prelude::*;

use std::sync::{Arc, Mutex};

use crate::cell_update::sign_of;
use crate::pixels::trunc_rem;
use crate::shared::share;
use crate::structs::{fits_i32, Cell, Region};
use crate::{ACTIVE_REGS, CELLS_PER_REGION, CELL_AMOUNT, CELL_SIZE, REGION_AMOUNT};

verus! {

/// Cells along one side of the active area of 3 by 3 regions.
pub const ACTIVE_SIDE: usize = 30;

/// Cells in the active area.
pub const ACTIVE_LEN: usize = 900;

/// Regions in the loaded world.
pub const REGION_COUNT: usize = 25;

/// Index in the active area of the first cell of the centre region: ten rows of
/// thirty cells, then ten more.
pub const CENT_ACT_REG32: i32 = 310;

/// `s` turned left by `m`: its first `m` items move to the end.
pub open spec fn rotated_left<T>(s: Seq<T>, m: int) -> Seq<T> {
    s.subrange(m, s.len() as int) + s.subrange(0, m)
}

/// `s` turned right by `m`: its last `m` items move to the front.
pub open spec fn rotated_right<T>(s: Seq<T>, m: int) -> Seq<T> {
    s.subrange(s.len() - m, s.len() as int) + s.subrange(0, s.len() - m)
}

/// Turns `v` left by `mid`: its first `mid` items move to the end, in order.
fn rotate_vec_left<T>(v: &mut Vec<T>, mid: usize)
    requires
        mid <= old(v).len(),
    ensures
        final(v)@ == rotated_left(old(v)@, mid as int),
{
    let ghost start = v@;
    let mut i: usize = 0;
    while i < mid
        invariant
            i <= mid,
            mid <= start.len(),
            v@ == rotated_left(start, i as int),
        decreases mid - i,
    {
        let first = v.remove(0);
        v.push(first);
        proof {
            assert(v@ =~= rotated_left(start, i + 1));
        }
        i += 1;
    }
}

/// Turns `v` right by `k`: its last `k` items move to the front, in order.
fn rotate_vec_right<T>(v: &mut Vec<T>, k: usize)
    requires
        k <= old(v).len(),
    ensures
        final(v)@ == rotated_right(old(v)@, k as int),
{
    let ghost start = v@;
    let mut i: usize = 0;
    while i < k
        invariant
            i <= k,
            k <= start.len(),
            v@ == rotated_right(start, i as int),
        decreases k - i,
    {
        let last = v.pop();
        match last {
            Some(item) => v.insert(0, item),
            None => {},
        }
        proof {
            assert(v@ =~= rotated_right(start, i + 1));
        }
        i += 1;
    }
}

/// Index in `regions` of the region that holds cell `k` of the active area: the
/// active area is the 3 by 3 block of regions around the centre of the 5 by 5 world.
pub open spec fn active_region_of(k: int) -> int {
    REGION_AMOUNT + REGION_AMOUNT / 2 - 1 + (k / ACTIVE_SIDE as int / CELL_AMOUNT as int) * REGION_AMOUNT
        + (k % ACTIVE_SIDE as int) / CELL_AMOUNT as int
}

/// Index within its region of cell `k` of the active area.
pub open spec fn active_cell_of(k: int) -> int {
    (k % ACTIVE_SIDE as int) % CELL_AMOUNT as int + CELL_AMOUNT * ((k / ACTIVE_SIDE as int) % CELL_AMOUNT as int)
}

/// Index in `regions` of active region `j` of active row `i`.
pub open spec fn active_region(i: int, j: int) -> int {
    REGION_AMOUNT + REGION_AMOUNT / 2 - 1 + i * REGION_AMOUNT + j
}

/// Every active region has a full set of cells.
pub open spec fn active_regions_full(regions: Seq<Region>) -> bool {
    &&& regions.len() > active_region(2, 2)
    &&& forall|i: int, j: int|
        0 <= i < ACTIVE_REGS && 0 <= j < ACTIVE_REGS ==> (#[trigger] regions[active_region(i, j)]).cells.len()
            >= CELLS_PER_REGION
}

proof fn lemma_active_index(i: int, y: int, j: int, x: int)
    requires
        0 <= i < 3,
        0 <= y < 10,
        0 <= j < 3,
        0 <= x < 10,
    ensures
        active_region_of(i * 300 + y * 30 + j * 10 + x) == active_region(i, j),
        active_cell_of(i * 300 + y * 30 + j * 10 + x) == x + 10 * y,
{
    let k = i * 300 + y * 30 + j * 10 + x;
    assert(k / 30 == i * 10 + y) by (nonlinear_arith)
        requires
            k == i * 300 + y * 30 + j * 10 + x,
            0 <= y < 10,
            0 <= j < 3,
            0 <= x < 10,
    ;
    assert(k % 30 == j * 10 + x) by (nonlinear_arith)
        requires
            k == i * 300 + y * 30 + j * 10 + x,
            0 <= y < 10,
            0 <= j < 3,
            0 <= x < 10,
    ;
    assert((i * 10 + y) / 10 == i) by (nonlinear_arith)
        requires
            0 <= y < 10,
    ;
    assert((i * 10 + y) % 10 == y) by (nonlinear_arith)
        requires
            0 <= y < 10,
    ;
    assert((j * 10 + x) / 10 == j) by (nonlinear_arith)
        requires
            0 <= x < 10,
    ;
    assert((j * 10 + x) % 10 == x) by (nonlinear_arith)
        requires
            0 <= x < 10,
    ;
}

/// The handles of the active area, row by row: cell `k` is cell `active_cell_of(k)`
/// of region `active_region_of(k)`.
pub open spec fn active_area(regions: Seq<Region>) -> Seq<Arc<Mutex<Cell>>> {
    Seq::new(ACTIVE_LEN as nat, |k: int| regions[active_region_of(k)].cells@[active_cell_of(k)])
}

/// Fills `big_cells` with handles to the cells of the active area, row by row: cell
/// `k` is cell `active_cell_of(k)` of region `active_region_of(k)`.
pub fn make_big_cells(regions: &mut Vec<Region>, big_cells: &mut Vec<Arc<Mutex<Cell>>>)
    requires
        active_regions_full(old(regions)@),
    ensures
        final(regions)@ == old(regions)@,
        final(big_cells)@ == active_area(old(regions)@),
{
    big_cells.clear();
    assert(big_cells@.len() == 0);
    let mut i: usize = 0;
    while i < ACTIVE_REGS
        invariant
            i <= ACTIVE_REGS,
            active_regions_full(regions@),
            regions@ == old(regions)@,
            big_cells.len() == i * 300,
            forall|k: int|
                0 <= k < big_cells.len() ==> #[trigger] big_cells@[k] == regions@[active_region_of(
                    k,
                )].cells@[active_cell_of(k)],
        decreases ACTIVE_REGS - i,
    {
        let mut y: usize = 0;
        while y < CELL_AMOUNT
            invariant
                i < ACTIVE_REGS,
                y <= CELL_AMOUNT,
                active_regions_full(regions@),
                regions@ == old(regions)@,
                big_cells.len() == i * 300 + y * 30,
                forall|k: int|
                    0 <= k < big_cells.len() ==> #[trigger] big_cells@[k] == regions@[active_region_of(
                        k,
                    )].cells@[active_cell_of(k)],
            decreases CELL_AMOUNT - y,
        {
            let mut j: usize = 0;
            while j < ACTIVE_REGS
                invariant
                    i < ACTIVE_REGS,
                    y < CELL_AMOUNT,
                    j <= ACTIVE_REGS,
                    active_regions_full(regions@),
                    regions@ == old(regions)@,
                    big_cells.len() == i * 300 + y * 30 + j * 10,
                    forall|k: int|
                        0 <= k < big_cells.len() ==> #[trigger] big_cells@[k] == regions@[active_region_of(
                            k,
                        )].cells@[active_cell_of(k)],
                decreases ACTIVE_REGS - j,
            {
                let mut x: usize = 0;
                while x < CELL_AMOUNT
                    invariant
                        i < ACTIVE_REGS,
                        y < CELL_AMOUNT,
                        j < ACTIVE_REGS,
                        x <= CELL_AMOUNT,
                        active_regions_full(regions@),
                        regions@ == old(regions)@,
                        big_cells.len() == i * 300 + y * 30 + j * 10 + x,
                        forall|k: int|
                            0 <= k < big_cells.len() ==> #[trigger] big_cells@[k] == regions@[active_region_of(
                                k,
                            )].cells@[active_cell_of(k)],
                    decreases CELL_AMOUNT - x,
                {
                    proof {
                        lemma_active_index(i as int, y as int, j as int, x as int);
                        assert(regions@[active_region(i as int, j as int)].cells.len() >= CELLS_PER_REGION);
                    }
                    let handle = share(
                        &regions[REGION_AMOUNT + REGION_AMOUNT / 2 + i * REGION_AMOUNT + j - 1].cells[x + y
                            * CELL_AMOUNT],
                    );
                    big_cells.push(handle);
                    x += 1;
                }
                j += 1;
            }
            y += 1;
        }
        i += 1;
    }
    proof {
        assert(big_cells@ =~= active_area(old(regions)@));
    }
}

/// A region moved by `(dx, dy)` region widths to a new place in the world: it is not
/// generated there yet, its biome is stale and its generation starts over.
pub open spec fn moved_region(r: Region, dx: int, dy: int) -> Region {
    Region {
        position: [(r.position[0] + dx) as i32, (r.position[1] + dy) as i32],
        generated: false,
        biome_changed: false,
        cell_to_generate: 0,
        ..r
    }
}

/// The region with its row moved by `dy`, nothing else changed.
pub open spec fn lifted(r: Region, dy: int) -> Region {
    Region { position: [r.position[0], (r.position[1] + dy) as i32], ..r }
}

/// Index `k` lies in the first column of the 5 by 5 world.
pub open spec fn in_first_column(k: int) -> bool {
    0 <= k < REGION_COUNT && k % REGION_AMOUNT as int == 0
}

/// Index `k` lies in the last column of the 5 by 5 world.
pub open spec fn in_last_column(k: int) -> bool {
    0 <= k < REGION_COUNT && k % REGION_AMOUNT as int == REGION_AMOUNT - 1
}

/// The world turned one region eastwards: the regions slide one place left in
/// `regions`, and those that wrap into the last column move 5 columns east and one
/// row up (the first region moves 5 rows down first).
pub open spec fn shifted_east(regions: Seq<Region>) -> Seq<Region> {
    let turned = rotated_left(regions.update(0, lifted(regions[0], REGION_AMOUNT as int)), 1);
    Seq::new(
        turned.len(),
        |k: int| if in_last_column(k) { moved_region(turned[k], REGION_AMOUNT as int, -1) } else { turned[k] },
    )
}

/// The world turned one region westwards: the regions slide one place right in
/// `regions`, and those that wrap into the first column move 5 columns west and one
/// row down (the last region moves 5 rows up first).
pub open spec fn shifted_west(regions: Seq<Region>) -> Seq<Region> {
    let last = REGION_COUNT - 1;
    let turned = rotated_right(regions.update(last, lifted(regions[last], -(REGION_AMOUNT as int))), 1);
    Seq::new(
        turned.len(),
        |k: int| if in_first_column(k) { moved_region(turned[k], -(REGION_AMOUNT as int), 1) } else { turned[k] },
    )
}

/// The world turned one region row northwards: the last row wraps to the top and
/// moves 5 rows up.
pub open spec fn shifted_north(regions: Seq<Region>) -> Seq<Region> {
    let turned = rotated_right(regions, REGION_AMOUNT as int);
    Seq::new(
        turned.len(),
        |k: int| if 0 <= k < REGION_AMOUNT { moved_region(turned[k], 0, -(REGION_AMOUNT as int)) } else { turned[k] },
    )
}

/// The world turned one region row southwards: the first row wraps to the bottom
/// and moves 5 rows down.
pub open spec fn shifted_south(regions: Seq<Region>) -> Seq<Region> {
    let turned = rotated_left(regions, REGION_AMOUNT as int);
    Seq::new(
        turned.len(),
        |k: int|
            if REGION_COUNT - REGION_AMOUNT <= k < REGION_COUNT {
                moved_region(turned[k], 0, REGION_AMOUNT as int)
            } else {
                turned[k]
            },
    )
}

/// Every moved region's new position fits in `i32`.
pub open spec fn moves_fit(before: Seq<Region>, after: Seq<Region>) -> bool {
    forall|k: int|
        0 <= k < after.len() ==> fits_i32((#[trigger] after[k]).position[0] as int) && fits_i32(after[k].position[1] as int)
}

/// Turning the world east keeps every position it computes inside `i32`.
pub open spec fn east_fits(regions: Seq<Region>) -> bool {
    &&& fits_i32(regions[0].position[1] + REGION_AMOUNT)
    &&& forall|k: int|
        in_last_column(k) ==> fits_i32(
            #[trigger] rotated_left(regions.update(0, lifted(regions[0], REGION_AMOUNT as int)), 1)[k].position[0]
                + REGION_AMOUNT,
        ) && fits_i32(rotated_left(regions.update(0, lifted(regions[0], REGION_AMOUNT as int)), 1)[k].position[1] - 1)
}

/// Turning the world west keeps every position it computes inside `i32`.
pub open spec fn west_fits(regions: Seq<Region>) -> bool {
    &&& fits_i32(regions[REGION_COUNT - 1].position[1] - REGION_AMOUNT)
    &&& forall|k: int|
        in_first_column(k) ==> fits_i32(
            #[trigger] rotated_right(
                regions.update(REGION_COUNT - 1, lifted(regions[REGION_COUNT - 1], -(REGION_AMOUNT as int))),
                1,
            )[k].position[0] - REGION_AMOUNT,
        ) && fits_i32(
            rotated_right(
                regions.update(REGION_COUNT - 1, lifted(regions[REGION_COUNT - 1], -(REGION_AMOUNT as int))),
                1,
            )[k].position[1] + 1,
        )
}

/// Turns the world one region east (`shift_delta > 0`) or west (otherwise): the
/// regions rotate by one place and those that wrap around get their new position and
/// are marked for generation.
pub fn update_regions_x(regions: &mut Vec<Region>, shift_delta: i32)
    requires
        old(regions).len() >= REGION_COUNT,
        shift_delta > 0 ==> east_fits(old(regions)@),
        shift_delta <= 0 ==> west_fits(old(regions)@),
    ensures
        shift_delta > 0 ==> final(regions)@ == shifted_east(old(regions)@),
        shift_delta <= 0 ==> final(regions)@ == shifted_west(old(regions)@),
{
    if shift_delta > 0 {
        regions[0].position[1] += REGION_AMOUNT as i32;
        proof {
            assert(regions@[0].position =~= lifted(old(regions)@[0], REGION_AMOUNT as int).position);
            assert(regions@ =~= old(regions)@.update(0, lifted(old(regions)@[0], REGION_AMOUNT as int)));
        }
        rotate_vec_left(regions, 1);
        let ghost turned = regions@;
        let mut i: usize = 0;
        while i < REGION_AMOUNT
            invariant
                i <= REGION_AMOUNT,
                turned.len() >= REGION_COUNT,
                turned == rotated_left(old(regions)@.update(0, lifted(old(regions)@[0], REGION_AMOUNT as int)), 1),
                regions.len() == turned.len(),
                forall|k: int|
                    in_last_column(k) ==> fits_i32(#[trigger] turned[k].position[0] + REGION_AMOUNT) && fits_i32(
                        turned[k].position[1] - 1,
                    ),
                forall|k: int|
                    0 <= k < turned.len() ==> #[trigger] regions@[k] == if in_last_column(k) && k < REGION_AMOUNT * i {
                        moved_region(turned[k], REGION_AMOUNT as int, -1)
                    } else {
                        turned[k]
                    },
            decreases REGION_AMOUNT - i,
        {
            let k = REGION_AMOUNT * i + REGION_AMOUNT - 1;
            proof {
                assert(in_last_column(k as int));
            }
            regions[k].position[0] += REGION_AMOUNT as i32;
            regions[k].position[1] -= 1;
            regions[k].generated = false;
            regions[k].biome_changed = false;
            regions[k].cell_to_generate = 0;
            proof {
                assert(regions@[k as int].position =~= moved_region(turned[k as int], REGION_AMOUNT as int, -1).position);
            }
            i += 1;
        }
        proof {
            assert(regions@ =~= shifted_east(old(regions)@));
        }
    } else {
        regions[REGION_AMOUNT * REGION_AMOUNT - 1].position[1] -= REGION_AMOUNT as i32;
        proof {
            assert(regions@[REGION_COUNT - 1].position =~= lifted(
                old(regions)@[REGION_COUNT - 1],
                -(REGION_AMOUNT as int),
            ).position);
            assert(regions@ =~= old(regions)@.update(
                REGION_COUNT - 1,
                lifted(old(regions)@[REGION_COUNT - 1], -(REGION_AMOUNT as int)),
            ));
        }
        rotate_vec_right(regions, 1);
        let ghost turned = regions@;
        let mut i: usize = 0;
        while i < REGION_AMOUNT
            invariant
                i <= REGION_AMOUNT,
                turned.len() >= REGION_COUNT,
                turned == rotated_right(
                    old(regions)@.update(
                        REGION_COUNT - 1,
                        lifted(old(regions)@[REGION_COUNT - 1], -(REGION_AMOUNT as int)),
                    ),
                    1,
                ),
                regions.len() == turned.len(),
                forall|k: int|
                    in_first_column(k) ==> fits_i32(#[trigger] turned[k].position[0] - REGION_AMOUNT) && fits_i32(
                        turned[k].position[1] + 1,
                    ),
                forall|k: int|
                    0 <= k < turned.len() ==> #[trigger] regions@[k] == if in_first_column(k) && k < REGION_AMOUNT * i {
                        moved_region(turned[k], -(REGION_AMOUNT as int), 1)
                    } else {
                        turned[k]
                    },
            decreases REGION_AMOUNT - i,
        {
            let k = REGION_AMOUNT * i;
            proof {
                assert(in_first_column(k as int));
            }
            regions[k].position[0] -= REGION_AMOUNT as i32;
            regions[k].position[1] += 1;
            regions[k].generated = false;
            regions[k].biome_changed = false;
            regions[k].cell_to_generate = 0;
            proof {
                assert(regions@[k as int].position =~= moved_region(
                    turned[k as int],
                    -(REGION_AMOUNT as int),
                    1,
                ).position);
            }
            i += 1;
        }
        proof {
            assert(regions@ =~= shifted_west(old(regions)@));
        }
    }
}

/// Turns the world one region row north (`shift_delta < 0`) or south (otherwise):
/// the regions rotate by one row and the row that wraps around gets its new
/// position and is marked for generation.
pub fn update_regions_y(regions: &mut Vec<Region>, shift_delta: i32)
    requires
        shift_delta < 0 ==> old(regions).len() >= REGION_AMOUNT,
        shift_delta >= 0 ==> old(regions).len() >= REGION_COUNT,
        shift_delta < 0 ==> forall|k: int|
            0 <= k < REGION_AMOUNT ==> fits_i32(
                #[trigger] rotated_right(old(regions)@, REGION_AMOUNT as int)[k].position[1] - REGION_AMOUNT,
            ),
        shift_delta >= 0 ==> forall|k: int|
            REGION_COUNT - REGION_AMOUNT <= k < REGION_COUNT ==> fits_i32(
                #[trigger] rotated_left(old(regions)@, REGION_AMOUNT as int)[k].position[1] + REGION_AMOUNT,
            ),
    ensures
        shift_delta < 0 ==> final(regions)@ == shifted_north(old(regions)@),
        shift_delta >= 0 ==> final(regions)@ == shifted_south(old(regions)@),
{
    if shift_delta < 0 {
        rotate_vec_right(regions, REGION_AMOUNT);
        let ghost turned = regions@;
        let mut i: usize = 0;
        while i < REGION_AMOUNT
            invariant
                i <= REGION_AMOUNT,
                turned.len() >= REGION_AMOUNT,
                turned == rotated_right(old(regions)@, REGION_AMOUNT as int),
                regions.len() == turned.len(),
                forall|k: int|
                    0 <= k < REGION_AMOUNT ==> fits_i32(#[trigger] turned[k].position[1] - REGION_AMOUNT),
                forall|k: int|
                    0 <= k < turned.len() ==> #[trigger] regions@[k] == if k < i {
                        moved_region(turned[k], 0, -(REGION_AMOUNT as int))
                    } else {
                        turned[k]
                    },
            decreases REGION_AMOUNT - i,
        {
            regions[i].position[1] -= REGION_AMOUNT as i32;
            regions[i].generated = false;
            regions[i].biome_changed = false;
            regions[i].cell_to_generate = 0;
            proof {
                assert(regions@[i as int].position =~= moved_region(
                    turned[i as int],
                    0,
                    -(REGION_AMOUNT as int),
                ).position);
            }
            i += 1;
        }
        proof {
            assert(regions@ =~= shifted_north(old(regions)@));
        }
    } else {
        rotate_vec_left(regions, REGION_AMOUNT);
        let ghost turned = regions@;
        let mut i: usize = 0;
        while i < REGION_AMOUNT
            invariant
                i <= REGION_AMOUNT,
                turned.len() >= REGION_COUNT,
                turned == rotated_left(old(regions)@, REGION_AMOUNT as int),
                regions.len() == turned.len(),
                forall|k: int|
                    REGION_COUNT - REGION_AMOUNT <= k < REGION_COUNT ==> fits_i32(
                        #[trigger] turned[k].position[1] + REGION_AMOUNT,
                    ),
                forall|k: int|
                    0 <= k < turned.len() ==> #[trigger] regions@[k] == if REGION_COUNT - REGION_AMOUNT <= k
                        < REGION_COUNT - REGION_AMOUNT + i {
                        moved_region(turned[k], 0, REGION_AMOUNT as int)
                    } else {
                        turned[k]
                    },
            decreases REGION_AMOUNT - i,
        {
            let k = i + REGION_AMOUNT * (REGION_AMOUNT - 1);
            regions[k].position[1] += REGION_AMOUNT as i32;
            regions[k].generated = false;
            regions[k].biome_changed = false;
            regions[k].cell_to_generate = 0;
            proof {
                assert(regions@[k as int].position =~= moved_region(turned[k as int], 0, REGION_AMOUNT as int).position);
            }
            i += 1;
        }
        proof {
            assert(regions@ =~= shifted_south(old(regions)@));
        }
    }
}

/// Index in the active area of the cell that enters row `i` of the window from
/// the east, with the window at `shift_position`.
pub open spec fn east_source(shift_position: [i32; 2], i: int) -> int {
    CENT_ACT_REG32 + CELL_AMOUNT - 1 + (shift_position[1] + i) * ACTIVE_SIDE + shift_position[0]
}

/// Index in the active area of the cell that enters row `i` of the window from
/// the west.
pub open spec fn west_source(shift_position: [i32; 2], i: int) -> int {
    CENT_ACT_REG32 + (shift_position[1] + i) * ACTIVE_SIDE + shift_position[0]
}

/// Index in the active area of the cell that enters column `i` of the window from
/// the north.
pub open spec fn north_source(shift_position: [i32; 2], i: int) -> int {
    CENT_ACT_REG32 + i + shift_position[1] * ACTIVE_SIDE + shift_position[0]
}

/// Index in the active area of the cell that enters column `i` of the window from
/// the south.
pub open spec fn south_source(shift_position: [i32; 2], i: int) -> int {
    CENT_ACT_REG32 + i + (shift_position[1] + CELL_AMOUNT - 1) * ACTIVE_SIDE + shift_position[0]
}

/// Every step of computing the east sources in `i32` fits, and each names a cell of
/// the active area.
pub open spec fn east_sources_fit(shift_position: [i32; 2], active: int) -> bool {
    forall|i: int|
        0 <= i < CELL_AMOUNT ==> {
            &&& fits_i32(shift_position[1] + i)
            &&& fits_i32((shift_position[1] + i) * ACTIVE_SIDE)
            &&& fits_i32(CENT_ACT_REG32 + CELL_AMOUNT - 1 + (shift_position[1] + i) * ACTIVE_SIDE)
            &&& fits_i32(east_source(shift_position, i))
            &&& 0 <= #[trigger] east_source(shift_position, i) < active
        }
}

/// Every step of computing the west sources in `i32` fits, and each names a cell of
/// the active area.
pub open spec fn west_sources_fit(shift_position: [i32; 2], active: int) -> bool {
    forall|i: int|
        0 <= i < CELL_AMOUNT ==> {
            &&& fits_i32(shift_position[1] + i)
            &&& fits_i32((shift_position[1] + i) * ACTIVE_SIDE)
            &&& fits_i32(CENT_ACT_REG32 + (shift_position[1] + i) * ACTIVE_SIDE)
            &&& fits_i32(west_source(shift_position, i))
            &&& 0 <= #[trigger] west_source(shift_position, i) < active
        }
}

/// Every step of computing the north sources in `i32` fits, and each names a cell
/// of the active area.
pub open spec fn north_sources_fit(shift_position: [i32; 2], active: int) -> bool {
    &&& fits_i32(shift_position[1] * ACTIVE_SIDE)
    &&& forall|i: int|
        0 <= i < CELL_AMOUNT ==> {
            &&& fits_i32(CENT_ACT_REG32 + i + shift_position[1] * ACTIVE_SIDE)
            &&& fits_i32(north_source(shift_position, i))
            &&& 0 <= #[trigger] north_source(shift_position, i) < active
        }
}

/// Every step of computing the south sources in `i32` fits, and each names a cell
/// of the active area.
pub open spec fn south_sources_fit(shift_position: [i32; 2], active: int) -> bool {
    &&& fits_i32(shift_position[1] + CELL_AMOUNT)
    &&& fits_i32(shift_position[1] + CELL_AMOUNT - 1)
    &&& fits_i32((shift_position[1] + CELL_AMOUNT - 1) * ACTIVE_SIDE)
    &&& forall|i: int|
        0 <= i < CELL_AMOUNT ==> {
            &&& fits_i32(CENT_ACT_REG32 + i + (shift_position[1] + CELL_AMOUNT - 1) * ACTIVE_SIDE)
            &&& fits_i32(south_source(shift_position, i))
            &&& 0 <= #[trigger] south_source(shift_position, i) < active
        }
}

/// Index `k` lies in the last column of the window.
pub open spec fn in_window_east_edge(k: int) -> bool {
    0 <= k < CELLS_PER_REGION && k % CELL_AMOUNT as int == CELL_AMOUNT - 1
}

/// Index `k` lies in the first column of the window.
pub open spec fn in_window_west_edge(k: int) -> bool {
    0 <= k < CELLS_PER_REGION && k % CELL_AMOUNT as int == 0
}

/// The window turned one cell east: the cells slide one place left and the last
/// column takes the cells east of the window at `shift_position`.
pub open spec fn slid_east(
    cells: Seq<Arc<Mutex<Cell>>>,
    big_cells: Seq<Arc<Mutex<Cell>>>,
    shift_position: [i32; 2],
) -> Seq<Arc<Mutex<Cell>>> {
    Seq::new(
        cells.len(),
        |k: int|
            if in_window_east_edge(k) {
                big_cells[east_source(shift_position, k / CELL_AMOUNT as int)]
            } else {
                rotated_left(cells, 1)[k]
            },
    )
}

/// The window turned one cell west: the cells slide one place right and the first
/// column takes the cells west of the window at `shift_position`.
pub open spec fn slid_west(
    cells: Seq<Arc<Mutex<Cell>>>,
    big_cells: Seq<Arc<Mutex<Cell>>>,
    shift_position: [i32; 2],
) -> Seq<Arc<Mutex<Cell>>> {
    Seq::new(
        cells.len(),
        |k: int|
            if in_window_west_edge(k) {
                big_cells[west_source(shift_position, k / CELL_AMOUNT as int)]
            } else {
                rotated_right(cells, 1)[k]
            },
    )
}

/// The window turned one cell north: the cells slide one row down and the first row
/// takes the cells north of the window at `shift_position`.
pub open spec fn slid_north(
    cells: Seq<Arc<Mutex<Cell>>>,
    big_cells: Seq<Arc<Mutex<Cell>>>,
    shift_position: [i32; 2],
) -> Seq<Arc<Mutex<Cell>>> {
    Seq::new(
        cells.len(),
        |k: int|
            if 0 <= k < CELL_AMOUNT {
                big_cells[north_source(shift_position, k)]
            } else {
                rotated_right(cells, CELL_AMOUNT as int)[k]
            },
    )
}

/// The window turned one cell south: the cells slide one row up and the last row
/// takes the cells south of the window at `shift_position`.
pub open spec fn slid_south(
    cells: Seq<Arc<Mutex<Cell>>>,
    big_cells: Seq<Arc<Mutex<Cell>>>,
    shift_position: [i32; 2],
) -> Seq<Arc<Mutex<Cell>>> {
    Seq::new(
        cells.len(),
        |k: int|
            if CELLS_PER_REGION - CELL_AMOUNT <= k < CELLS_PER_REGION {
                big_cells[south_source(shift_position, k - (CELLS_PER_REGION - CELL_AMOUNT))]
            } else {
                rotated_left(cells, CELL_AMOUNT as int)[k]
            },
    )
}

/// Slides the window of cells one cell east (`shift_delta[0] > 0`) or west
/// (otherwise): the cells rotate by one place and the column that wraps around is
/// filled from the active area at the window's new `shift_position`.
pub fn update_cells_x(
    cells: &mut Vec<Arc<Mutex<Cell>>>,
    big_cells: &mut Vec<Arc<Mutex<Cell>>>,
    shift_delta: [i32; 2],
    shift_position: [i32; 2],
)
    requires
        shift_delta[0] > 0 ==> old(cells).len() >= CELLS_PER_REGION && east_sources_fit(
            shift_position,
            old(big_cells).len() as int,
        ),
        shift_delta[0] <= 0 ==> old(cells).len() > CELLS_PER_REGION - CELL_AMOUNT && west_sources_fit(
            shift_position,
            old(big_cells).len() as int,
        ),
    ensures
        final(big_cells)@ == old(big_cells)@,
        final(cells).len() == old(cells).len(),
        shift_delta[0] > 0 ==> final(cells)@ == slid_east(old(cells)@, old(big_cells)@, shift_position),
        shift_delta[0] <= 0 ==> final(cells)@ == slid_west(old(cells)@, old(big_cells)@, shift_position),
{
    if shift_delta[0] > 0 {
        rotate_vec_left(cells, 1);
        let ghost turned = cells@;
        let mut i: usize = 0;
        while i < CELL_AMOUNT
            invariant
                i <= CELL_AMOUNT,
                turned == rotated_left(old(cells)@, 1),
                turned.len() >= CELLS_PER_REGION,
                cells.len() == turned.len(),
                big_cells@ == old(big_cells)@,
                east_sources_fit(shift_position, big_cells.len() as int),
                forall|k: int|
                    0 <= k < turned.len() ==> #[trigger] cells@[k] == if in_window_east_edge(k) && k < CELL_AMOUNT * i {
                        big_cells@[east_source(shift_position, k / CELL_AMOUNT as int)]
                    } else {
                        turned[k]
                    },
            decreases CELL_AMOUNT - i,
        {
            proof {
                assert(0 <= east_source(shift_position, i as int) < big_cells.len());
            }
            let source = (CENT_ACT_REG32 + CELL_AMOUNT as i32 - 1 + (shift_position[1] + i as i32) * (CELL_AMOUNT
                * ACTIVE_REGS) as i32 + shift_position[0]) as usize;
            let handle = share(&big_cells[source]);
            cells.set((i + 1) * CELL_AMOUNT - 1, handle);
            proof {
                assert(((i + 1) * CELL_AMOUNT - 1) as int / CELL_AMOUNT as int == i);
            }
            i += 1;
        }
        proof {
            assert(cells@ =~= slid_east(old(cells)@, old(big_cells)@, shift_position));
        }
    } else {
        rotate_vec_right(cells, 1);
        let ghost turned = cells@;
        let mut i: usize = 0;
        while i < CELL_AMOUNT
            invariant
                i <= CELL_AMOUNT,
                turned == rotated_right(old(cells)@, 1),
                turned.len() > CELLS_PER_REGION - CELL_AMOUNT,
                cells.len() == turned.len(),
                big_cells@ == old(big_cells)@,
                west_sources_fit(shift_position, big_cells.len() as int),
                forall|k: int|
                    0 <= k < turned.len() ==> #[trigger] cells@[k] == if in_window_west_edge(k) && k < CELL_AMOUNT * i {
                        big_cells@[west_source(shift_position, k / CELL_AMOUNT as int)]
                    } else {
                        turned[k]
                    },
            decreases CELL_AMOUNT - i,
        {
            proof {
                assert(0 <= west_source(shift_position, i as int) < big_cells.len());
            }
            let source = (CENT_ACT_REG32 + (shift_position[1] + i as i32) * (CELL_AMOUNT * ACTIVE_REGS) as i32
                + shift_position[0]) as usize;
            let handle = share(&big_cells[source]);
            cells.set(i * CELL_AMOUNT, handle);
            proof {
                assert((i * CELL_AMOUNT) as int / CELL_AMOUNT as int == i);
            }
            i += 1;
        }
        proof {
            assert(cells@ =~= slid_west(old(cells)@, old(big_cells)@, shift_position));
        }
    }
}

/// Slides the window of cells one cell north (`shift_delta[1] < 0`) or south
/// (otherwise): the cells rotate by one row and the row that wraps around is filled
/// from the active area at the window's new `shift_position`.
pub fn update_cells_y(
    cells: &mut Vec<Arc<Mutex<Cell>>>,
    big_cells: &mut Vec<Arc<Mutex<Cell>>>,
    shift_delta: [i32; 2],
    shift_position: [i32; 2],
)
    requires
        shift_delta[1] < 0 ==> old(cells).len() >= CELL_AMOUNT && north_sources_fit(
            shift_position,
            old(big_cells).len() as int,
        ),
        shift_delta[1] >= 0 ==> old(cells).len() >= CELLS_PER_REGION && south_sources_fit(
            shift_position,
            old(big_cells).len() as int,
        ),
    ensures
        final(big_cells)@ == old(big_cells)@,
        final(cells).len() == old(cells).len(),
        shift_delta[1] < 0 ==> final(cells)@ == slid_north(old(cells)@, old(big_cells)@, shift_position),
        shift_delta[1] >= 0 ==> final(cells)@ == slid_south(old(cells)@, old(big_cells)@, shift_position),
{
    if shift_delta[1] < 0 {
        rotate_vec_right(cells, CELL_AMOUNT);
        let ghost turned = cells@;
        let mut i: usize = 0;
        while i < CELL_AMOUNT
            invariant
                i <= CELL_AMOUNT,
                turned == rotated_right(old(cells)@, CELL_AMOUNT as int),
                turned.len() >= CELL_AMOUNT,
                cells.len() == turned.len(),
                big_cells@ == old(big_cells)@,
                north_sources_fit(shift_position, big_cells.len() as int),
                forall|k: int|
                    0 <= k < turned.len() ==> #[trigger] cells@[k] == if 0 <= k < i {
                        big_cells@[north_source(shift_position, k)]
                    } else {
                        turned[k]
                    },
            decreases CELL_AMOUNT - i,
        {
            proof {
                assert(0 <= north_source(shift_position, i as int) < big_cells.len());
            }
            let source = (CENT_ACT_REG32 + i as i32 + shift_position[1] * (CELL_AMOUNT * ACTIVE_REGS) as i32
                + shift_position[0]) as usize;
            let handle = share(&big_cells[source]);
            cells.set(i, handle);
            i += 1;
        }
        proof {
            assert(cells@ =~= slid_north(old(cells)@, old(big_cells)@, shift_position));
        }
    } else {
        rotate_vec_left(cells, CELL_AMOUNT);
        let ghost turned = cells@;
        let mut i: usize = 0;
        while i < CELL_AMOUNT
            invariant
                i <= CELL_AMOUNT,
                turned == rotated_left(old(cells)@, CELL_AMOUNT as int),
                turned.len() >= CELLS_PER_REGION,
                cells.len() == turned.len(),
                big_cells@ == old(big_cells)@,
                south_sources_fit(shift_position, big_cells.len() as int),
                forall|k: int|
                    0 <= k < turned.len() ==> #[trigger] cells@[k] == if CELLS_PER_REGION - CELL_AMOUNT <= k
                        < CELLS_PER_REGION - CELL_AMOUNT + i {
                        big_cells@[south_source(shift_position, k - (CELLS_PER_REGION - CELL_AMOUNT))]
                    } else {
                        turned[k]
                    },
            decreases CELL_AMOUNT - i,
        {
            proof {
                assert(0 <= south_source(shift_position, i as int) < big_cells.len());
            }
            let source = (CENT_ACT_REG32 + i as i32 + (shift_position[1] + CELL_AMOUNT as i32 - 1) * (CELL_AMOUNT
                * ACTIVE_REGS) as i32 + shift_position[0]) as usize;
            let handle = share(&big_cells[source]);
            cells.set(i + CELL_AMOUNT * (CELL_AMOUNT - 1), handle);
            i += 1;
        }
        proof {
            assert(cells@ =~= slid_south(old(cells)@, old(big_cells)@, shift_position));
        }
    }
}

/// `k` splits into `k / d` whole steps of `d` and the remainder `k % d`.
proof fn lemma_split(k: int, d: int)
    requires
        0 <= k,
        0 < d,
    ensures
        k == d * (k / d) + k % d,
        0 <= k % d < d,
        0 <= k / d,
{
    assert(k == d * (k / d) + k % d && 0 <= k % d < d && 0 <= k / d) by (nonlinear_arith)
        requires
            0 <= k,
            0 < d,
    ;
}

/// The regions lie in reading order on the 5 by 5 grid of the world whose first
/// region sits at `(x0, y0)`.
pub open spec fn regions_tiled(regions: Seq<Region>, x0: int, y0: int) -> bool {
    &&& regions.len() == REGION_COUNT
    &&& forall|k: int|
        0 <= k < REGION_COUNT ==> (#[trigger] regions[k]).position[0] == x0 + k % REGION_AMOUNT as int
            && regions[k].position[1] == y0 + k / REGION_AMOUNT as int
}

/// Turning the world east keeps the regions tiled in reading order, one column
/// further east, and the column that came in waits to be generated.
pub proof fn lemma_east_keeps_tiling(regions: Seq<Region>, x0: int, y0: int)
    requires
        regions_tiled(regions, x0, y0),
        fits_i32(x0 + REGION_AMOUNT),
        fits_i32(y0 + REGION_AMOUNT),
    ensures
        regions_tiled(shifted_east(regions), x0 + 1, y0),
        forall|k: int| in_last_column(k) ==> !(#[trigger] shifted_east(regions)[k]).generated,
{
    let after = shifted_east(regions);
    let bumped = regions.update(0, lifted(regions[0], REGION_AMOUNT as int));
    assert forall|k: int| 0 <= k < REGION_COUNT implies (#[trigger] after[k]).position[0] == x0 + 1 + k
        % REGION_AMOUNT as int && after[k].position[1] == y0 + k / REGION_AMOUNT as int by {
        lemma_split(k, 5);
        if k < 24 {
            assert(rotated_left(bumped, 1)[k] == bumped[k + 1]);
            lemma_split(k + 1, 5);
            assert(regions[k + 1].position[0] == x0 + (k + 1) % 5);
        } else {
            assert(rotated_left(bumped, 1)[k] == bumped[0]);
            assert(regions[0].position[0] == x0 + 0int % 5);
        }
    }
}

/// Turning the world west keeps the regions tiled in reading order, one column
/// further west, and the column that came in waits to be generated.
pub proof fn lemma_west_keeps_tiling(regions: Seq<Region>, x0: int, y0: int)
    requires
        regions_tiled(regions, x0, y0),
        fits_i32(x0 - 1),
        fits_i32(y0 - 1),
    ensures
        regions_tiled(shifted_west(regions), x0 - 1, y0),
        forall|k: int| in_first_column(k) ==> !(#[trigger] shifted_west(regions)[k]).generated,
{
    let after = shifted_west(regions);
    let bumped = regions.update(24, lifted(regions[24], -(REGION_AMOUNT as int)));
    assert forall|k: int| 0 <= k < REGION_COUNT implies (#[trigger] after[k]).position[0] == x0 - 1 + k
        % REGION_AMOUNT as int && after[k].position[1] == y0 + k / REGION_AMOUNT as int by {
        lemma_split(k, 5);
        if k > 0 {
            assert(rotated_right(bumped, 1)[k] == bumped[k - 1]);
            lemma_split(k - 1, 5);
            assert(regions[k - 1].position[0] == x0 + (k - 1) % 5);
        } else {
            assert(rotated_right(bumped, 1)[k] == bumped[24]);
            assert(regions[24].position[0] == x0 + 24int % 5);
        }
    }
}

/// Turning the world north keeps the regions tiled in reading order, one row
/// further north, and the row that came in waits to be generated.
pub proof fn lemma_north_keeps_tiling(regions: Seq<Region>, x0: int, y0: int)
    requires
        regions_tiled(regions, x0, y0),
        fits_i32(y0 - 1),
    ensures
        regions_tiled(shifted_north(regions), x0, y0 - 1),
        forall|k: int| 0 <= k < REGION_AMOUNT ==> !(#[trigger] shifted_north(regions)[k]).generated,
{
    let after = shifted_north(regions);
    assert forall|k: int| 0 <= k < REGION_COUNT implies (#[trigger] after[k]).position[0] == x0 + k
        % REGION_AMOUNT as int && after[k].position[1] == y0 - 1 + k / REGION_AMOUNT as int by {
        lemma_split(k, 5);
        if k >= 5 {
            assert(rotated_right(regions, 5)[k] == regions[k - 5]);
            lemma_split(k - 5, 5);
            assert(regions[k - 5].position[0] == x0 + (k - 5) % 5);
        } else {
            assert(rotated_right(regions, 5)[k] == regions[k + 20]);
            lemma_split(k + 20, 5);
            assert(regions[k + 20].position[0] == x0 + (k + 20) % 5);
        }
    }
}

/// Turning the world south keeps the regions tiled in reading order, one row
/// further south, and the row that came in waits to be generated.
pub proof fn lemma_south_keeps_tiling(regions: Seq<Region>, x0: int, y0: int)
    requires
        regions_tiled(regions, x0, y0),
        fits_i32(y0 + REGION_AMOUNT),
    ensures
        regions_tiled(shifted_south(regions), x0, y0 + 1),
        forall|k: int|
            REGION_COUNT - REGION_AMOUNT <= k < REGION_COUNT ==> !(#[trigger] shifted_south(regions)[k]).generated,
{
    let after = shifted_south(regions);
    assert forall|k: int| 0 <= k < REGION_COUNT implies (#[trigger] after[k]).position[0] == x0 + k
        % REGION_AMOUNT as int && after[k].position[1] == y0 + 1 + k / REGION_AMOUNT as int by {
        lemma_split(k, 5);
        if k < 20 {
            assert(rotated_left(regions, 5)[k] == regions[k + 5]);
            lemma_split(k + 5, 5);
            assert(regions[k + 5].position[0] == x0 + (k + 5) % 5);
        } else {
            assert(rotated_left(regions, 5)[k] == regions[k - 20]);
            lemma_split(k - 20, 5);
            assert(regions[k - 20].position[0] == x0 + (k - 20) % 5);
        }
    }
}

/// Index in the active area of cell `k` of the window at `shift_position`: the
/// window is 10 by 10 cells whose top left corner is the centre region's, moved by
/// `shift_position`.
pub open spec fn window_source(shift_position: [i32; 2], k: int) -> int {
    (CELL_AMOUNT + shift_position[1] + k / CELL_AMOUNT as int) * ACTIVE_SIDE + CELL_AMOUNT + shift_position[0] + k
        % CELL_AMOUNT as int
}

/// `cells` shows the active area `big_cells` through the window at `shift_position`.
pub open spec fn window_over(
    cells: Seq<Arc<Mutex<Cell>>>,
    big_cells: Seq<Arc<Mutex<Cell>>>,
    shift_position: [i32; 2],
) -> bool {
    &&& cells.len() == CELLS_PER_REGION
    &&& forall|k: int|
        0 <= k < CELLS_PER_REGION ==> 0 <= window_source(shift_position, k) < big_cells.len() && #[trigger] cells[k]
            == big_cells[window_source(shift_position, k)]
}

/// After `make_big_cells`, the cells of the centre region are the window at shift
/// `(0, 0)`.
pub proof fn lemma_centre_region_in_view(regions: Seq<Region>)
    requires
        active_regions_full(regions),
        regions[active_region(1, 1)].cells.len() == CELLS_PER_REGION,
    ensures
        window_over(regions[active_region(1, 1)].cells@, active_area(regions), [0i32, 0i32]),
{
    let centre = regions[active_region(1, 1)].cells@;
    assert forall|k: int| 0 <= k < CELLS_PER_REGION implies 0 <= window_source([0i32, 0i32], k) < ACTIVE_LEN
        && #[trigger] centre[k] == active_area(regions)[window_source([0i32, 0i32], k)] by {
        lemma_split(k, 10);
        let r = k / 10;
        let c = k % 10;
        lemma_active_index(1, r, 1, c);
        assert(window_source([0i32, 0i32], k) == 1 * 300 + r * 30 + 1 * 10 + c);
    }
}

/// Turning the window one cell east, with the shift position moved one cell east,
/// keeps it showing the active area.
pub proof fn lemma_east_keeps_window(
    cells: Seq<Arc<Mutex<Cell>>>,
    big_cells: Seq<Arc<Mutex<Cell>>>,
    shift_position: [i32; 2],
    moved: [i32; 2],
)
    requires
        window_over(cells, big_cells, shift_position),
        moved[0] == shift_position[0] + 1,
        moved[1] == shift_position[1],
        east_sources_fit(moved, big_cells.len() as int),
    ensures
        window_over(slid_east(cells, big_cells, moved), big_cells, moved),
{
    let after = slid_east(cells, big_cells, moved);
    assert(after.len() == CELLS_PER_REGION);
    assert forall|k: int|
        #![trigger after[k]]
        #![trigger window_source(moved, k)]
        0 <= k < CELLS_PER_REGION implies 0 <= window_source(moved, k) < big_cells.len() && after[k]
            == big_cells[window_source(moved, k)] by {
        lemma_split(k, 10);
        if in_window_east_edge(k) {
            assert(0 <= east_source(moved, k / 10) < big_cells.len());
        } else {
            assert(rotated_left(cells, 1)[k] == cells[k + 1]);
            lemma_split(k + 1, 10);
            assert(cells[k + 1] == big_cells[window_source(shift_position, k + 1)]);
        }
    }
}

/// Turning the window one cell west, with the shift position moved one cell west,
/// keeps it showing the active area.
pub proof fn lemma_west_keeps_window(
    cells: Seq<Arc<Mutex<Cell>>>,
    big_cells: Seq<Arc<Mutex<Cell>>>,
    shift_position: [i32; 2],
    moved: [i32; 2],
)
    requires
        window_over(cells, big_cells, shift_position),
        moved[0] == shift_position[0] - 1,
        moved[1] == shift_position[1],
        west_sources_fit(moved, big_cells.len() as int),
    ensures
        window_over(slid_west(cells, big_cells, moved), big_cells, moved),
{
    let after = slid_west(cells, big_cells, moved);
    assert(after.len() == CELLS_PER_REGION);
    assert forall|k: int|
        #![trigger after[k]]
        #![trigger window_source(moved, k)]
        0 <= k < CELLS_PER_REGION implies 0 <= window_source(moved, k) < big_cells.len() && after[k]
            == big_cells[window_source(moved, k)] by {
        lemma_split(k, 10);
        if in_window_west_edge(k) {
            assert(0 <= west_source(moved, k / 10) < big_cells.len());
        } else {
            assert(rotated_right(cells, 1)[k] == cells[k - 1]);
            lemma_split(k - 1, 10);
            assert(cells[k - 1] == big_cells[window_source(shift_position, k - 1)]);
        }
    }
}

/// Turning the window one cell north, with the shift position moved one cell north,
/// keeps it showing the active area.
pub proof fn lemma_north_keeps_window(
    cells: Seq<Arc<Mutex<Cell>>>,
    big_cells: Seq<Arc<Mutex<Cell>>>,
    shift_position: [i32; 2],
    moved: [i32; 2],
)
    requires
        window_over(cells, big_cells, shift_position),
        moved[0] == shift_position[0],
        moved[1] == shift_position[1] - 1,
        north_sources_fit(moved, big_cells.len() as int),
    ensures
        window_over(slid_north(cells, big_cells, moved), big_cells, moved),
{
    let after = slid_north(cells, big_cells, moved);
    assert(after.len() == CELLS_PER_REGION);
    assert forall|k: int|
        #![trigger after[k]]
        #![trigger window_source(moved, k)]
        0 <= k < CELLS_PER_REGION implies 0 <= window_source(moved, k) < big_cells.len() && after[k]
            == big_cells[window_source(moved, k)] by {
        lemma_split(k, 10);
        if k < 10 {
            assert(0 <= north_source(moved, k) < big_cells.len());
        } else {
            assert(rotated_right(cells, 10)[k] == cells[k - 10]);
            lemma_split(k - 10, 10);
            assert(cells[k - 10] == big_cells[window_source(shift_position, k - 10)]);
        }
    }
}

/// Turning the window one cell south, with the shift position moved one cell south,
/// keeps it showing the active area.
pub proof fn lemma_south_keeps_window(
    cells: Seq<Arc<Mutex<Cell>>>,
    big_cells: Seq<Arc<Mutex<Cell>>>,
    shift_position: [i32; 2],
    moved: [i32; 2],
)
    requires
        window_over(cells, big_cells, shift_position),
        moved[0] == shift_position[0],
        moved[1] == shift_position[1] + 1,
        south_sources_fit(moved, big_cells.len() as int),
    ensures
        window_over(slid_south(cells, big_cells, moved), big_cells, moved),
{
    let after = slid_south(cells, big_cells, moved);
    assert(after.len() == CELLS_PER_REGION);
    assert forall|k: int|
        #![trigger after[k]]
        #![trigger window_source(moved, k)]
        0 <= k < CELLS_PER_REGION implies 0 <= window_source(moved, k) < big_cells.len() && after[k]
            == big_cells[window_source(moved, k)] by {
        lemma_split(k, 10);
        if k >= 90 {
            assert(0 <= south_source(moved, k - 90) < big_cells.len());
        } else {
            assert(rotated_left(cells, 10)[k] == cells[k + 10]);
            lemma_split(k + 10, 10);
            assert(cells[k + 10] == big_cells[window_source(shift_position, k + 10)]);
        }
    }
}

/// Whether a count `r` of cells scrolled along `axis` (0: x, 1: y) since the regions
/// last moved calls for them to move: along x once it reaches a region's width either
/// way, along y when it is exactly a region's width either way.
pub open spec fn regions_due(axis: int, r: int) -> bool {
    if axis == 0 {
        r >= CELL_AMOUNT || r <= -(CELL_AMOUNT as int)
    } else {
        r == CELL_AMOUNT || r == -(CELL_AMOUNT as int)
    }
}

/// The bookkeeping of a scroll of the view by `delta` cells along `axis` (0: x, 1: y).
/// The window's shift position moves by `delta` and is brought below a region's width
/// as Rust's `%` does; the previous mouse position moves back by `delta` cells'
/// pixels; the count of cells scrolled since the regions last moved grows by `delta`,
/// and when `regions_due` holds of it, it falls back by a region's width towards 0.
/// Returns whether the regions are to move. The other axis is left alone.
pub fn scroll_step(
    shift_position: &mut [i32; 2],
    region_shift_position: &mut [i32; 2],
    mouse_prev: &mut [i32; 2],
    axis: usize,
    delta: i32,
) -> (regions_move: bool)
    requires
        axis < 2,
        fits_i32(old(shift_position)[axis as int] + delta),
        fits_i32(old(region_shift_position)[axis as int] + delta),
        old(region_shift_position)[axis as int] + delta != i32::MIN,
        fits_i32(CELL_SIZE * delta),
        fits_i32(old(mouse_prev)[axis as int] - CELL_SIZE * delta),
    ensures
        ({
            let r = old(region_shift_position)[axis as int] + delta;
            &&& regions_move == regions_due(axis as int, r)
            &&& final(region_shift_position)@ == old(region_shift_position)@.update(
                axis as int,
                (if regions_move { r - CELL_AMOUNT * sign_of(r) } else { r }) as i32,
            )
        }),
        final(shift_position)@ == old(shift_position)@.update(
            axis as int,
            trunc_rem(old(shift_position)[axis as int] + delta, CELL_AMOUNT as int) as i32,
        ),
        final(mouse_prev)@ == old(mouse_prev)@.update(
            axis as int,
            (old(mouse_prev)[axis as int] - CELL_SIZE * delta) as i32,
        ),
{
    let moved = shift_position[axis] as i64 + delta as i64;
    let magnitude_moved: u64 = if moved < 0 { (-moved) as u64 } else { moved as u64 };
    let rem = (magnitude_moved % CELL_AMOUNT as u64) as i64;
    shift_position[axis] = (if moved < 0 { -rem } else { rem }) as i32;
    region_shift_position[axis] += delta;
    mouse_prev[axis] -= CELL_SIZE as i32 * delta;
    let r = region_shift_position[axis];
    let magnitude = if r < 0 { -r } else { r };
    let due = if axis == 0 { magnitude >= CELL_AMOUNT as i32 } else { magnitude == CELL_AMOUNT as i32 };
    if due {
        let sign: i32 = if r > 0 { 1 } else if r < 0 { -1 } else { 0 };
        region_shift_position[axis] -= CELL_AMOUNT as i32 * sign;
    }
    proof {
        assert(shift_position@ =~= old(shift_position)@.update(
            axis as int,
            trunc_rem(old(shift_position)[axis as int] + delta, CELL_AMOUNT as int) as i32,
        ));
        assert(mouse_prev@ =~= old(mouse_prev)@.update(
            axis as int,
            (old(mouse_prev)[axis as int] - CELL_SIZE * delta) as i32,
        ));
    }
    due
}

/// Scrolling keeps both counts of an axis below a region's width: the window's shift
/// position always, and the count of cells scrolled since the regions last moved
/// when the scroll is at most a region's width along x, or a single cell along y.
pub proof fn lemma_scroll_keeps_counts(shift: int, region_shift: int, axis: int, delta: int)
    requires
        0 <= axis < 2,
        -(CELL_AMOUNT as int) < region_shift < CELL_AMOUNT,
        axis == 0 ==> -(CELL_AMOUNT as int) <= delta <= CELL_AMOUNT,
        axis == 1 ==> delta == 1 || delta == -1,
    ensures
        -(CELL_AMOUNT as int) < trunc_rem(shift + delta, CELL_AMOUNT as int) < CELL_AMOUNT,
        ({
            let r = region_shift + delta;
            let after = if regions_due(axis, r) { r - CELL_AMOUNT * sign_of(r) } else { r };
            -(CELL_AMOUNT as int) < after < CELL_AMOUNT
        }),
{
}

/// Turning the world east and then west gives the regions back: every region has
/// its id, position, biome and cells again, and those of the first column, which
/// wrapped around twice, wait to be generated.
pub proof fn lemma_east_then_west(regions: Seq<Region>)
    requires
        regions.len() == REGION_COUNT,
        east_fits(regions),
        west_fits(shifted_east(regions)),
    ensures
        ({
            let back = shifted_west(shifted_east(regions));
            &&& back.len() == REGION_COUNT
            &&& forall|k: int|
                0 <= k < REGION_COUNT ==> {
                    &&& (#[trigger] back[k]).id == regions[k].id
                    &&& back[k].position == regions[k].position
                    &&& back[k].biome == regions[k].biome
                    &&& back[k].cells == regions[k].cells
                    &&& in_first_column(k) ==> !back[k].generated && !back[k].biome_changed
                        && back[k].cell_to_generate == 0
                    &&& !in_first_column(k) ==> back[k].generated == regions[k].generated
                        && back[k].biome_changed == regions[k].biome_changed && back[k].cell_to_generate
                        == regions[k].cell_to_generate
                }
        }),
{
    let east = shifted_east(regions);
    let bumped = regions.update(0, lifted(regions[0], REGION_AMOUNT as int));
    let turned = rotated_left(bumped, 1);
    let bumped2 = east.update(24, lifted(east[24], -(REGION_AMOUNT as int)));
    let turned2 = rotated_right(bumped2, 1);
    let back = shifted_west(east);
    assert forall|k: int| 0 <= k < REGION_COUNT implies {
        &&& (#[trigger] back[k]).id == regions[k].id
        &&& back[k].position == regions[k].position
        &&& back[k].biome == regions[k].biome
        &&& back[k].cells == regions[k].cells
        &&& in_first_column(k) ==> !back[k].generated && !back[k].biome_changed && back[k].cell_to_generate == 0
        &&& !in_first_column(k) ==> back[k].generated == regions[k].generated && back[k].biome_changed
            == regions[k].biome_changed && back[k].cell_to_generate == regions[k].cell_to_generate
    } by {
        lemma_split(k, 5);
        if k == 0 {
            assert(turned2[0] == bumped2[24]);
            assert(turned[24] == bumped[0]);
            assert(in_last_column(24));
            assert(fits_i32(turned[24].position[0] + REGION_AMOUNT) && fits_i32(turned[24].position[1] - 1));
            assert(in_first_column(0));
            assert(fits_i32(turned2[0].position[0] - REGION_AMOUNT) && fits_i32(turned2[0].position[1] + 1));
            assert(back[0].position =~= regions[0].position);
        } else {
            assert(turned2[k] == bumped2[k - 1]);
            assert(bumped2[k - 1] == east[k - 1]);
            assert(turned[k - 1] == bumped[k]);
            lemma_split(k - 1, 5);
            if in_first_column(k) {
                assert(in_last_column(k - 1));
                assert(fits_i32(turned[k - 1].position[0] + REGION_AMOUNT) && fits_i32(turned[k - 1].position[1] - 1));
                assert(fits_i32(turned2[k].position[0] - REGION_AMOUNT) && fits_i32(turned2[k].position[1] + 1));
                assert(back[k].position =~= regions[k].position);
            } else {
                assert(!in_last_column(k - 1));
            }
        }
    }
}

/// The region `a` stands for region `r` moved: same id, biome and cells, and it waits
/// to be generated, its biome to be recomputed, from its first cell.
pub open spec fn wraps_from(a: Region, r: Region) -> bool {
    &&& a.id == r.id
    &&& a.biome == r.biome
    &&& a.cells == r.cells
    &&& !a.generated
    &&& !a.biome_changed
    &&& a.cell_to_generate == 0
}

/// When the world turns, the regions that wrap around to the far side come out
/// stale (not generated, biome to be recomputed, counter at the first cell) and
/// every other region slides by one place unchanged. East: the last column wraps
/// (from the next region in reading order, the last from the first); west: the first
/// column (from the previous, the first from the last); north: the first row (from
/// the last row); south: the last row (from the first row).
pub proof fn lemma_turned_regions_go_stale(regions: Seq<Region>)
    requires
        regions.len() == REGION_COUNT,
    ensures
        forall|k: int|
            0 <= k < REGION_COUNT ==> if k % 5 == 4 {
                wraps_from(#[trigger] shifted_east(regions)[k], regions[(k + 1) % 25])
            } else {
                shifted_east(regions)[k] == regions[k + 1]
            },
        forall|k: int|
            0 <= k < REGION_COUNT ==> if k % 5 == 0 {
                wraps_from(#[trigger] shifted_west(regions)[k], regions[(k + 24) % 25])
            } else {
                shifted_west(regions)[k] == regions[k - 1]
            },
        forall|k: int|
            0 <= k < REGION_COUNT ==> if k < 5 {
                wraps_from(#[trigger] shifted_north(regions)[k], regions[k + 20])
            } else {
                shifted_north(regions)[k] == regions[k - 5]
            },
        forall|k: int|
            0 <= k < REGION_COUNT ==> if k >= 20 {
                wraps_from(#[trigger] shifted_south(regions)[k], regions[k - 20])
            } else {
                shifted_south(regions)[k] == regions[k + 5]
            },
{
    assert forall|k: int| 0 <= k < REGION_COUNT implies if k % 5 == 4 {
        wraps_from(#[trigger] shifted_east(regions)[k], regions[(k + 1) % 25])
    } else {
        shifted_east(regions)[k] == regions[k + 1]
    } by {
        let bumped = regions.update(0, lifted(regions[0], REGION_AMOUNT as int));
        if k < 24 {
            assert(rotated_left(bumped, 1)[k] == bumped[k + 1]);
        } else {
            assert(rotated_left(bumped, 1)[k] == bumped[0]);
        }
    }
    assert forall|k: int| 0 <= k < REGION_COUNT implies if k % 5 == 0 {
        wraps_from(#[trigger] shifted_west(regions)[k], regions[(k + 24) % 25])
    } else {
        shifted_west(regions)[k] == regions[k - 1]
    } by {
        let bumped = regions.update(24, lifted(regions[24], -(REGION_AMOUNT as int)));
        if k > 0 {
            assert(rotated_right(bumped, 1)[k] == bumped[k - 1]);
        } else {
            assert(rotated_right(bumped, 1)[k] == bumped[24]);
        }
    }
    assert forall|k: int| 0 <= k < REGION_COUNT implies if k < 5 {
        wraps_from(#[trigger] shifted_north(regions)[k], regions[k + 20])
    } else {
        shifted_north(regions)[k] == regions[k - 5]
    } by {
        if k >= 5 {
            assert(rotated_right(regions, 5)[k] == regions[k - 5]);
        } else {
            assert(rotated_right(regions, 5)[k] == regions[k + 20]);
        }
    }
    assert forall|k: int| 0 <= k < REGION_COUNT implies if k >= 20 {
        wraps_from(#[trigger] shifted_south(regions)[k], regions[k - 20])
    } else {
        shifted_south(regions)[k] == regions[k + 5]
    } by {
        if k < 20 {
            assert(rotated_left(regions, 5)[k] == regions[k + 5]);
        } else {
            assert(rotated_left(regions, 5)[k] == regions[k - 20]);
        }
    }
}

} // verus!
