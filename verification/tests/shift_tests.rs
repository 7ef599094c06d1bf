use std::sync::{Arc, Mutex};

use planet_pixel::shift::{make_big_cells, scroll_step, update_cells_x, update_cells_y, update_regions_x, update_regions_y};
use planet_pixel::structs::{Cell, Region};

type Shared = Arc<Mutex<Cell>>;

fn world(x0: i32, y0: i32) -> Vec<Region> {
    (0..25)
        .map(|k| Region {
            id: k,
            generated: true,
            biome_changed: true,
            biome: 0,
            cell_to_generate: 7,
            position: [x0 + (k % 5) as i32, y0 + (k / 5) as i32],
            cells: (0..100).map(|c| Arc::new(Mutex::new(Cell::new(k * 100 + c)))).collect(),
        })
        .collect()
}

fn tag(h: &Shared) -> usize {
    h.lock().unwrap().id
}

fn tiled(regions: &Vec<Region>, x0: i32, y0: i32) -> bool {
    regions.len() == 25
        && regions
            .iter()
            .enumerate()
            .all(|(k, r)| r.position == [x0 + (k % 5) as i32, y0 + (k / 5) as i32])
}

fn window_over(cells: &Vec<Shared>, big: &Vec<Shared>, sp: [i32; 2]) -> bool {
    cells.len() == 100
        && (0..100usize).all(|k| {
            let src = (10 + sp[1] + (k / 10) as i32) * 30 + 10 + sp[0] + (k % 10) as i32;
            src >= 0 && (src as usize) < big.len() && Arc::ptr_eq(&cells[k], &big[src as usize])
        })
}

#[test]
fn make_big_cells_lays_out_the_active_regions() {
    let mut regions = world(0, 0);
    let mut big: Vec<Shared> = vec![];
    make_big_cells(&mut regions, &mut big);
    assert_eq!(big.len(), 900);
    for k in 0..900usize {
        let row = k / 30;
        let col = k % 30;
        let region = 6 + 5 * (row / 10) + col / 10;
        let cell = col % 10 + 10 * (row % 10);
        assert!(Arc::ptr_eq(&big[k], &regions[region].cells[cell]));
    }
    assert_eq!(tag(&big[0]), 600);
    assert_eq!(tag(&big[899]), 1899);
}

#[test]
fn make_big_cells_replaces_what_was_there() {
    let mut regions = world(0, 0);
    let mut big: Vec<Shared> = vec![Arc::new(Mutex::new(Cell::new(5)))];
    make_big_cells(&mut regions, &mut big);
    assert_eq!(big.len(), 900);
    assert_eq!(tag(&big[0]), 600);
}

#[test]
fn the_centre_region_is_the_window_at_origin() {
    let mut regions = world(0, 0);
    let mut big: Vec<Shared> = vec![];
    make_big_cells(&mut regions, &mut big);
    let cells = regions[12].cells.clone();
    assert!(window_over(&cells, &big, [0, 0]));
}

#[test]
fn turning_east_keeps_the_world_tiled() {
    let mut regions = world(-2, -2);
    let ids_before: Vec<usize> = regions.iter().map(|r| r.id).collect();
    update_regions_x(&mut regions, 1);
    assert!(tiled(&regions, -1, -2));
    for k in 0..25 {
        let expected = if k % 5 == 4 { false } else { true };
        assert_eq!(regions[k].generated, expected);
        assert_eq!(regions[k].biome_changed, expected);
        assert_eq!(regions[k].cell_to_generate, if expected { 7 } else { 0 });
        assert_eq!(regions[k].id, ids_before[(k + 1) % 25]);
    }
}

#[test]
fn turning_west_keeps_the_world_tiled() {
    let mut regions = world(3, 7);
    update_regions_x(&mut regions, -1);
    assert!(tiled(&regions, 2, 7));
    assert!(regions.iter().enumerate().all(|(k, r)| r.generated == (k % 5 != 0)));
    assert_eq!(regions[0].id, 24);
}

#[test]
fn turning_north_keeps_the_world_tiled() {
    let mut regions = world(0, 0);
    update_regions_y(&mut regions, -1);
    assert!(tiled(&regions, 0, -1));
    assert!(regions.iter().enumerate().all(|(k, r)| r.generated == (k >= 5)));
    assert_eq!(regions[0].id, 20);
}

#[test]
fn turning_south_keeps_the_world_tiled() {
    let mut regions = world(0, 0);
    update_regions_y(&mut regions, 1);
    assert!(tiled(&regions, 0, 1));
    assert!(regions.iter().enumerate().all(|(k, r)| r.generated == (k < 20)));
    assert_eq!(regions[20].id, 0);
}

#[test]
fn east_then_west_restores_the_order() {
    let mut regions = world(0, 0);
    update_regions_x(&mut regions, 1);
    update_regions_x(&mut regions, -1);
    assert!(tiled(&regions, 0, 0));
    assert!(regions.iter().enumerate().all(|(k, r)| r.id == k));
}

fn setup() -> (Vec<Region>, Vec<Shared>, Vec<Shared>) {
    let mut regions = world(0, 0);
    let mut big: Vec<Shared> = vec![];
    make_big_cells(&mut regions, &mut big);
    let cells = regions[12].cells.clone();
    (regions, big, cells)
}

#[test]
fn the_window_slides_east_and_west() {
    let (_regions, mut big, mut cells) = setup();
    update_cells_x(&mut cells, &mut big, [1, 0], [1, 0]);
    assert!(window_over(&cells, &big, [1, 0]));
    update_cells_x(&mut cells, &mut big, [1, 0], [2, 0]);
    assert!(window_over(&cells, &big, [2, 0]));
    update_cells_x(&mut cells, &mut big, [-1, 0], [1, 0]);
    assert!(window_over(&cells, &big, [1, 0]));
    update_cells_x(&mut cells, &mut big, [-1, 0], [0, 0]);
    update_cells_x(&mut cells, &mut big, [-1, 0], [-1, 0]);
    assert!(window_over(&cells, &big, [-1, 0]));
    assert_eq!(tag(&cells[0]), 1109);
}

#[test]
fn the_window_slides_north_and_south() {
    let (_regions, mut big, mut cells) = setup();
    update_cells_y(&mut cells, &mut big, [0, -1], [0, -1]);
    assert!(window_over(&cells, &big, [0, -1]));
    assert_eq!(tag(&cells[0]), 790);
    update_cells_y(&mut cells, &mut big, [0, 1], [0, 0]);
    update_cells_y(&mut cells, &mut big, [0, 1], [0, 1]);
    assert!(window_over(&cells, &big, [0, 1]));
    assert_eq!(tag(&cells[99]), 1709);
}

#[test]
fn scrolling_east_counts_cells_until_a_region_passes() {
    let mut shift = [8, 3];
    let mut region_shift = [9, -4];
    let mut mouse = [500, 600];
    assert!(scroll_step(&mut shift, &mut region_shift, &mut mouse, 0, 1));
    assert_eq!(shift, [9, 3]);
    assert_eq!(region_shift, [0, -4]);
    assert_eq!(mouse, [372, 600]);
    assert!(!scroll_step(&mut shift, &mut region_shift, &mut mouse, 0, 1));
    assert_eq!(shift, [0, 3]);
    assert_eq!(region_shift, [1, -4]);
    assert_eq!(mouse, [244, 600]);
}

#[test]
fn scrolling_north_keeps_the_sign_of_the_shift() {
    let mut shift = [0, -9];
    let mut region_shift = [2, -9];
    let mut mouse = [0, 0];
    assert!(scroll_step(&mut shift, &mut region_shift, &mut mouse, 1, -1));
    assert_eq!(shift, [0, 0]);
    assert_eq!(region_shift, [2, 0]);
    assert_eq!(mouse, [0, 128]);
    let mut shift = [0, -9];
    let mut region_shift = [2, -3];
    assert!(!scroll_step(&mut shift, &mut region_shift, &mut mouse, 1, -2));
    assert_eq!(shift, [0, -1]);
    assert_eq!(region_shift, [2, -5]);
}

#[test]
fn only_the_x_axis_catches_up_after_a_long_jump() {
    let mut shift = [0, 0];
    let mut region_shift = [9, 9];
    let mut mouse = [0, 0];
    assert!(scroll_step(&mut shift, &mut region_shift, &mut mouse, 0, 3));
    assert_eq!(region_shift, [2, 9]);
    assert!(!scroll_step(&mut shift, &mut region_shift, &mut mouse, 1, 3));
    assert_eq!(region_shift, [2, 12]);
}

#[test]
fn scroll_counts_stay_below_a_region() {
    let mut shift = [0, 0];
    let mut region_shift = [0, 0];
    let mut mouse = [0, 0];
    for step in 0..200i32 {
        let dx = (step * 7) % 21 - 10;
        let dy = if step % 3 == 0 { -1 } else { 1 };
        scroll_step(&mut shift, &mut region_shift, &mut mouse, 0, dx);
        scroll_step(&mut shift, &mut region_shift, &mut mouse, 1, dy);
        for axis in 0..2 {
            assert!(-10 < shift[axis] && shift[axis] < 10);
            assert!(-10 < region_shift[axis] && region_shift[axis] < 10);
        }
    }
}

#[test]
fn east_then_west_gives_the_regions_back() {
    let mut regions = world(-2, -2);
    let ids: Vec<usize> = regions.iter().map(|r| r.id).collect();
    update_regions_x(&mut regions, 1);
    update_regions_x(&mut regions, -1);
    for k in 0..25 {
        assert_eq!(regions[k].id, ids[k]);
        assert_eq!(regions[k].position, [-2 + (k % 5) as i32, -2 + (k / 5) as i32]);
        if k % 5 == 0 {
            assert!(!regions[k].generated && !regions[k].biome_changed);
            assert_eq!(regions[k].cell_to_generate, 0);
        } else {
            assert!(regions[k].generated && regions[k].biome_changed);
            assert_eq!(regions[k].cell_to_generate, 7);
        }
    }
}
