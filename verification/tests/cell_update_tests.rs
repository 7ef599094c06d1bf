use planet_pixel::cell_update::{cell_pass_with, prepare_for_pass, simulate_window, update_cell, update_pixel};
use planet_pixel::pixels::{AIR, PLANT, ROCK, SAND, WATER};
use planet_pixel::structs::{Cell, DirtyRect, Pixel};
use planet_pixel::CELL_SIZE;

fn window() -> Vec<Cell> {
    (0..100).map(Cell::new).collect()
}

fn at(x: usize, y: usize) -> usize {
    y * CELL_SIZE + x
}

fn material_count(c: &Cell, id: u8) -> usize {
    c.grid.iter().filter(|p| p.id == id).count()
}

#[test]
fn resting_sand_settles_then_falls() {
    let mut cells = window();
    let mut cell = Cell::new(11);
    cell.grid[at(10, 10)] = Pixel::new(SAND, [200, 100, 50]);
    update_pixel(&mut cell, &mut cells, 10, 10, 100);
    assert_eq!(cell.grid[at(10, 10)].id, SAND);
    assert_eq!(cell.grid[at(10, 10)].speed, [1, 1]);
    let b = 10 * 512 + 10 * 4;
    assert_eq!(&cell.pixel_data[b..b + 4], &[200, 100, 50, 255]);
    update_pixel(&mut cell, &mut cells, 10, 10, 100);
    assert_eq!(cell.grid[at(10, 10)].id, AIR);
    assert_eq!(cell.grid[at(10, 11)].id, SAND);
}

#[test]
fn a_roll_equal_to_the_iteration_skips_the_pixel() {
    let mut cells = window();
    let mut cell = Cell::new(11);
    cell.grid[at(10, 10)] = Pixel::new(SAND, [200, 100, 50]);
    update_pixel(&mut cell, &mut cells, 10, 10, 0);
    assert_eq!(cell.grid[at(10, 10)].speed, [0, 0]);
    let b = 10 * 512 + 10 * 4;
    assert_eq!(&cell.pixel_data[b..b + 4], &[70, 70, 70, 70]);
}

#[test]
fn sand_on_rock_slides_sideways() {
    let mut cells = window();
    let mut cell = Cell::new(11);
    let mut s = Pixel::new(SAND, [1, 1, 1]);
    s.speed = [1, 1];
    cell.grid[at(10, 10)] = s;
    cell.grid[at(10, 11)] = Pixel::new(ROCK, [2, 2, 2]);
    update_pixel(&mut cell, &mut cells, 10, 10, 100);
    assert_eq!(cell.grid[at(10, 10)].id, AIR);
    assert_eq!(cell.grid[at(11, 11)].id, SAND);
    assert_eq!(material_count(&cell, SAND), 1);
}

#[test]
fn water_spreads_sideways_when_blocked() {
    let mut cells = window();
    let mut cell = Cell::new(11);
    let mut w = Pixel::new(WATER, [0, 0, 255]);
    w.speed = [1, 1];
    cell.grid[at(10, 10)] = w;
    cell.grid[at(10, 11)] = Pixel::new(ROCK, [2, 2, 2]);
    update_pixel(&mut cell, &mut cells, 10, 10, 7);
    assert_eq!(cell.grid[at(10, 10)].id, AIR);
    assert_eq!(cell.grid[at(14, 10)].id, WATER);
    let b = 10 * 512 + 10 * 4;
    assert_eq!(&cell.pixel_data[b..b + 4], &[0, 0, 255, 80]);
}

#[test]
fn plants_spread_on_a_lucky_roll() {
    let mut cells = window();
    let mut cell = Cell::new(11);
    cell.grid[at(10, 10)] = Pixel::new(PLANT, [40, 180, 40]);
    update_pixel(&mut cell, &mut cells, 10, 10, 120);
    assert_eq!(cell.grid[at(10, 10)].id, AIR);
    assert_eq!(cell.grid[at(9, 9)].id, PLANT);
    assert_eq!(material_count(&cell, PLANT), 1);
}

#[test]
fn plants_rest_on_other_rolls() {
    let mut cells = window();
    let mut cell = Cell::new(11);
    cell.grid[at(10, 10)] = Pixel::new(PLANT, [40, 180, 40]);
    update_pixel(&mut cell, &mut cells, 10, 10, 50);
    assert_eq!(cell.grid[at(10, 10)].id, PLANT);
    assert_eq!(cell.grid[at(10, 10)].speed, [1, 1]);
}

#[test]
fn update_cell_on_air_only_redraws_and_shrinks_the_rect() {
    let mut cells = window();
    let mut cell = Cell::new(11);
    update_cell(&mut cell, &mut cells);
    assert!(cell.grid.iter().all(|p| p.id == AIR && p.color == [70, 70, 70]));
    for k in 0..(128 * 128) {
        assert_eq!(&cell.pixel_data[4 * k..4 * k + 3], &[70, 70, 70]);
        assert!(cell.pixel_data[4 * k + 3] == 0 || cell.pixel_data[4 * k + 3] == 70);
    }
    assert_eq!((cell.rect.x1, cell.rect.y1, cell.rect.x2, cell.rect.y2), (0, 0, 2, 2));
    assert_eq!(
        (cell.calculated_rect.x1, cell.calculated_rect.y1, cell.calculated_rect.x2, cell.calculated_rect.y2),
        (0, 0, 128, 128)
    );
}

#[test]
fn update_cell_keeps_the_materials_of_the_window() {
    let mut cells = window();
    let mut cell = Cell::new(11);
    for x in 20..40 {
        cell.grid[at(x, 50)] = Pixel::new(SAND, [1, 1, 1]);
        cell.grid[at(x, 60)] = Pixel::new(WATER, [0, 0, 255]);
        cell.grid[at(x, 127)] = Pixel::new(SAND, [1, 1, 1]);
    }
    for _ in 0..5 {
        update_cell(&mut cell, &mut cells);
        cell.calculated_rect = DirtyRect { x1: 0, y1: 0, x2: 128, y2: 128 };
    }
    let sand: usize = material_count(&cell, SAND) + cells.iter().enumerate().filter(|(k, _)| *k != 11).map(|(_, c)| material_count(c, SAND)).sum::<usize>();
    let water: usize = material_count(&cell, WATER) + cells.iter().enumerate().filter(|(k, _)| *k != 11).map(|(_, c)| material_count(c, WATER)).sum::<usize>();
    assert_eq!(sand, 40);
    assert_eq!(water, 20);
    assert_eq!(cell.id, 11);
}

#[test]
fn update_cell_skips_an_empty_rect() {
    let mut cells = window();
    let mut cell = Cell::new(11);
    cell.calculated_rect = DirtyRect { x1: 5, y1: 5, x2: 5, y2: 5 };
    cell.rect = DirtyRect { x1: 3, y1: 4, x2: 10, y2: 20 };
    cell.grid[at(5, 5)] = Pixel::new(SAND, [1, 1, 1]);
    update_cell(&mut cell, &mut cells);
    assert_eq!(cell.grid[at(5, 5)].speed, [0, 0]);
    assert_eq!((cell.calculated_rect.x1, cell.calculated_rect.y1, cell.calculated_rect.x2, cell.calculated_rect.y2), (0, 0, 12, 22));
    assert_eq!((cell.rect.x1, cell.rect.y1, cell.rect.x2, cell.rect.y2), (0, 0, 2, 2));
}

#[test]
fn prepare_for_pass_marks_the_tickled_cell_whole() {
    let mut cell = Cell::new(0);
    cell.rect = DirtyRect { x1: 3, y1: 4, x2: 10, y2: 20 };
    assert!(prepare_for_pass(&mut cell, 37, 5));
    assert_eq!(cell.id, 37);
    assert_eq!((cell.rect.x1, cell.rect.y1, cell.rect.x2, cell.rect.y2), (0, 0, 128, 128));
    assert_eq!(
        (cell.calculated_rect.x1, cell.calculated_rect.y1, cell.calculated_rect.x2, cell.calculated_rect.y2),
        (0, 0, 128, 128)
    );
}

#[test]
fn prepare_for_pass_skips_a_quiet_cell() {
    let mut cell = Cell::new(0);
    cell.rect = DirtyRect { x1: 0, y1: 0, x2: 0, y2: 0 };
    cell.calculated_rect = DirtyRect { x1: 1, y1: 2, x2: 3, y2: 4 };
    assert!(!prepare_for_pass(&mut cell, 38, 5));
    assert_eq!(cell.id, 38);
    assert_eq!(
        (cell.calculated_rect.x1, cell.calculated_rect.y1, cell.calculated_rect.x2, cell.calculated_rect.y2),
        (1, 2, 3, 4)
    );
    cell.rect = DirtyRect { x1: 0, y1: 0, x2: 1, y2: 0 };
    assert!(prepare_for_pass(&mut cell, 38, 5));
}

#[test]
fn a_pass_with_given_rolls_settles_then_drops_sand() {
    let mut cells = window();
    let mut cell = Cell::new(11);
    cell.grid[at(10, 10)] = Pixel::new(SAND, [200, 100, 50]);
    cell.calculated_rect = DirtyRect { x1: 10, y1: 10, x2: 11, y2: 11 };
    cell_pass_with(&mut cell, &mut cells, &vec![vec![100]]);
    assert_eq!(cell.grid[at(10, 10)].speed, [1, 1]);
    assert_eq!((cell.rect.x1, cell.rect.y1, cell.rect.x2, cell.rect.y2), (0, 0, 2, 2));
    assert_eq!(
        (cell.calculated_rect.x1, cell.calculated_rect.y1, cell.calculated_rect.x2, cell.calculated_rect.y2),
        (0, 0, 128, 128)
    );
    cell.calculated_rect = DirtyRect { x1: 10, y1: 10, x2: 11, y2: 11 };
    cell_pass_with(&mut cell, &mut cells, &vec![vec![100]]);
    assert_eq!(cell.grid[at(10, 10)].id, AIR);
    assert_eq!(cell.grid[at(10, 11)].id, SAND);
}

#[test]
fn a_pass_takes_rows_from_the_bottom_up() {
    let mut cells = window();
    let mut cell = Cell::new(11);
    cell.grid[at(10, 10)] = Pixel::new(SAND, [1, 1, 1]);
    cell.grid[at(10, 11)] = Pixel::new(SAND, [2, 2, 2]);
    cell.calculated_rect = DirtyRect { x1: 10, y1: 10, x2: 11, y2: 12 };
    cell_pass_with(&mut cell, &mut cells, &vec![vec![0], vec![100]]);
    assert_eq!(cell.grid[at(10, 11)].speed, [0, 0]);
    assert_eq!(cell.grid[at(10, 10)].speed, [1, 1]);
}

#[test]
fn an_empty_pass_needs_no_neighbours() {
    let mut cells: Vec<Cell> = vec![];
    let mut cell = Cell::new(0);
    cell.rect = DirtyRect { x1: 0, y1: 0, x2: 30, y2: 40 };
    cell.calculated_rect = DirtyRect { x1: 5, y1: 5, x2: 5, y2: 5 };
    update_cell(&mut cell, &mut cells);
    assert_eq!((cell.rect.x1, cell.rect.y1, cell.rect.x2, cell.rect.y2), (0, 0, 2, 2));
    assert_eq!(
        (cell.calculated_rect.x1, cell.calculated_rect.y1, cell.calculated_rect.x2, cell.calculated_rect.y2),
        (0, 0, 32, 42)
    );
    assert!(cell.grid.iter().all(|p| p.id == AIR && p.color == [70, 70, 70]));
    assert!(cells.is_empty());
}

#[test]
fn a_window_pass_keeps_every_material_and_numbers_the_cells() {
    let mut cells: Vec<Cell> = (0..100).map(|_| Cell::new(0)).collect();
    for k in [11usize, 12, 55, 98] {
        for x in 0..128 {
            cells[k].grid[at(x, 120)] = Pixel::new(SAND, [1, 1, 1]);
            cells[k].grid[at(x, 127)] = Pixel::new(WATER, [0, 0, 255]);
        }
    }
    for tickle in 0..3 {
        simulate_window(&mut cells, tickle);
    }
    let count = |id: u8| cells.iter().map(|c| material_count(c, id)).sum::<usize>();
    assert_eq!(count(SAND), 512);
    assert_eq!(count(WATER), 512);
    assert!(cells.iter().enumerate().all(|(k, c)| c.id == k));
}

#[test]
fn a_window_pass_skips_quiet_cells_off_their_tickle() {
    let mut cells: Vec<Cell> = (0..100).map(Cell::new).collect();
    for c in cells.iter_mut() {
        c.rect = DirtyRect { x1: 0, y1: 0, x2: 0, y2: 0 };
        c.calculated_rect = DirtyRect { x1: 0, y1: 0, x2: 0, y2: 0 };
    }
    simulate_window(&mut cells, 5);
    for (k, c) in cells.iter().enumerate() {
        if k % 16 == 5 {
            assert_eq!((c.rect.x1, c.rect.y1, c.rect.x2, c.rect.y2), (0, 0, 2, 2));
        } else {
            assert_eq!((c.rect.x1, c.rect.y1, c.rect.x2, c.rect.y2), (0, 0, 0, 0));
        }
    }
}
