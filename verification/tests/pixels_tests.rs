use planet_pixel::pixels::{transparency, try_grow, try_grow_destroy, try_move, AIR, PLANT, ROCK, SAND, WATER};
use planet_pixel::structs::{Cell, DirtyRect, Pixel};
use planet_pixel::CELL_SIZE;

fn window() -> Vec<Cell> {
    (0..100).map(Cell::new).collect()
}

fn at(x: usize, y: usize) -> usize {
    y * CELL_SIZE + x
}

fn quiet(id: usize) -> Cell {
    let mut c = Cell::new(id);
    c.rect = DirtyRect { x1: 0, y1: 0, x2: 0, y2: 0 };
    c.calculated_rect = DirtyRect { x1: 0, y1: 0, x2: 0, y2: 0 };
    c
}

fn material_count(c: &Cell, id: u8) -> usize {
    c.grid.iter().filter(|p| p.id == id).count()
}

#[test]
fn transparency_per_material() {
    assert_eq!(transparency(AIR), 0);
    assert_eq!(transparency(SAND), 255);
    assert_eq!(transparency(ROCK), 255);
    assert_eq!(transparency(WATER), 80);
    assert_eq!(transparency(PLANT), 255);
}

#[test]
fn sand_falls_into_air_within_the_cell() {
    let mut cells = window();
    let mut cell = quiet(11);
    cell.grid[at(5, 5)] = Pixel::new(SAND, [1, 2, 3]);
    assert!(try_move(&mut cell, &mut cells, 5, 5, 5, 6, 0));
    assert_eq!(cell.grid[at(5, 6)].id, SAND);
    assert_eq!(cell.grid[at(5, 6)].speed, [0, 0]);
    assert_eq!(cell.grid[at(5, 5)].id, AIR);
    assert_eq!(cell.grid[at(5, 5)].speed, [1, 1]);
    assert_eq!((cell.rect.x1, cell.rect.y1, cell.rect.x2, cell.rect.y2), (5, 6, 5, 6));
}

#[test]
fn a_high_roll_speeds_the_mover_up() {
    let mut cells = window();
    let mut cell = quiet(11);
    cell.grid[at(5, 5)] = Pixel::new(SAND, [1, 2, 3]);
    cell.grid[at(5, 6)] = Pixel::new(ROCK, [1, 2, 3]);
    assert!(!try_move(&mut cell, &mut cells, 5, 5, 5, 6, 175));
    assert_eq!(cell.grid[at(5, 5)].speed, [1, 1]);
    assert!(!try_move(&mut cell, &mut cells, 5, 5, 5, 6, 175));
    assert_eq!(cell.grid[at(5, 5)].speed, [2, 2]);
    assert_eq!(cell.grid[at(5, 6)].id, ROCK);
}

#[test]
fn water_speed_wraps_at_half_a_cell() {
    let mut cells = window();
    let mut cell = quiet(11);
    let mut w = Pixel::new(WATER, [0, 0, 255]);
    w.speed = [63, -5];
    cell.grid[at(5, 5)] = w;
    cell.grid[at(5, 6)] = Pixel::new(ROCK, [1, 2, 3]);
    assert!(!try_move(&mut cell, &mut cells, 5, 5, 5, 6, 175));
    assert_eq!(cell.grid[at(5, 5)].speed, [0, -4]);
}

#[test]
fn a_move_off_the_window_fails() {
    let mut cells = window();
    let mut cell = quiet(0);
    cell.grid[at(0, 0)] = Pixel::new(SAND, [1, 2, 3]);
    assert!(!try_move(&mut cell, &mut cells, 0, 0, -1, 0, 0));
    assert!(!try_move(&mut cell, &mut cells, 0, 0, 0, -1, 0));
    assert_eq!(cell.grid[at(0, 0)].id, SAND);
    let mut last = quiet(99);
    last.grid[at(0, 127)] = Pixel::new(SAND, [1, 2, 3]);
    assert!(!try_move(&mut last, &mut cells, 0, 127, 0, 128, 0));
}

#[test]
fn sand_falls_into_the_cell_below() {
    let mut cells = window();
    let mut cell = quiet(11);
    cell.grid[at(7, 127)] = Pixel::new(SAND, [1, 2, 3]);
    cells[21].rect = DirtyRect { x1: 0, y1: 0, x2: 0, y2: 0 };
    assert!(try_move(&mut cell, &mut cells, 7, 127, 7, 128, 0));
    assert_eq!(cell.grid[at(7, 127)].id, AIR);
    assert_eq!(cell.grid[at(7, 127)].speed, [1, 1]);
    assert_eq!(cells[21].grid[at(7, 0)].id, SAND);
    assert_eq!((cells[21].rect.x1, cells[21].rect.y1, cells[21].rect.x2, cells[21].rect.y2), (7, 0, 7, 0));
    assert_eq!(material_count(&cell, SAND) + material_count(&cells[21], SAND), 1);
}

#[test]
fn sand_moves_diagonally_into_the_next_cell() {
    let mut cells = window();
    let mut cell = quiet(11);
    cell.grid[at(127, 127)] = Pixel::new(SAND, [1, 2, 3]);
    assert!(try_move(&mut cell, &mut cells, 127, 127, 128, 128, 0));
    assert_eq!(cells[22].grid[at(0, 0)].id, SAND);
}

#[test]
fn sand_does_not_sink_into_rock() {
    let mut cells = window();
    let mut cell = quiet(11);
    cell.grid[at(5, 5)] = Pixel::new(SAND, [1, 2, 3]);
    cell.grid[at(5, 6)] = Pixel::new(ROCK, [4, 5, 6]);
    assert!(!try_move(&mut cell, &mut cells, 5, 5, 5, 6, 0));
    assert_eq!(cell.grid[at(5, 6)].id, ROCK);
    assert_eq!(cell.grid[at(5, 5)].id, SAND);
}

#[test]
fn sand_sinks_through_water_and_keeps_the_materials() {
    let mut cells = window();
    let mut cell = quiet(11);
    cell.grid[at(5, 5)] = Pixel::new(SAND, [1, 2, 3]);
    cell.grid[at(5, 6)] = Pixel::new(WATER, [4, 5, 6]);
    let sand = material_count(&cell, SAND);
    let water = material_count(&cell, WATER);
    assert!(try_move(&mut cell, &mut cells, 5, 5, 5, 6, 0));
    assert_eq!(cell.grid[at(5, 5)].id, WATER);
    assert_eq!(cell.grid[at(5, 6)].id, SAND);
    assert_eq!(material_count(&cell, SAND), sand);
    assert_eq!(material_count(&cell, WATER), water);
}

#[test]
fn a_move_past_the_window_row_is_refused() {
    let mut cells = window();
    let mut cell = quiet(95);
    cell.grid[at(3, 127)] = Pixel::new(SAND, [1, 2, 3]);
    assert!(!try_move(&mut cell, &mut cells, 3, 127, 3, 128, 0));
    assert_eq!(cell.grid[at(3, 127)].id, SAND);
}

#[test]
fn try_grow_copies_with_drifting_colours() {
    let mut cells = window();
    let mut cell = quiet(11);
    cell.grid[at(5, 5)] = Pixel::new(PLANT, [40, 180, 40]);
    assert!(try_grow(&mut cell, &mut cells, 5, 5, 6, 5, 40));
    assert_eq!(cell.grid[at(6, 5)].id, PLANT);
    assert_eq!(cell.grid[at(6, 5)].color, [32, 86, 32]);
    assert_eq!(cell.grid[at(5, 5)].id, PLANT);
    assert_eq!(cell.grid[at(5, 5)].color, [40, 180, 40]);
    assert!(!try_grow(&mut cell, &mut cells, 5, 5, 6, 5, 40));
}

#[test]
fn try_grow_into_a_neighbour_copies_unchanged() {
    let mut cells = window();
    let mut cell = quiet(11);
    cell.grid[at(0, 5)] = Pixel::new(PLANT, [40, 180, 40]);
    assert!(try_grow(&mut cell, &mut cells, 0, 5, -1, 5, 40));
    assert_eq!(cells[10].grid[at(127, 5)].color, [40, 180, 40]);
    assert_eq!(cell.grid[at(0, 5)].id, PLANT);
}

#[test]
fn try_grow_destroy_moves_and_leaves_black_air() {
    let mut cells = window();
    let mut cell = quiet(11);
    cell.grid[at(5, 5)] = Pixel::new(PLANT, [40, 180, 40]);
    assert!(try_grow_destroy(&mut cell, &mut cells, 5, 5, 5, 4, 40));
    assert_eq!(cell.grid[at(5, 4)].id, PLANT);
    assert_eq!(cell.grid[at(5, 4)].color, [31, 236, 33]);
    assert_eq!(cell.grid[at(5, 5)].id, AIR);
    assert_eq!(cell.grid[at(5, 5)].color, [0, 0, 0]);
    assert_eq!(material_count(&cell, PLANT), 1);
}

#[test]
fn try_grow_destroy_green_wraps() {
    let mut cells = window();
    let mut cell = quiet(11);
    cell.grid[at(5, 5)] = Pixel::new(PLANT, [40, 180, 40]);
    assert!(try_grow_destroy(&mut cell, &mut cells, 5, 5, 5, 4, 124));
    assert_eq!(cell.grid[at(5, 4)].color[1], 0);
}

#[test]
fn try_grow_destroy_into_a_neighbour() {
    let mut cells = window();
    let mut cell = quiet(11);
    cell.grid[at(5, 0)] = Pixel::new(PLANT, [40, 180, 40]);
    assert!(try_grow_destroy(&mut cell, &mut cells, 5, 0, 5, -1, 120));
    assert_eq!(cells[1].grid[at(5, 127)].id, PLANT);
    assert_eq!(cells[1].grid[at(5, 127)].color, [40, 180, 40]);
    assert_eq!(cell.grid[at(5, 0)].id, AIR);
    assert_eq!(material_count(&cell, PLANT) + material_count(&cells[1], PLANT), 1);
}

#[test]
fn try_grow_destroy_blocked_by_material() {
    let mut cells = window();
    let mut cell = quiet(11);
    cell.grid[at(5, 5)] = Pixel::new(PLANT, [40, 180, 40]);
    cell.grid[at(5, 4)] = Pixel::new(ROCK, [1, 1, 1]);
    assert!(!try_grow_destroy(&mut cell, &mut cells, 5, 5, 5, 4, 40));
    assert_eq!(cell.grid[at(5, 5)].id, PLANT);
}
