use planet_pixel::drawing::{line_in_window, paint_colour, place_line, resize_brush, screenshot_data, update_map};
use planet_pixel::entity::collision_probe;
use planet_pixel::pixels::{AIR, ROCK, SAND};
use planet_pixel::structs::{Cell, Pixel};
use planet_pixel::{CELL_SIZE, PIXEL_DATA_SIZE};

fn window() -> Vec<Cell> {
    (0..100).map(Cell::new).collect()
}

fn pixel_at(cells: &Vec<Cell>, x: usize, y: usize) -> Pixel {
    cells[x / CELL_SIZE + (y / CELL_SIZE) * 10].grid[(x % CELL_SIZE) + (y % CELL_SIZE) * CELL_SIZE]
}

#[test]
fn screenshot_lays_out_the_cells_row_by_row() {
    let mut textures: Vec<[u8; PIXEL_DATA_SIZE]> = Vec::new();
    for c in 0..900usize {
        let mut t = [0u8; PIXEL_DATA_SIZE];
        for (b, v) in t.iter_mut().enumerate() {
            *v = ((c * 7 + b) % 256) as u8;
        }
        textures.push(t);
    }
    let shot = screenshot_data(&textures);
    assert_eq!(shot.len(), 3840 * 15360);
    for &(i, y, j, x) in &[(0usize, 0usize, 0usize, 0usize), (1, 5, 2, 17), (29, 127, 29, 511), (12, 64, 3, 300)] {
        let k = ((i * 128 + y) * 30 + j) * 512 + x;
        assert_eq!(shot[k], textures[i * 30 + j][x + y * 512]);
    }
}

#[test]
fn map_colours_biomes_and_marks_the_centre() {
    let mut biomes = vec![0u32; 128 * 128];
    let mut shades = vec![0u8; 128 * 128];
    biomes[0] = 1;
    biomes[1] = 2;
    biomes[2] = 3;
    biomes[3] = 4;
    biomes[4] = 6;
    biomes[5] = 7;
    shades[5] = 4;
    biomes[6] = 9;
    shades[6] = 13;
    let map = update_map(&biomes, &shades);
    assert_eq!(map.len(), 65536);
    assert_eq!(&map[0..4], &[0, 0, 255, 255]);
    assert_eq!(&map[4..8], &[0, 255, 0, 255]);
    assert_eq!(&map[8..12], &[255, 0, 0, 255]);
    assert_eq!(&map[12..16], &[0, 255, 255, 255]);
    assert_eq!(&map[16..20], &[255, 0, 255, 255]);
    assert_eq!(&map[20..24], &[28, 175, 80, 255]);
    assert_eq!(&map[24..28], &[(128u8).wrapping_sub(44), (255u8).wrapping_sub(240), 240, 255]);
    assert_eq!(&map[28..32], &[0, 0, 0, 255]);
    let centre = (64 * 128 + 64) * 4;
    assert_eq!(&map[centre..centre + 4], &[255, 255, 255, 255]);
}

#[test]
fn collision_probe_maps_to_cells() {
    assert_eq!(collision_probe(0, 0), Some((3 + 4 * 30, 0)));
    assert_eq!(collision_probe(130, 260), Some((4 + 6 * 30, 2 + 4 * 128)));
    assert_eq!(collision_probe(-1, 5), Some((3 + 4 * 30, 127 + 5 * 128)));
    assert_eq!(collision_probe(-200, -10), Some((2 + 4 * 30, 56 + 118 * 128)));
    assert_eq!(collision_probe(0, -1000), None);
}

#[test]
fn a_point_paints_the_brush_square() {
    let mut cells = window();
    place_line(&mut cells, 10, 10, 20, 20, SAND, [1, 2, 3], 4);
    for y in 19..23 {
        for x in 9..13 {
            assert_eq!(pixel_at(&cells, x, y).id, SAND);
        }
    }
    assert_eq!(pixel_at(&cells, 8, 20).id, AIR);
    assert_eq!(pixel_at(&cells, 13, 20).id, AIR);
}

#[test]
fn a_line_paints_from_its_start_but_not_its_end() {
    let mut cells = window();
    place_line(&mut cells, 100, 140, 50, 50, ROCK, [5, 5, 5], 2);
    for x in 100..141 {
        assert_eq!(pixel_at(&cells, x, 50).id, ROCK);
    }
    assert_eq!(pixel_at(&cells, 141, 50).id, AIR);
    assert_eq!(pixel_at(&cells, 130, 51).id, ROCK);
    assert_eq!(pixel_at(&cells, 130, 52).id, AIR);
}

#[test]
fn painting_never_overwrites_material_but_erasing_does() {
    let mut cells = window();
    place_line(&mut cells, 10, 10, 10, 10, SAND, [1, 2, 3], 2);
    place_line(&mut cells, 10, 10, 10, 10, ROCK, [9, 9, 9], 2);
    assert_eq!(pixel_at(&cells, 10, 10).id, SAND);
    assert_eq!(pixel_at(&cells, 10, 10).color, [1, 2, 3]);
    place_line(&mut cells, 10, 10, 10, 10, AIR, [70, 70, 70], 2);
    assert_eq!(pixel_at(&cells, 10, 10).id, AIR);
}

#[test]
fn a_brush_of_one_paints_nothing() {
    let mut cells = window();
    place_line(&mut cells, 10, 20, 10, 20, SAND, [1, 2, 3], 1);
    assert!(cells.iter().all(|c| c.grid.iter().all(|p| p.id == AIR)));
}

#[test]
fn negative_points_are_mirrored() {
    let mut cells = window();
    place_line(&mut cells, -5, -5, -6, -6, SAND, [1, 2, 3], 2);
    assert_eq!(pixel_at(&cells, 5, 6).id, SAND);
    assert_eq!(pixel_at(&cells, 4, 5).id, SAND);
}

#[test]
fn a_brush_past_the_right_edge_wraps_into_the_next_row() {
    let mut cells = window();
    assert!(line_in_window(100, 1279, 1279, 5, 5, 4));
    place_line(&mut cells, 1279, 1279, 5, 5, SAND, [1, 2, 3], 4);
    assert_eq!(cells[9].grid[5 * 128 + 127].id, SAND);
    assert_eq!(cells[10].grid[5 * 128].id, SAND);
    assert_eq!(cells[10].grid[5 * 128 + 1].id, SAND);
    assert_eq!(cells[10].grid[5 * 128 + 2].id, AIR);
}

#[test]
fn lines_leaving_the_window_are_refused() {
    assert!(!line_in_window(100, 1279, 1279, 1270, 1270, 4));
    assert!(line_in_window(100, 1279, 1279, 1270, 1270, 1));
    assert!(line_in_window(100, 0, 100, 0, 1200, 2));
    assert!(!line_in_window(100, 0, 100, 0, 1300, 2));
    assert!(!line_in_window(90, 0, 0, 1270, 1270, 2));
    assert!(line_in_window(91, 0, 0, 1270, 1270, 2));
    assert!(!line_in_window(100, 0, 0, 0, 0, i32::MAX));
}

#[test]
fn a_diagonal_line_steps_both_ways() {
    let mut cells = window();
    place_line(&mut cells, 10, 14, 20, 24, ROCK, [5, 5, 5], 2);
    for k in 0..4 {
        assert_eq!(pixel_at(&cells, 10 + k, 20 + k).id, ROCK);
        assert_eq!(pixel_at(&cells, 11 + k, 21 + k).id, ROCK);
    }
    assert_eq!(pixel_at(&cells, 15, 25).id, AIR);
    assert_eq!(pixel_at(&cells, 10, 22).id, AIR);
}

#[test]
fn an_empty_brush_may_go_anywhere() {
    let mut cells = window();
    assert!(line_in_window(100, 0, 5, 1_000_000_000, 1_000_000_000, 1));
    assert!(!line_in_window(100, 0, 5, 1_000_000_000, 1_000_000_000, 2));
    place_line(&mut cells, 0, 5, 1_000_000_000, 1_000_000_000, SAND, [1, 2, 3], 1);
    assert!(cells.iter().all(|c| c.grid.iter().all(|p| p.id == AIR)));
}

#[test]
fn painting_a_line_twice_changes_nothing_more() {
    let mut cells = window();
    for x in 20..40 {
        cells[0].grid[25 * CELL_SIZE + x] = Pixel::new(ROCK, [9, 9, 9]);
    }
    place_line(&mut cells, 10, 50, 10, 30, SAND, [1, 2, 3], 4);
    let once = cells.clone();
    place_line(&mut cells, 10, 50, 10, 30, SAND, [1, 2, 3], 4);
    for (a, b) in once.iter().zip(cells.iter()) {
        assert!(a.grid.iter().zip(b.grid.iter()).all(|(p, q)| p.id == q.id && p.color == q.color && p.speed == q.speed));
        assert!(a.pixel_data.iter().zip(b.pixel_data.iter()).all(|(p, q)| p == q));
        assert_eq!((a.rect.x1, a.rect.y1, a.rect.x2, a.rect.y2), (b.rect.x1, b.rect.y1, b.rect.x2, b.rect.y2));
    }
    assert_eq!(pixel_at(&cells, 25, 25).id, ROCK);
    assert_eq!(pixel_at(&cells, 10, 10).id, SAND);
}

#[test]
fn lines_whose_arithmetic_overflows_are_refused() {
    assert!(!line_in_window(100, -2_000_000_000, 2_000_000_000, 0, 0, 1));
    assert!(!line_in_window(100, -750_000_000, 750_000_000, 0, 0, 1));
    assert!(line_in_window(100, 2_000_000_000, 2_000_000_000, 5, 5, 1));
}

#[test]
fn the_brush_stays_between_one_pixel_and_a_cell() {
    assert_eq!(resize_brush(16, 1), 17);
    assert_eq!(resize_brush(16, -20), 1);
    assert_eq!(resize_brush(120, 30), 128);
    assert_eq!(resize_brush(1, 0), 1);
}

#[test]
fn each_material_paints_in_its_colour() {
    assert_eq!(paint_colour(0, 5), Some([70, 70, 70]));
    assert_eq!(paint_colour(1, 5), Some([153, 200, 200]));
    assert_eq!(paint_colour(2, 5), Some([25, 25, 25]));
    assert_eq!(paint_colour(3, 5), Some([180, 50, 50]));
    assert_eq!(paint_colour(4, 5), Some([40, 180, 40]));
    assert_eq!(paint_colour(5, 5), None);
}
