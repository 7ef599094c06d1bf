use planet_pixel::structs::{generates_next_cell, regenerated_cells, world_origin, Cell, DirtyRect, Pixel, Region, TerrainSample};
use planet_pixel::{CELL_SIZE, GRID_LEN, PIXEL_DATA_SIZE};

fn rect(x1: usize, y1: usize, x2: usize, y2: usize) -> DirtyRect {
    DirtyRect { x1, y1, x2, y2 }
}

fn same_rect(a: DirtyRect, b: DirtyRect) -> bool {
    a.x1 == b.x1 && a.y1 == b.y1 && a.x2 == b.x2 && a.y2 == b.y2
}

#[test]
fn pixel_new_is_at_rest() {
    let p = Pixel::new(3, [1, 2, 3]);
    assert_eq!(p.id, 3);
    assert_eq!(p.color, [1, 2, 3]);
    assert_eq!(p.speed, [0, 0]);
    assert_eq!(p.iteration, 0);
    assert_eq!(p.temperature, 0);
}

#[test]
fn cell_new_is_grey_air_and_fully_dirty() {
    let c = Cell::new(7);
    assert_eq!(c.id, 7);
    assert!(c.pixel_data.iter().all(|b| *b == 70));
    assert_eq!(c.pixel_data.len(), PIXEL_DATA_SIZE);
    assert!(c.grid.iter().all(|p| p.id == 0 && p.color == [70, 70, 70] && p.speed == [0, 0]));
    assert!(same_rect(c.rect, rect(0, 0, CELL_SIZE, CELL_SIZE)));
    assert!(same_rect(c.calculated_rect, rect(0, 0, CELL_SIZE, CELL_SIZE)));
}

#[test]
fn rect_update_restarts_an_empty_rect_and_grows_a_set_one() {
    let mut c = Cell::new(0);
    c.rect = rect(0, 0, 0, 0);
    c.calculated_rect = rect(10, 20, 30, 40);
    c.rect_update(5, 200);
    assert!(same_rect(c.rect, rect(5, 128, 5, 128)));
    assert!(same_rect(c.calculated_rect, rect(5, 20, 30, 128)));
    c.rect_update(-3, 7);
    assert!(same_rect(c.rect, rect(0, 7, 5, 128)));
    assert!(same_rect(c.calculated_rect, rect(0, 7, 30, 128)));
}

#[test]
fn rect_update_covers_the_point() {
    let mut c = Cell::new(0);
    c.rect = rect(50, 60, 70, 80);
    c.calculated_rect = rect(0, 0, 0, 0);
    c.rect_update(90, 10);
    assert!(c.rect.x1 <= 90 && 90 <= c.rect.x2);
    assert!(c.rect.y1 <= 10 && 10 <= c.rect.y2);
    assert!(same_rect(c.rect, rect(50, 10, 90, 80)));
    assert!(same_rect(c.calculated_rect, rect(90, 10, 90, 10)));
}

#[test]
fn rect_resize_widens_and_clips() {
    let mut c = Cell::new(0);
    c.rect = rect(10, 20, 30, 40);
    c.calculated_rect = rect(1, 0, 127, 128);
    c.rect_resize(2, 2);
    assert!(same_rect(c.rect, rect(8, 18, 32, 42)));
    assert!(same_rect(c.calculated_rect, rect(0, 0, 128, 128)));
}

#[test]
fn place_pixel_writes_grid_texture_and_rect() {
    let mut c = Cell::new(0);
    c.rect = rect(0, 0, 0, 0);
    c.place_pixel(5, 6, 1, [9, 8, 7]);
    let p = c.grid[6 * CELL_SIZE + 5];
    assert_eq!(p.id, 1);
    assert_eq!(p.color, [9, 8, 7]);
    assert_eq!(p.speed, [0, 0]);
    let b = 6 * 512 + 5 * 4;
    assert_eq!(&c.pixel_data[b..b + 4], &[9, 8, 7, 70]);
    assert!(same_rect(c.rect, rect(4, 5, 6, 7)));
    assert!(same_rect(c.calculated_rect, rect(0, 0, 128, 128)));
}

#[test]
fn world_origin_of_a_cell() {
    assert_eq!(world_origin([0, 0], [3, 4]), [384, 512]);
    assert_eq!(world_origin([-2, 1], [9, 0]), [(9 - 20) * 128, 1280]);
}

fn texture() -> Vec<u8> {
    (0..4096u32).map(|i| (i % 251) as u8).collect()
}

#[test]
fn generate_above_ground_is_black_air() {
    let mut c = Cell::new(0);
    c.grid[3].speed = [5, 5];
    c.generate([0, 0], [0, 9], &texture(), &vec![]);
    assert!(c.grid.iter().all(|p| p.id == 0 && p.color == [0, 0, 0] && p.speed == [0, 0]));
    assert!(c.pixel_data.iter().all(|b| *b == 70));
}

#[test]
fn generate_below_ground_follows_the_samples() {
    let mut c = Cell::new(0);
    c.grid[1].speed = [3, -2];
    let mut samples = vec![TerrainSample { kind: 0, shade: 0 }; GRID_LEN];
    samples[0] = TerrainSample { kind: 4, shade: 40 };
    samples[1] = TerrainSample { kind: 5, shade: 64 };
    samples[2] = TerrainSample { kind: 3, shade: 200 };
    samples[129] = TerrainSample { kind: 2, shade: 255 };
    let tex = texture();
    c.generate([0, 1], [0, 1], &tex, &samples);
    assert_eq!(c.grid[0].id, 1);
    assert_eq!(c.grid[0].color, [130, 200, 200]);
    assert_eq!(c.grid[1].id, 2);
    let t = 1 * 4;
    assert_eq!(c.grid[1].color, [tex[t] + 4, tex[t + 1] + 4, tex[t + 2] + 4]);
    assert_eq!(c.grid[1].speed, [3, -2]);
    assert_eq!(c.grid[2].id, 0);
    assert_eq!(c.grid[2].color, [70, 70, 70]);
    let t = (1 + 1 * 32) * 4;
    assert_eq!(c.grid[129].id, 2);
    assert_eq!(c.grid[129].color, [tex[t] + 15, tex[t + 1] + 15, tex[t + 2] + 15]);
}

#[test]
fn generate_rock_colour_wraps() {
    let mut c = Cell::new(0);
    let mut samples = vec![TerrainSample { kind: 0, shade: 0 }; GRID_LEN];
    samples[0] = TerrainSample { kind: 2, shade: 255 };
    let mut tex = texture();
    tex[0] = 250;
    c.generate([0, 1], [0, 1], &tex, &samples);
    assert_eq!(c.grid[0].color[0], 9);
}

fn region() -> Region {
    Region {
        id: 3,
        generated: false,
        biome_changed: true,
        biome: 2,
        cell_to_generate: 0,
        position: [0, 0],
        cells: vec![],
    }
}

fn generate_new(r: &mut Region, tex: &Vec<u8>, terrain: &Vec<Vec<TerrainSample>>) {
    let out = r.generate(&vec![], tex, terrain);
    r.cells = out.into_iter().map(|c| std::sync::Arc::new(std::sync::Mutex::new(c))).collect();
}

fn load(r: &Region) -> Vec<Cell> {
    r.cells.iter().map(|c| *c.lock().unwrap()).collect()
}

fn store(r: &Region, out: &Vec<Cell>) {
    for (shared, cell) in r.cells.iter().zip(out.iter()) {
        *shared.lock().unwrap() = *cell;
    }
}

fn generate_cell_in_place(r: &mut Region, tex: &Vec<u8>, samples: &Vec<TerrainSample>) {
    let current = *r.cells[r.cell_to_generate].lock().unwrap();
    let (k, cell) = r.generate_cell(current, tex, samples);
    *r.cells[k].lock().unwrap() = cell;
}

#[test]
fn region_generate_makes_cells_in_order() {
    let mut r = region();
    let terrain: Vec<Vec<TerrainSample>> = vec![vec![]; 100];
    let out = r.generate(&vec![], &texture(), &terrain);
    assert!(r.cells.is_empty());
    assert_eq!(out.len(), 100);
    for (i, c) in out.iter().enumerate() {
        assert_eq!(c.id, i);
        assert!(c.grid.iter().all(|p| p.id == 0 && p.color == [0, 0, 0]));
        assert!(c.pixel_data.iter().all(|b| *b == 70));
    }
    assert_eq!(r.id, 3);
    assert!(!r.generated);
}

#[test]
fn region_generate_regenerates_in_place() {
    let mut r = region();
    r.position = [0, 1];
    let terrain: Vec<Vec<TerrainSample>> = vec![vec![TerrainSample { kind: 1, shade: 0 }; GRID_LEN]; 100];
    let tex = texture();
    generate_new(&mut r, &tex, &terrain);
    let first = r.cells[15].clone();
    first.lock().unwrap().grid[0].speed = [2, 2];
    let current = load(&r);
    let out = r.generate(&current, &tex, &terrain);
    store(&r, &out);
    assert!(std::sync::Arc::ptr_eq(&first, &r.cells[15]));
    let c = first.lock().unwrap();
    assert_eq!(c.grid[0].id, 1);
    assert_eq!(c.grid[0].color, [120, 200, 200]);
    assert_eq!(c.grid[0].speed, [2, 2]);
}

#[test]
fn generate_cell_advances_and_wraps() {
    let mut r = region();
    let terrain: Vec<Vec<TerrainSample>> = vec![vec![]; 100];
    let tex = texture();
    generate_new(&mut r, &tex, &terrain);
    r.cells[0].lock().unwrap().grid[0] = Pixel::new(1, [1, 1, 1]);
    generate_cell_in_place(&mut r, &tex, &vec![]);
    assert_eq!(r.cell_to_generate, 1);
    assert!(!r.generated);
    assert_eq!(r.cells[0].lock().unwrap().grid[0].color, [0, 0, 0]);
    r.cell_to_generate = 99;
    generate_cell_in_place(&mut r, &tex, &vec![]);
    assert_eq!(r.cell_to_generate, 0);
    assert!(r.generated);
}

#[test]
fn generate_cell_runs_a_full_cycle() {
    let mut r = region();
    let terrain: Vec<Vec<TerrainSample>> = vec![vec![]; 100];
    let tex = texture();
    generate_new(&mut r, &tex, &terrain);
    for n in 0..100 {
        assert!(!r.generated);
        let current = *r.cells[r.cell_to_generate].lock().unwrap();
        let (k, _) = r.generate_cell(current, &tex, &vec![]);
        assert_eq!(k, n);
    }
    assert!(r.generated);
    assert_eq!(r.cell_to_generate, 0);
}

#[test]
fn set_biome_does_nothing() {
    Region::set_biome();
}

#[test]
fn regenerated_cells_fill_each_cell_at_its_place() {
    let cells: Vec<Cell> = (0..100).map(Cell::new).collect();
    let mut terrain: Vec<Vec<TerrainSample>> = vec![vec![]; 100];
    for i in 10..100 {
        terrain[i] = vec![TerrainSample { kind: 4, shade: 8 }; GRID_LEN];
    }
    let out = regenerated_cells([0, 1], &cells, &texture(), &terrain);
    assert_eq!(out.len(), 100);
    for (i, c) in out.iter().enumerate() {
        assert_eq!(c.id, i);
        assert!(c.pixel_data.iter().all(|b| *b == 70));
        if i < 10 {
            assert!(c.grid.iter().all(|p| p.id == 0 && p.color == [0, 0, 0]));
        } else {
            assert!(c.grid.iter().all(|p| p.id == 1 && p.color == [122, 200, 200]));
        }
    }
}

#[test]
fn generate_cell_names_the_counter_cell() {
    let mut r = region();
    r.cell_to_generate = 42;
    let (k, c) = r.generate_cell(Cell::new(7), &texture(), &vec![]);
    assert_eq!(k, 42);
    assert_eq!(c.id, 7);
    assert!(c.grid.iter().all(|p| p.id == 0 && p.color == [0, 0, 0]));
    assert_eq!(r.cell_to_generate, 43);
}

#[test]
fn the_last_generate_cell_regenerates_only_the_last_cell() {
    let mut r = region();
    r.cells = (0..100).map(|k| std::sync::Arc::new(std::sync::Mutex::new(Cell::new(k)))).collect();
    r.cell_to_generate = 99;
    generate_cell_in_place(&mut r, &texture(), &vec![]);
    assert!(r.generated);
    assert_eq!(r.cell_to_generate, 0);
    assert!(r.cells[99].lock().unwrap().grid.iter().all(|p| p.color == [0, 0, 0]));
    for i in 0..99 {
        assert!(r.cells[i].lock().unwrap().grid.iter().all(|p| p.color == [70, 70, 70]));
    }
}

#[test]
fn corners_and_generated_regions_wait() {
    for i in 0..25 {
        let corner = i == 0 || i == 4 || i == 20 || i == 24;
        assert_eq!(generates_next_cell(i, false), !corner);
        assert!(!generates_next_cell(i, true));
    }
}
