use ant_simulation::cave::{find_start, smooth_walls};
use ant_simulation::config::{
    idx, CENTER_X, CENTER_Y, GRID_CELLS, GRID_H, GRID_INTERIOR_CELLS, GRID_W,
};
use ant_simulation::flood::{connect_to, flood_fill, seal_unreachable};
use ant_simulation::spawn_cells::{collect_clear_cells, collect_open_cells};
use ant_simulation::world::{
    generate_cave, generate_cave_from_draws, generate_cave_from_grid, grid_cell, initial_grid, WorldMap,
};

fn all_walls() -> Vec<bool> {
    vec![true; GRID_CELLS]
}

fn open_rect(walls: &mut Vec<bool>, x0: usize, y0: usize, x1: usize, y1: usize) {
    for y in y0..=y1 {
        for x in x0..=x1 {
            walls[idx(x, y)] = false;
        }
    }
}

fn on_edge(i: usize) -> bool {
    let x = i % GRID_W;
    let y = i / GRID_W;
    x == 0 || x == GRID_W - 1 || y == 0 || y == GRID_H - 1
}

#[test]
fn idx_is_row_major() {
    assert_eq!(idx(0, 0), 0);
    assert_eq!(idx(3, 2), 2 * 512 + 3);
    assert_eq!(idx(511, 287), GRID_CELLS - 1);
}

#[test]
fn grid_cell_accepts_only_cells_on_the_grid() {
    assert_eq!(grid_cell(0, 0), Some((0, 0)));
    assert_eq!(grid_cell(511, 287), Some((511, 287)));
    assert_eq!(grid_cell(-1, 5), None);
    assert_eq!(grid_cell(5, -1), None);
    assert_eq!(grid_cell(512, 0), None);
    assert_eq!(grid_cell(0, 288), None);
}

#[test]
fn is_wall_counts_off_grid_as_wall() {
    let mut walls = all_walls();
    walls[idx(10, 20)] = false;
    let map = WorldMap { walls, open_cells: vec![] };
    assert!(!map.is_wall(10, 20));
    assert!(map.is_wall(11, 20));
    assert!(map.is_wall(-1, 20));
    assert!(map.is_wall(10, 288));
}

#[test]
fn flood_fill_marks_exactly_the_connected_open_cells() {
    let mut walls = all_walls();
    open_rect(&mut walls, 10, 10, 20, 10); // a corridor
    open_rect(&mut walls, 30, 10, 35, 12); // a separate room
    let reach = flood_fill(&walls, idx(10, 10));
    assert!(reach[idx(10, 10)]);
    assert!(reach[idx(20, 10)]);
    assert!(!reach[idx(21, 10)]);
    assert!(!reach[idx(30, 10)]);
    assert_eq!(reach.iter().filter(|&&r| r).count(), 11);
}

#[test]
fn flood_fill_does_not_wrap_across_rows() {
    let mut walls = all_walls();
    walls[idx(GRID_W - 1, 5)] = false;
    walls[idx(0, 6)] = false; // next flat index, but not adjacent
    let reach = flood_fill(&walls, idx(GRID_W - 1, 5));
    assert!(!reach[idx(0, 6)]);
}

#[test]
fn flood_fill_from_a_wall_marks_only_its_open_neighbourhood() {
    let mut walls = all_walls();
    walls[idx(51, 50)] = false;
    walls[idx(52, 50)] = false;
    let reach = flood_fill(&walls, idx(50, 50));
    assert!(reach[idx(50, 50)]);
    assert!(reach[idx(52, 50)]);
    assert_eq!(reach.iter().filter(|&&r| r).count(), 3);
}

#[test]
fn seal_unreachable_walls_off_unmarked_open_cells() {
    let mut walls = all_walls();
    open_rect(&mut walls, 1, 1, 3, 1);
    let mut reach = vec![false; GRID_CELLS];
    reach[idx(1, 1)] = true;
    let sealed = seal_unreachable(walls, &reach);
    assert!(!sealed[idx(1, 1)]);
    assert!(sealed[idx(2, 1)]);
    assert!(sealed[idx(3, 1)]);
}

#[test]
fn connect_to_keeps_only_the_region_of_the_start() {
    let mut walls = all_walls();
    open_rect(&mut walls, 100, 100, 110, 105);
    open_rect(&mut walls, 200, 100, 205, 105);
    let sealed = connect_to(walls, idx(105, 102));
    assert!(!sealed[idx(100, 100)]);
    assert!(!sealed[idx(110, 105)]);
    assert!(sealed[idx(200, 100)]);
    assert_eq!(sealed.iter().filter(|&&w| !w).count(), 11 * 6);
}

#[test]
fn clear_cells_need_open_cells_at_distance_in_all_four_directions() {
    let mut walls = all_walls();
    open_rect(&mut walls, 10, 10, 14, 14);
    let cells = collect_clear_cells(&walls, 2, 2);
    assert_eq!(cells, vec![idx(12, 12)]);
    let cells = collect_clear_cells(&walls, 1, 1);
    assert_eq!(cells.len(), 9);
    assert_eq!(cells[0], idx(11, 11));
    assert_eq!(cells[8], idx(13, 13));
}

#[test]
fn clear_cells_respect_the_margin() {
    let mut walls = all_walls();
    open_rect(&mut walls, 0, 0, 8, 8);
    assert_eq!(collect_clear_cells(&walls, 2, 2).len(), 5 * 5);
    assert_eq!(collect_clear_cells(&walls, 6, 2).len(), 1);
    assert_eq!(collect_clear_cells(&walls, 6, 2), vec![idx(6, 6)]);
}

#[test]
fn open_cells_lists_every_open_cell_in_order() {
    let mut walls = all_walls();
    walls[idx(7, 3)] = false;
    walls[idx(2, 1)] = false;
    assert_eq!(collect_open_cells(&walls), vec![idx(2, 1), idx(7, 3)]);
}

#[test]
fn smoothing_applies_birth_and_death_limits() {
    let mut walls = vec![false; GRID_CELLS];
    // five wall neighbours around (50, 50): the open cell becomes wall
    for &(x, y) in &[(49, 49), (50, 49), (51, 49), (49, 50), (51, 50)] {
        walls[idx(x, y)] = true;
    }
    // a lone wall at (100, 100) with no wall neighbours becomes open
    walls[idx(100, 100)] = true;
    // an open cell with exactly three wall neighbours keeps its value
    for &(x, y) in &[(199, 199), (200, 199), (201, 199)] {
        walls[idx(x, y)] = true;
    }
    // an edge cell keeps its value whatever its neighbours
    walls[idx(0, 40)] = true;
    let next = smooth_walls(&walls);
    assert!(next[idx(50, 50)]);
    assert!(!next[idx(100, 100)]);
    assert!(!next[idx(200, 200)]);
    assert!(next[idx(0, 40)]);
    assert!(!next[idx(0, 41)]);
}

#[test]
fn find_start_prefers_the_centre() {
    let walls = vec![false; GRID_CELLS];
    assert_eq!(find_start(&walls), Some(idx(CENTER_X, CENTER_Y)));
}

#[test]
fn find_start_takes_the_nearest_ring_then_the_smallest_index() {
    let mut walls = all_walls();
    walls[idx(CENTER_X + 3, CENTER_Y)] = false; // ring 3
    walls[idx(CENTER_X + 2, CENTER_Y + 1)] = false; // ring 2
    walls[idx(CENTER_X - 2, CENTER_Y + 2)] = false; // ring 2, larger index
    assert_eq!(find_start(&walls), Some(idx(CENTER_X + 2, CENTER_Y + 1)));
    walls[idx(CENTER_X - 1, CENTER_Y - 2)] = false; // ring 2, smallest index
    assert_eq!(find_start(&walls), Some(idx(CENTER_X - 1, CENTER_Y - 2)));
}

#[test]
fn find_start_reports_an_all_wall_grid() {
    assert_eq!(find_start(&all_walls()), None);
}

#[test]
fn cave_from_an_all_wall_grid_has_no_spawn_cells() {
    let map = generate_cave_from_grid(all_walls());
    assert!(map.walls.iter().all(|&w| w));
    assert!(map.open_cells.is_empty());
}

fn brute_clear_cells(walls: &[bool], margin: usize, d: usize) -> Vec<usize> {
    let mut cells = Vec::new();
    for i in 0..GRID_CELLS {
        let x = i % GRID_W;
        let y = i / GRID_W;
        if x >= margin && x < GRID_W - margin && y >= margin && y < GRID_H - margin
            && !walls[i]
            && !walls[idx(x - d, y)]
            && !walls[idx(x + d, y)]
            && !walls[idx(x, y - d)]
            && !walls[idx(x, y + d)]
        {
            cells.push(i);
        }
    }
    cells
}

#[test]
fn cave_from_an_open_grid_only_fills_its_inner_corners() {
    let mut initial = vec![false; GRID_CELLS];
    for i in 0..GRID_CELLS {
        if on_edge(i) {
            initial[i] = true;
        }
    }
    let map = generate_cave_from_grid(initial);
    // an inner corner cell sees five edge walls and turns to wall
    assert!(map.walls[idx(1, 1)]);
    assert!(map.walls[idx(GRID_W - 2, GRID_H - 2)]);
    // other cells along the edge see three and stay open
    assert!(!map.walls[idx(2, 1)]);
    assert!(!map.walls[idx(1, 2)]);
    assert!(map.walls[idx(0, 1)]);
    assert_eq!(map.walls.iter().filter(|&&w| !w).count(), (GRID_W - 2) * (GRID_H - 2) - 4);
    assert_eq!(map.open_cells, brute_clear_cells(&map.walls, 2, 2));
    assert_eq!(map.open_cells[0], idx(3, 3));
}

#[test]
fn cave_seals_pockets_the_start_cannot_reach() {
    // an open centre room and a pocket far away, separated by wall
    let mut initial = all_walls();
    open_rect(&mut initial, CENTER_X - 10, CENTER_Y - 10, CENTER_X + 10, CENTER_Y + 10);
    open_rect(&mut initial, 20, 20, 40, 40);
    let map = generate_cave_from_grid(initial);
    assert!(!map.walls[idx(CENTER_X, CENTER_Y)]);
    assert!(map.walls[idx(30, 30)]);
}

#[test]
fn generated_cave_keeps_its_promises() {
    let map = generate_cave();
    assert_eq!(map.walls.len(), GRID_CELLS);
    for i in 0..GRID_CELLS {
        if on_edge(i) {
            assert!(map.walls[i]);
        }
    }
    for w in map.open_cells.windows(2) {
        assert!(w[0] < w[1]);
    }
    for &c in &map.open_cells {
        assert!(!map.walls[c]);
    }
    let has_open = map.walls.iter().any(|&w| !w);
    assert_eq!(map.open_cells.is_empty(), !has_open);
    if let Some(start) = find_start(&map.walls) {
        let reach = flood_fill(&map.walls, start);
        for i in 0..GRID_CELLS {
            if !map.walls[i] {
                assert!(reach[i]);
            }
        }
    }
}

fn patterned_draws() -> Vec<bool> {
    // a fixed pseudo-random mix of walls and open cells, about 45% walls
    let mut state: u64 = 0x2545_f491_4f6c_dd1d;
    (0..GRID_INTERIOR_CELLS)
        .map(|_| {
            state = state.wrapping_mul(6364136223846793005).wrapping_add(1442695040888963407);
            (state >> 33) % 100 < 45
        })
        .collect()
}

fn open_cells_all_joined(walls: &[bool]) -> bool {
    match walls.iter().position(|&w| !w) {
        None => true,
        Some(start) => {
            let reach = flood_fill(&walls.to_vec(), start);
            (0..GRID_CELLS).all(|i| walls[i] || reach[i])
        }
    }
}

#[test]
fn initial_grid_puts_the_draws_inside_a_wall_ring() {
    assert_eq!(GRID_INTERIOR_CELLS, (GRID_W - 2) * (GRID_H - 2));
    let draws = patterned_draws();
    let walls = initial_grid(&draws);
    assert_eq!(walls.len(), GRID_CELLS);
    for i in 0..GRID_CELLS {
        let (x, y) = (i % GRID_W, i / GRID_W);
        if on_edge(i) {
            assert!(walls[i]);
        } else {
            assert_eq!(walls[i], draws[(y - 1) * (GRID_W - 2) + (x - 1)]);
        }
    }
    let open = initial_grid(&vec![false; GRID_INTERIOR_CELLS]);
    assert!(!open[idx(1, 1)]);
    assert!(!open[idx(GRID_W - 2, GRID_H - 2)]);
    assert!(open[idx(0, 5)]);
}

#[test]
fn all_wall_draws_grow_a_solid_cave() {
    let map = generate_cave_from_draws(&vec![true; GRID_INTERIOR_CELLS]);
    assert!(map.walls.iter().all(|&w| w));
    assert!(map.open_cells.is_empty());
}

#[test]
fn same_draws_grow_the_same_cave() {
    let draws = patterned_draws();
    let a = generate_cave_from_draws(&draws);
    let b = generate_cave_from_draws(&draws);
    assert_eq!(a.walls, b.walls);
    assert_eq!(a.open_cells, b.open_cells);
    let direct = generate_cave_from_grid(initial_grid(&draws));
    assert_eq!(a.walls, direct.walls);
}

#[test]
fn cave_open_cells_form_one_region() {
    let map = generate_cave_from_draws(&patterned_draws());
    assert!(map.walls.iter().any(|&w| !w));
    assert!(open_cells_all_joined(&map.walls));
    let sealed = generate_cave_from_grid({
        let mut initial = all_walls();
        open_rect(&mut initial, CENTER_X - 10, CENTER_Y - 10, CENTER_X + 10, CENTER_Y + 10);
        open_rect(&mut initial, 20, 20, 40, 40);
        initial
    });
    assert!(open_cells_all_joined(&sealed.walls));
}
