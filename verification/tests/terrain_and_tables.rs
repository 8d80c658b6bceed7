use ant_simulation::config::{idx, CENTER_X, CENTER_Y, GRID_CELLS, GRID_H, GRID_W};
use ant_simulation::marching::{case_triangles, cell_config};
use ant_simulation::noise::{corner_hashes, gradient, lattice_cell, CornerHashes, PERM};
use ant_simulation::overlay::{diffusion_neighbors, overlay_pixel, texture_pixel_base};
use ant_simulation::terrain::{build_terrain, force_terrain, terrain_cell_force, CellForce};

#[test]
fn terrain_force_classifies_cells() {
    assert_eq!(terrain_cell_force(CENTER_X, CENTER_Y), CellForce::Open);
    assert_eq!(terrain_cell_force(CENTER_X + 34, CENTER_Y), CellForce::Open);
    assert_eq!(terrain_cell_force(CENTER_X + 35, CENTER_Y), CellForce::Free);
    assert_eq!(terrain_cell_force(CENTER_X + 24, CENTER_Y + 24), CellForce::Open);
    assert_eq!(terrain_cell_force(CENTER_X + 25, CENTER_Y + 25), CellForce::Free);
    assert_eq!(terrain_cell_force(0, 0), CellForce::Solid);
    assert_eq!(terrain_cell_force(3, 100), CellForce::Solid);
    assert_eq!(terrain_cell_force(4, 100), CellForce::Free);
    assert_eq!(terrain_cell_force(GRID_W - 4, 100), CellForce::Solid);
    assert_eq!(terrain_cell_force(100, GRID_H - 5), CellForce::Free);
    assert_eq!(terrain_cell_force(100, GRID_H - 4), CellForce::Solid);
}

#[test]
fn forcing_overrides_the_noise_only_where_it_must() {
    let raw = vec![true; GRID_CELLS];
    let forced = force_terrain(raw);
    assert!(!forced[idx(CENTER_X, CENTER_Y)]);
    assert!(forced[idx(100, 100)]);
    let raw = vec![false; GRID_CELLS];
    let forced = force_terrain(raw);
    assert!(forced[idx(2, 100)]);
    assert!(!forced[idx(100, 100)]);
}

#[test]
fn terrain_from_solid_noise_is_the_centre_disc() {
    let map = build_terrain(vec![true; GRID_CELLS]);
    let open = map.walls.iter().filter(|&&w| !w).count();
    let mut disc = 0;
    for y in 0..GRID_H {
        for x in 0..GRID_W {
            let dx = x as i64 - CENTER_X as i64;
            let dy = y as i64 - CENTER_Y as i64;
            if dx * dx + dy * dy < 35 * 35 {
                disc += 1;
                assert!(!map.walls[idx(x, y)]);
            }
        }
    }
    assert_eq!(open, disc);
    assert!(!map.open_cells.is_empty());
    for &c in &map.open_cells {
        assert!(!map.walls[c]);
        assert!(!map.walls[c - 2]);
        assert!(!map.walls[c + 2]);
        assert!(!map.walls[c - 2 * GRID_W]);
        assert!(!map.walls[c + 2 * GRID_W]);
    }
}

#[test]
fn terrain_from_open_noise_keeps_a_rock_border() {
    let map = build_terrain(vec![false; GRID_CELLS]);
    assert!(map.walls[idx(0, 0)]);
    assert!(map.walls[idx(3, 50)]);
    assert!(!map.walls[idx(4, 50)]);
    assert!(map.walls[idx(50, GRID_H - 1)]);
    assert_eq!(map.walls.iter().filter(|&&w| !w).count(), (GRID_W - 8) * (GRID_H - 8));
    // spawn cells lie at least six cells inside the grid
    assert_eq!(map.open_cells[0], idx(6, 6));
    assert_eq!(map.open_cells.len(), (GRID_W - 12) * (GRID_H - 12));
}

#[test]
fn terrain_walls_off_pockets_not_connected_to_the_nest() {
    let mut raw = vec![true; GRID_CELLS];
    for y in 20..30 {
        for x in 20..30 {
            raw[idx(x, y)] = false;
        }
    }
    let map = build_terrain(raw);
    assert!(map.walls[idx(25, 25)]);
    assert!(!map.walls[idx(CENTER_X, CENTER_Y)]);
}

#[test]
fn terrain_always_has_spawn_cells_inside_the_inner_margin() {
    let map = build_terrain(vec![true; GRID_CELLS]);
    assert!(!map.open_cells.is_empty());
    assert!(map.open_cells.contains(&idx(CENTER_X, CENTER_Y)));
    assert!(map
        .open_cells
        .iter()
        .all(|&c| c % GRID_W >= 6 && c % GRID_W < GRID_W - 6 && c / GRID_W >= 6 && c / GRID_W < GRID_H - 6));
}

#[test]
fn cell_config_packs_corner_bits() {
    assert_eq!(cell_config(false, false, false, false), 0);
    assert_eq!(cell_config(true, false, false, false), 1);
    assert_eq!(cell_config(false, true, false, false), 2);
    assert_eq!(cell_config(false, false, true, false), 4);
    assert_eq!(cell_config(false, false, false, true), 8);
    assert_eq!(cell_config(true, false, true, false), 5);
    assert_eq!(cell_config(true, true, true, true), 15);
}

#[test]
fn case_table_matches_the_reference_cases() {
    assert!(case_triangles(0).is_empty());
    assert_eq!(case_triangles(1), vec![0, 4, 7]);
    assert_eq!(case_triangles(5), vec![0, 4, 7, 5, 2, 6]);
    assert_eq!(case_triangles(10), vec![4, 1, 5, 7, 6, 3]);
    assert_eq!(case_triangles(15), vec![0, 1, 2, 0, 2, 3]);
}

#[test]
fn case_table_vertices_sit_on_solid_corners_and_crossed_edges() {
    for c in 0u8..16 {
        let bl = c & 1 != 0;
        let br = c & 2 != 0;
        let tr = c & 4 != 0;
        let tl = c & 8 != 0;
        assert_eq!(cell_config(bl, br, tr, tl), c);
        let t = case_triangles(c);
        assert_eq!(t.len() % 3, 0);
        let uses = |v: u32| t.contains(&v);
        assert_eq!(uses(0), bl);
        assert_eq!(uses(1), br);
        assert_eq!(uses(2), tr);
        assert_eq!(uses(3), tl);
        assert_eq!(uses(4), bl != br);
        assert_eq!(uses(5), br != tr);
        assert_eq!(uses(6), tl != tr);
        assert_eq!(uses(7), bl != tl);
    }
}

#[test]
fn lattice_cell_wraps_euclidean() {
    assert_eq!(lattice_cell(0), 0);
    assert_eq!(lattice_cell(255), 255);
    assert_eq!(lattice_cell(256), 0);
    assert_eq!(lattice_cell(-1), 255);
    assert_eq!(lattice_cell(-257), 255);
    assert_eq!(lattice_cell(1003), 235);
}

#[test]
fn corner_hashes_follow_the_reference_permutation() {
    assert_eq!(PERM[0], 151);
    assert_eq!(corner_hashes(0, 0), CornerHashes { aa: 36, ba: 86, ab: 108, bb: 128 });
    assert_eq!(corner_hashes(10, 20), CornerHashes { aa: 116, ba: 59, ab: 178, bb: 170 });
    assert_eq!(corner_hashes(255, 255), CornerHashes { aa: 61, ba: 125, ab: 30, bb: 36 });
}

#[test]
fn corner_hashes_tile_every_256_cells() {
    let a = corner_hashes(lattice_cell(7), lattice_cell(9));
    let b = corner_hashes(lattice_cell(7 + 256), lattice_cell(9 - 256));
    assert_eq!(a, b);
}

#[test]
fn gradient_uses_the_two_low_bits() {
    assert_eq!(gradient(0), (1, 1));
    assert_eq!(gradient(1), (-1, 1));
    assert_eq!(gradient(2), (1, -1));
    assert_eq!(gradient(3), (-1, -1));
    assert_eq!(gradient(255), (-1, -1));
    assert_eq!(gradient(4), (1, 1));
}

#[test]
fn overlay_pixels_flip_rows() {
    assert_eq!(texture_pixel_base(0, 0), (GRID_H - 1) * GRID_W * 4);
    assert_eq!(texture_pixel_base(0, GRID_H - 1), 0);
    assert_eq!(texture_pixel_base(3, GRID_H - 1), 12);
    assert_eq!(texture_pixel_base(GRID_W - 1, 0) + 4, GRID_CELLS * 4);
}

#[test]
fn overlay_pixels_of_distinct_cells_are_disjoint() {
    let mut seen = vec![false; GRID_CELLS];
    for gy in 0..GRID_H {
        for gx in 0..GRID_W {
            let b = texture_pixel_base(gx, gy);
            assert_eq!(b % 4, 0);
            assert!(!seen[b / 4]);
            seen[b / 4] = true;
        }
    }
}

#[test]
fn overlay_pixel_encodes_food_green_home_blue() {
    assert_eq!(overlay_pixel(10, 20), [0, 10, 20, 20]);
    assert_eq!(overlay_pixel(200, 20), [0, 200, 20, 200]);
    assert_eq!(overlay_pixel(0, 0), [0, 0, 0, 0]);
}

#[test]
fn diffusion_uses_the_four_orthogonal_neighbours() {
    assert_eq!(diffusion_neighbors(5, 7), [idx(5, 6), idx(5, 8), idx(4, 7), idx(6, 7)]);
}
