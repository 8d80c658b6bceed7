use vstd::prelude::*;

use crate::config::{
    cell_index, CAVE_BIRTH_LIMIT, CAVE_DEATH_LIMIT, CAVE_SMOOTH_ITERATIONS, CENTER_X, CENTER_Y,
    GRID_CELLS, GRID_H, GRID_W,
};
use crate::grid::{col, in_grid, row};

verus! {

/// 1 when the cell at (x, y) is a wall, else 0.
pub open spec fn wall_at(walls: Seq<bool>, x: int, y: int) -> int {
    if walls[cell_index(x, y)] {
        1
    } else {
        0
    }
}

/// Number of walls among the 8 cells surrounding (x, y) (Moore neighbourhood).
pub open spec fn wall_neighbours(walls: Seq<bool>, x: int, y: int) -> int {
    wall_at(walls, x - 1, y - 1) + wall_at(walls, x, y - 1) + wall_at(walls, x + 1, y - 1)
        + wall_at(walls, x - 1, y) + wall_at(walls, x + 1, y) + wall_at(walls, x - 1, y + 1)
        + wall_at(walls, x, y + 1) + wall_at(walls, x + 1, y + 1)
}

/// (x, y) lies on the outermost ring of the grid.
pub open spec fn on_edge(x: int, y: int) -> bool {
    x == 0 || x == GRID_W - 1 || y == 0 || y == GRID_H - 1
}

/// The cellular-automaton rule for one cell: edge cells keep their value; an
/// interior cell becomes wall with at least `CAVE_BIRTH_LIMIT` wall neighbours,
/// open with fewer than `CAVE_DEATH_LIMIT`, and keeps its value otherwise.
pub open spec fn smoothed_cell(walls: Seq<bool>, x: int, y: int) -> bool {
    if on_edge(x, y) {
        walls[cell_index(x, y)]
    } else if wall_neighbours(walls, x, y) >= CAVE_BIRTH_LIMIT {
        true
    } else if wall_neighbours(walls, x, y) < CAVE_DEATH_LIMIT {
        false
    } else {
        walls[cell_index(x, y)]
    }
}

/// One smoothing pass over the whole grid.
pub open spec fn smooth_step(walls: Seq<bool>) -> Seq<bool> {
    Seq::new(GRID_CELLS as nat, |i: int| smoothed_cell(walls, col(i), row(i)))
}

/// `n` smoothing passes.
pub open spec fn smooth_n(walls: Seq<bool>, n: nat) -> Seq<bool>
    decreases n,
{
    if n == 0 {
        walls
    } else {
        smooth_step(smooth_n(walls, (n - 1) as nat))
    }
}

/// Count the walls among the 8 neighbours of the interior cell (x, y).
fn wall_neighbour_count(walls: &Vec<bool>, x: usize, y: usize) -> (count: u8)
    requires
        walls@.len() == GRID_CELLS,
        1 <= x < GRID_W - 1,
        1 <= y < GRID_H - 1,
    ensures
        count == wall_neighbours(walls@, x as int, y as int),
{
    let mut count: u8 = 0;
    if walls[(y - 1) * GRID_W + (x - 1)] {
        count = count + 1;
    }
    if walls[(y - 1) * GRID_W + x] {
        count = count + 1;
    }
    if walls[(y - 1) * GRID_W + (x + 1)] {
        count = count + 1;
    }
    if walls[y * GRID_W + (x - 1)] {
        count = count + 1;
    }
    if walls[y * GRID_W + (x + 1)] {
        count = count + 1;
    }
    if walls[(y + 1) * GRID_W + (x - 1)] {
        count = count + 1;
    }
    if walls[(y + 1) * GRID_W + x] {
        count = count + 1;
    }
    if walls[(y + 1) * GRID_W + (x + 1)] {
        count = count + 1;
    }
    count
}

/// One cellular-automaton smoothing pass; every cell is decided from the
/// previous grid, so the pass does not depend on the visiting order.
pub fn smooth_walls(walls: &Vec<bool>) -> (next: Vec<bool>)
    requires
        walls@.len() == GRID_CELLS,
    ensures
        next@ == smooth_step(walls@),
{
    let mut next = walls.clone();
    proof {
        assert forall|i: int| 0 <= i < GRID_CELLS implies next@[i] == walls@[i] by {
            assert(cloned(walls@[i], next@[i]));
        }
    }
    let mut y: usize = 1;
    while y < GRID_H - 1
        invariant
            walls@.len() == GRID_CELLS,
            next@.len() == GRID_CELLS,
            1 <= y <= GRID_H - 1,
            forall|i: int|
                0 <= i < GRID_CELLS && (row(i) < y || on_edge(col(i), row(i))) ==> next@[i]
                    == smoothed_cell(walls@, col(i), row(i)),
            forall|i: int|
                0 <= i < GRID_CELLS && row(i) >= y && !on_edge(col(i), row(i)) ==> next@[i]
                    == walls@[i],
        decreases GRID_H - y,
    {
        let mut x: usize = 1;
        while x < GRID_W - 1
            invariant
                walls@.len() == GRID_CELLS,
                next@.len() == GRID_CELLS,
                1 <= y < GRID_H - 1,
                1 <= x <= GRID_W - 1,
                forall|i: int|
                    0 <= i < GRID_CELLS && (row(i) < y || (row(i) == y && col(i) < x) || on_edge(
                        col(i),
                        row(i),
                    )) ==> next@[i] == smoothed_cell(walls@, col(i), row(i)),
                forall|i: int|
                    0 <= i < GRID_CELLS && (row(i) > y || (row(i) == y && col(i) >= x))
                        && !on_edge(col(i), row(i)) ==> next@[i] == walls@[i],
            decreases GRID_W - x,
        {
            let i = y * GRID_W + x;
            assert(col(i as int) == x && row(i as int) == y);
            let count = wall_neighbour_count(walls, x, y);
            if count >= CAVE_BIRTH_LIMIT {
                next.set(i, true);
            } else if count < CAVE_DEATH_LIMIT {
                next.set(i, false);
            }
            x = x + 1;
        }
        y = y + 1;
    }
    proof {
        assert(next@ =~= smooth_step(walls@));
    }
    next
}

/// Distance from the centre cell counted in rings of the square around it
/// (the larger of the column and row offsets).
pub open spec fn ring_distance(i: int) -> int {
    let dx = if col(i) >= CENTER_X { col(i) - CENTER_X } else { CENTER_X - col(i) };
    let dy = if row(i) >= CENTER_Y { row(i) - CENTER_Y } else { CENTER_Y - row(i) };
    if dx >= dy {
        dx
    } else {
        dy
    }
}

/// The grid holds at least one open cell.
pub open spec fn has_open_cell(walls: Seq<bool>) -> bool {
    exists|i: int| in_grid(i) && !walls[i]
}

/// `i` is the open cell nearest to the centre by ring distance, the one with
/// the smallest index among equally near open cells.
pub open spec fn is_nearest_open(walls: Seq<bool>, i: int) -> bool {
    &&& in_grid(i)
    &&& !walls[i]
    &&& forall|j: int|
        in_grid(j) && !walls[j] ==> ring_distance(i) < ring_distance(j) || (ring_distance(i)
            == ring_distance(j) && i <= j)
}

/// The open cell nearest to the centre (see [`is_nearest_open`]).
pub open spec fn nearest_open_cell(walls: Seq<bool>) -> int {
    choose|i: int| is_nearest_open(walls, i)
}

/// There is at most one nearest open cell.
pub proof fn lemma_nearest_open_unique(walls: Seq<bool>, a: int, b: int)
    requires
        is_nearest_open(walls, a),
        is_nearest_open(walls, b),
    ensures
        a == b,
{
}

/// Scan, row by row, the square of cells within ring distance `r` of the
/// centre and return the first open cell.
fn scan_square(walls: &Vec<bool>, r: usize) -> (found: Option<usize>)
    requires
        walls@.len() == GRID_CELLS,
        1 <= r <= GRID_W,
    ensures
        match found {
            Some(i) => {
                &&& in_grid(i as int)
                &&& !walls@[i as int]
                &&& ring_distance(i as int) <= r
                &&& forall|j: int|
                    in_grid(j) && !walls@[j] && ring_distance(j) <= r ==> i <= j
            },
            None => forall|j: int| in_grid(j) && !walls@[j] ==> ring_distance(j) > r,
        },
{
    let y_lo = if CENTER_Y >= r { CENTER_Y - r } else { 0 };
    let y_hi = if CENTER_Y + r <= GRID_H - 1 { CENTER_Y + r } else { GRID_H - 1 };
    let x_lo = if CENTER_X >= r { CENTER_X - r } else { 0 };
    let x_hi = if CENTER_X + r <= GRID_W - 1 { CENTER_X + r } else { GRID_W - 1 };
    let mut y = y_lo;
    while y <= y_hi
        invariant
            walls@.len() == GRID_CELLS,
            1 <= r <= GRID_W,
            y_lo == (if CENTER_Y >= r { CENTER_Y - r } else { 0 }),
            y_hi == (if CENTER_Y + r <= GRID_H - 1 { CENTER_Y + r } else { GRID_H - 1 }),
            x_lo == (if CENTER_X >= r { CENTER_X - r } else { 0 }),
            x_hi == (if CENTER_X + r <= GRID_W - 1 { CENTER_X + r } else { GRID_W - 1 }),
            y_lo <= y <= y_hi + 1,
            forall|j: int|
                in_grid(j) && !walls@[j] && ring_distance(j) <= r ==> row(j) >= y,
        decreases y_hi + 1 - y,
    {
        let mut x = x_lo;
        while x <= x_hi
            invariant
                walls@.len() == GRID_CELLS,
                1 <= r <= GRID_W,
                y_lo == (if CENTER_Y >= r { CENTER_Y - r } else { 0 }),
                y_hi == (if CENTER_Y + r <= GRID_H - 1 { CENTER_Y + r } else { GRID_H - 1 }),
                x_lo == (if CENTER_X >= r { CENTER_X - r } else { 0 }),
                x_hi == (if CENTER_X + r <= GRID_W - 1 { CENTER_X + r } else { GRID_W - 1 }),
                y_lo <= y <= y_hi,
                x_lo <= x <= x_hi + 1,
                forall|j: int|
                    in_grid(j) && !walls@[j] && ring_distance(j) <= r ==> row(j) > y || (row(j)
                        == y && col(j) >= x),
            decreases x_hi + 1 - x,
        {
            let i = y * GRID_W + x;
            assert(col(i as int) == x && row(i as int) == y);
            if !walls[i] {
                return Some(i);
            }
            x = x + 1;
        }
        y = y + 1;
    }
    None
}

/// The cell the cave's flood fill starts from: the centre cell when it is
/// open, else the open cell nearest to it; `None` when every cell is a wall.
pub fn find_start(walls: &Vec<bool>) -> (start: Option<usize>)
    requires
        walls@.len() == GRID_CELLS,
    ensures
        match start {
            Some(i) => is_nearest_open(walls@, i as int),
            None => !has_open_cell(walls@),
        },
{
    let center = CENTER_Y * GRID_W + CENTER_X;
    assert(col(center as int) == CENTER_X && row(center as int) == CENTER_Y);
    if !walls[center] {
        return Some(center);
    }
    let max_radius = if GRID_W >= GRID_H { GRID_W } else { GRID_H };
    let mut r: usize = 1;
    while r <= max_radius
        invariant
            walls@.len() == GRID_CELLS,
            max_radius == GRID_W,
            1 <= r <= max_radius + 1,
            walls@[CENTER_Y * GRID_W + CENTER_X],
            forall|j: int| in_grid(j) && !walls@[j] ==> ring_distance(j) >= r,
        decreases max_radius + 1 - r,
    {
        match scan_square(walls, r) {
            Some(i) => {
                return Some(i);
            },
            None => {},
        }
        r = r + 1;
    }
    None
}

} // verus!
