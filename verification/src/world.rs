use vstd::prelude::*;

use crate::cave::{
    find_start, has_open_cell, is_nearest_open, lemma_nearest_open_unique, nearest_open_cell,
    on_edge, smooth_n, smooth_step, smooth_walls,
};
use crate::config::{
    cell_index, CAVE_INITIAL_WALL_PERCENT, CAVE_SMOOTH_ITERATIONS, GRID_CELLS, GRID_H,
    GRID_INTERIOR_CELLS, GRID_W,
};
use crate::flood::connect_to;
use crate::grid::{
    col, in_grid, lemma_connected_from_open_start, lemma_reaches_self, open_cells_connected,
    open_region_connected, reaches, row,
};
use crate::rng::random_ratio;
use crate::spawn_cells::{
    clear_cell, collect_clear_cells, collect_open_cells, exists_clear_cell,
    lemma_clear_listing_empty, lemma_increasing_listing_unique, lists_clear_cells,
    lists_open_cells, open_cell,
};

verus! {

/// The cave: a flat row-major wall grid and the open cells that are valid
/// spawn positions.
pub struct WorldMap {
    /// `true` = wall, `false` = open; length `GRID_CELLS`.
    pub walls: Vec<bool>,
    /// Indices of open cells with clearance from walls (valid for spawning).
    pub open_cells: Vec<usize>,
}

/// Integer part of converting a world position to a grid cell: the truncated
/// cell coordinates `(gx, gy)` name a cell exactly when both lie on the grid.
pub fn grid_cell(gx: i32, gy: i32) -> (cell: Option<(usize, usize)>)
    ensures
        cell is Some <==> (0 <= gx < GRID_W && 0 <= gy < GRID_H),
        cell matches Some((x, y)) ==> x == gx && y == gy,
{
    if gx >= 0 && gx < GRID_W as i32 && gy >= 0 && gy < GRID_H as i32 {
        Some((gx as usize, gy as usize))
    } else {
        None
    }
}

/// The wall grid with every open cell that `start` cannot reach turned into wall.
pub open spec fn sealed_from(walls: Seq<bool>, start: int) -> Seq<bool> {
    Seq::new(GRID_CELLS as nat, |i: int| walls[i] || !reaches(walls, start, i))
}

/// The walls of the cellular-automaton cave grown from `initial`: three
/// smoothing passes, then every open cell not connected to the open cell
/// nearest the centre is walled off.
pub open spec fn cave_walls(initial: Seq<bool>) -> Seq<bool> {
    let smoothed = smooth_n(initial, CAVE_SMOOTH_ITERATIONS as nat);
    if has_open_cell(smoothed) {
        sealed_from(smoothed, nearest_open_cell(smoothed))
    } else {
        smoothed
    }
}

/// The cave's spawn cells: the open cells with 2-cell clearance; failing any,
/// those with 1-cell clearance; failing those too, every open cell.
pub open spec fn cave_spawn_listing(walls: Seq<bool>, cells: Seq<usize>) -> bool {
    if exists_clear_cell(walls, 2, 2) {
        lists_clear_cells(walls, cells, 2, 2)
    } else if exists_clear_cell(walls, 1, 1) {
        lists_clear_cells(walls, cells, 1, 1)
    } else {
        lists_open_cells(walls, cells)
    }
}

impl WorldMap {
    /// The map is well formed: one wall flag per grid cell.
    pub open spec fn wf(&self) -> bool {
        self.walls@.len() == GRID_CELLS
    }

    /// Whether the truncated cell coordinates `(gx, gy)` hit a wall; positions
    /// off the grid count as wall.
    pub fn is_wall(&self, gx: i32, gy: i32) -> (hit: bool)
        requires
            self.wf(),
        ensures
            hit == (!(0 <= gx < GRID_W && 0 <= gy < GRID_H) || self.walls@[cell_index(
                gx as int,
                gy as int,
            )]),
    {
        match grid_cell(gx, gy) {
            Some((x, y)) => self.walls[y * GRID_W + x],
            None => true,
        }
    }
}

/// Open cells of a cave grid, with the fallbacks of [`cave_spawn_listing`].
fn cave_spawn_cells(walls: &Vec<bool>) -> (cells: Vec<usize>)
    requires
        walls@.len() == GRID_CELLS,
    ensures
        cave_spawn_listing(walls@, cells@),
{
    let cells = collect_clear_cells(walls, 2, 2);
    proof {
        lemma_clear_listing_empty(walls@, cells@, 2, 2);
    }
    if cells.len() > 0 {
        return cells;
    }
    let cells = collect_clear_cells(walls, 1, 1);
    proof {
        lemma_clear_listing_empty(walls@, cells@, 1, 1);
    }
    if cells.len() > 0 {
        return cells;
    }
    collect_open_cells(walls)
}

/// Smoothing passes applied one after another give `smooth_n`.
proof fn lemma_smooth_n_step(walls: Seq<bool>, n: nat)
    ensures
        smooth_n(walls, n + 1) == smooth_step(smooth_n(walls, n)),
{
}

/// Grow the cellular-automaton cave from an initial wall grid.
///
/// The grid is smoothed `CAVE_SMOOTH_ITERATIONS` times; the flood fill then
/// starts at the centre cell, or at the open cell nearest it when the centre
/// is a wall, and every open cell it cannot reach becomes wall. When no open
/// cell is left after smoothing the smoothed grid is returned with no spawn cells.
pub fn generate_cave_from_grid(initial: Vec<bool>) -> (map: WorldMap)
    requires
        initial@.len() == GRID_CELLS,
    ensures
        map.wf(),
        map.walls@ == cave_walls(initial@),
        cave_spawn_listing(map.walls@, map.open_cells@),
        open_region_connected(
            map.walls@,
            nearest_open_cell(smooth_n(initial@, CAVE_SMOOTH_ITERATIONS as nat)),
        ),
        open_cells_connected(map.walls@),
{
    let mut walls = initial;
    let mut pass: usize = 0;
    while pass < CAVE_SMOOTH_ITERATIONS
        invariant
            pass <= CAVE_SMOOTH_ITERATIONS,
            walls@.len() == GRID_CELLS,
            walls@ == smooth_n(initial@, pass as nat),
        decreases CAVE_SMOOTH_ITERATIONS - pass,
    {
        walls = smooth_walls(&walls);
        proof {
            lemma_smooth_n_step(initial@, pass as nat);
        }
        pass = pass + 1;
    }
    let ghost smoothed = walls@;
    match find_start(&walls) {
        None => {
            let open_cells: Vec<usize> = Vec::new();
            proof {
                assert(!exists_clear_cell(smoothed, 2, 2));
                assert(!exists_clear_cell(smoothed, 1, 1));
                assert(open_cells_connected(smoothed));
            }
            WorldMap { walls, open_cells }
        },
        Some(start) => {
            proof {
                lemma_nearest_open_unique(smoothed, start as int, nearest_open_cell(smoothed));
            }
            let walls = connect_to(walls, start);
            proof {
                assert forall|i: int| 0 <= i < GRID_CELLS implies walls@[i] == sealed_from(
                    smoothed,
                    start as int,
                )[i] by {
                    assert(in_grid(i));
                }
                assert(walls@ =~= sealed_from(smoothed, start as int));
                lemma_reaches_self(smoothed, start as int);
                assert(!walls@[start as int]);
                lemma_connected_from_open_start(walls@, start as int);
            }
            let open_cells = cave_spawn_cells(&walls);
            WorldMap { walls, open_cells }
        },
    }
}

/// Every cell on the outer ring of the grid is a wall.
pub open spec fn edge_is_wall(walls: Seq<bool>) -> bool {
    forall|i: int| in_grid(i) && on_edge(col(i), row(i)) ==> #[trigger] walls[i]
}

/// Smoothing never changes a cell on the outer ring.
proof fn lemma_smooth_keeps_edges(walls: Seq<bool>, n: nat)
    requires
        walls.len() == GRID_CELLS,
    ensures
        smooth_n(walls, n).len() == GRID_CELLS,
        forall|i: int|
            in_grid(i) && on_edge(col(i), row(i)) ==> smooth_n(walls, n)[i] == walls[i],
    decreases n,
{
    if n > 0 {
        lemma_smooth_keeps_edges(walls, (n - 1) as nat);
        let prev = smooth_n(walls, (n - 1) as nat);
        assert forall|i: int| in_grid(i) && on_edge(col(i), row(i)) implies smooth_n(walls, n)[i]
            == walls[i] by {
            assert(cell_index(col(i), row(i)) == i);
            assert(smooth_step(prev)[i] == prev[i]);
        }
    }
}

/// Growing the cave keeps an all-wall outer ring all wall.
pub proof fn lemma_cave_keeps_edge_walls(initial: Seq<bool>)
    requires
        initial.len() == GRID_CELLS,
        edge_is_wall(initial),
    ensures
        edge_is_wall(cave_walls(initial)),
{
    lemma_smooth_keeps_edges(initial, CAVE_SMOOTH_ITERATIONS as nat);
    let smoothed = smooth_n(initial, CAVE_SMOOTH_ITERATIONS as nat);
    assert forall|i: int| in_grid(i) && on_edge(col(i), row(i)) implies #[trigger] cave_walls(
        initial,
    )[i] by {
        assert(smoothed[i] == initial[i]);
    }
}

/// The cave's spawn listing is empty exactly when the cave has no open cell.
pub proof fn lemma_cave_listing_empty_iff(walls: Seq<bool>, cells: Seq<usize>)
    requires
        cave_spawn_listing(walls, cells),
    ensures
        cells.len() == 0 <==> !has_open_cell(walls),
{
    if exists_clear_cell(walls, 2, 2) {
        lemma_clear_listing_empty(walls, cells, 2, 2);
        let i = choose|i: int| #[trigger] clear_cell(walls, i, 2, 2);
        assert(cell_index(col(i), row(i)) == i);
    } else if exists_clear_cell(walls, 1, 1) {
        lemma_clear_listing_empty(walls, cells, 1, 1);
        let i = choose|i: int| #[trigger] clear_cell(walls, i, 1, 1);
        assert(cell_index(col(i), row(i)) == i);
    } else {
        if cells.len() > 0 {
            assert(open_cell(walls, cells[0] as int));
        }
        if has_open_cell(walls) {
            let i = choose|i: int| in_grid(i) && !walls[i];
            assert(open_cell(walls, i));
            assert(cells.contains(i as usize));
        }
    }
}

/// A wall grid has one spawn list.
proof fn lemma_cave_listing_unique(walls: Seq<bool>, c1: Seq<usize>, c2: Seq<usize>)
    requires
        cave_spawn_listing(walls, c1),
        cave_spawn_listing(walls, c2),
    ensures
        c1 == c2,
{
    if exists_clear_cell(walls, 2, 2) || exists_clear_cell(walls, 1, 1) {
        let m: int = if exists_clear_cell(walls, 2, 2) { 2 } else { 1 };
        assert forall|x: usize| c1.contains(x) <==> c2.contains(x) by {
            if c1.contains(x) {
                let k = choose|k: int| 0 <= k < c1.len() && c1[k] == x;
                assert(clear_cell(walls, c1[k] as int, m, m));
                assert(clear_cell(walls, x as int, m, m));
            }
            if c2.contains(x) {
                let k = choose|k: int| 0 <= k < c2.len() && c2[k] == x;
                assert(clear_cell(walls, c2[k] as int, m, m));
                assert(clear_cell(walls, x as int, m, m));
            }
        }
    } else {
        assert forall|x: usize| c1.contains(x) <==> c2.contains(x) by {
            if c1.contains(x) {
                let k = choose|k: int| 0 <= k < c1.len() && c1[k] == x;
                assert(open_cell(walls, c1[k] as int));
                assert(open_cell(walls, x as int));
            }
            if c2.contains(x) {
                let k = choose|k: int| 0 <= k < c2.len() && c2[k] == x;
                assert(open_cell(walls, c2[k] as int));
                assert(open_cell(walls, x as int));
            }
        }
    }
    lemma_increasing_listing_unique(c1, c2);
}

/// The initial cave grid made from the random draws: the outer ring is wall,
/// and the interior cells, in row-major order, take the draws in turn.
pub open spec fn initial_from_draws(draws: Seq<bool>) -> Seq<bool> {
    Seq::new(
        GRID_CELLS as nat,
        |i: int|
            if on_edge(col(i), row(i)) {
                true
            } else {
                draws[(row(i) - 1) * (GRID_W - 2) + (col(i) - 1)]
            },
    )
}

/// Lay out the initial cave grid: wall on the outer ring, and each interior
/// cell, in row-major order, a wall exactly when its draw is `true`.
pub fn initial_grid(draws: &Vec<bool>) -> (walls: Vec<bool>)
    requires
        draws@.len() == GRID_INTERIOR_CELLS,
    ensures
        walls@ == initial_from_draws(draws@),
{
    let mut walls: Vec<bool> = Vec::new();
    let mut y: usize = 0;
    while y < GRID_H
        invariant
            y <= GRID_H,
            draws@.len() == GRID_INTERIOR_CELLS,
            walls@.len() == y * GRID_W,
            forall|k: int| 0 <= k < walls@.len() ==> walls@[k] == initial_from_draws(draws@)[k],
        decreases GRID_H - y,
    {
        let mut x: usize = 0;
        while x < GRID_W
            invariant
                y < GRID_H,
                x <= GRID_W,
                draws@.len() == GRID_INTERIOR_CELLS,
                walls@.len() == y * GRID_W + x,
                forall|k: int|
                    0 <= k < walls@.len() ==> walls@[k] == initial_from_draws(draws@)[k],
            decreases GRID_W - x,
        {
            assert(col(walls@.len() as int) == x && row(walls@.len() as int) == y);
            if x == 0 || x == GRID_W - 1 || y == 0 || y == GRID_H - 1 {
                walls.push(true);
            } else {
                assert((y - 1) * 510 + (x - 1) < 145860) by (nonlinear_arith)
                    requires
                        1 <= y <= 286,
                        1 <= x <= 510,
                ;
                walls.push(draws[(y - 1) * (GRID_W - 2) + (x - 1)]);
            }
            x = x + 1;
        }
        y = y + 1;
    }
    proof {
        assert(walls@ =~= initial_from_draws(draws@));
    }
    walls
}

/// The cave grown from the random draws: every interior cell of the initial
/// grid is wall exactly when its draw is `true` (see [`initial_from_draws`]).
/// The result is a function of the draws alone.
pub fn generate_cave_from_draws(draws: &Vec<bool>) -> (map: WorldMap)
    requires
        draws@.len() == GRID_INTERIOR_CELLS,
    ensures
        map.wf(),
        map.walls@ == cave_walls(initial_from_draws(draws@)),
        cave_spawn_listing(map.walls@, map.open_cells@),
        open_cells_connected(map.walls@),
        edge_is_wall(map.walls@),
        map.open_cells@.len() == 0 <==> !has_open_cell(map.walls@),
{
    let initial = initial_grid(draws);
    let ghost init = initial@;
    let map = generate_cave_from_grid(initial);
    proof {
        assert(edge_is_wall(init));
        lemma_cave_keeps_edge_walls(init);
        lemma_cave_listing_empty_iff(map.walls@, map.open_cells@);
    }
    map
}

/// The cave depends on the random draws alone: two caves grown from the same
/// draws (as [`generate_cave_from_draws`] describes) have the same walls and
/// the same spawn list.
pub proof fn lemma_cave_determined_by_draws(
    draws: Seq<bool>,
    walls1: Seq<bool>,
    cells1: Seq<usize>,
    walls2: Seq<bool>,
    cells2: Seq<usize>,
)
    requires
        walls1 == cave_walls(initial_from_draws(draws)),
        cave_spawn_listing(walls1, cells1),
        walls2 == cave_walls(initial_from_draws(draws)),
        cave_spawn_listing(walls2, cells2),
    ensures
        walls1 == walls2,
        cells1 == cells2,
{
    lemma_cave_listing_unique(walls1, cells1, cells2);
}

/// Generate a cave with a cellular automaton.
///
/// One random draw is made per interior cell, in row-major order: `true`
/// (wall) with probability `CAVE_INITIAL_WALL_PERCENT` percent. The cave then
/// grows from those draws as [`generate_cave_from_draws`] describes, so
/// whatever the draws, the outer ring stays wall, all open cells form one
/// connected region, and the spawn list is empty only when the whole grid
/// is wall.
pub fn generate_cave() -> (map: WorldMap)
    ensures
        map.wf(),
        exists|draws: Seq<bool>|
            draws.len() == GRID_INTERIOR_CELLS && map.walls@ == cave_walls(
                #[trigger] initial_from_draws(draws),
            ),
        edge_is_wall(map.walls@),
        cave_spawn_listing(map.walls@, map.open_cells@),
        open_cells_connected(map.walls@),
        map.open_cells@.len() == 0 <==> !has_open_cell(map.walls@),
{
    let mut draws: Vec<bool> = Vec::new();
    let mut k: usize = 0;
    while k < GRID_INTERIOR_CELLS
        invariant
            k <= GRID_INTERIOR_CELLS,
            draws@.len() == k,
        decreases GRID_INTERIOR_CELLS - k,
    {
        draws.push(random_ratio(CAVE_INITIAL_WALL_PERCENT, 100));
        k = k + 1;
    }
    let map = generate_cave_from_draws(&draws);
    proof {
        assert(map.walls@ == cave_walls(initial_from_draws(draws@)));
    }
    map
}

} // verus!
