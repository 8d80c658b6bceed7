use vstd::prelude::*;

use crate::config::{
    cell_index, CAVE_BORDER_THICKNESS, CAVE_CENTER_EXCLUSION, CENTER_X, CENTER_Y, GRID_CELLS,
    GRID_H, GRID_W,
};
use crate::flood::connect_to;
use crate::grid::{
    adjacent, col, in_grid, lemma_connected_from_open_start, lemma_reaches_self,
    lemma_reaches_step, open_cells_connected, open_region_connected, reaches, row,
};
use crate::spawn_cells::{
    clear_cell, collect_clear_cells, exists_clear_cell, lemma_clear_listing_empty,
    lists_clear_cells,
};
use crate::world::{sealed_from, WorldMap};

verus! {

/// What terrain generation imposes on a cell before thresholding.
#[derive(Clone, Copy, Debug, PartialEq, Eq, Structural)]
pub enum CellForce {
    /// Forced to solid rock (density 1.0).
    Solid,
    /// Forced open (density 0.0).
    Open,
    /// Left to the noise field.
    Free,
}

/// (x, y) lies in the rock band `CAVE_BORDER_THICKNESS` cells thick on every edge.
pub open spec fn in_border_band(x: int, y: int) -> bool {
    x < CAVE_BORDER_THICKNESS || x >= GRID_W - CAVE_BORDER_THICKNESS || y
        < CAVE_BORDER_THICKNESS || y >= GRID_H - CAVE_BORDER_THICKNESS
}

/// (x, y) lies strictly inside the disc of radius `CAVE_CENTER_EXCLUSION`
/// around the centre cell.
pub open spec fn in_center_disc(x: int, y: int) -> bool {
    (x - CENTER_X) * (x - CENTER_X) + (y - CENTER_Y) * (y - CENTER_Y) < CAVE_CENTER_EXCLUSION
        * CAVE_CENTER_EXCLUSION
}

/// The forcing of cell (x, y): the centre disc is cleared after the border
/// band is made solid, so the disc wins where the two would meet.
pub open spec fn force_of(x: int, y: int) -> CellForce {
    if in_center_disc(x, y) {
        CellForce::Open
    } else if in_border_band(x, y) {
        CellForce::Solid
    } else {
        CellForce::Free
    }
}

/// Decide the forcing of the grid cell (x, y).
pub fn terrain_cell_force(x: usize, y: usize) -> (force: CellForce)
    requires
        x < GRID_W,
        y < GRID_H,
    ensures
        force == force_of(x as int, y as int),
{
    let dx = x as i32 - CENTER_X as i32;
    let dy = y as i32 - CENTER_Y as i32;
    let excl_sq = (CAVE_CENTER_EXCLUSION * CAVE_CENTER_EXCLUSION) as i32;
    assert(0 <= dx * dx <= 512 * 512) by (nonlinear_arith)
        requires
            -512 <= dx <= 512,
    ;
    assert(0 <= dy * dy <= 512 * 512) by (nonlinear_arith)
        requires
            -512 <= dy <= 512,
    ;
    let b = CAVE_BORDER_THICKNESS;
    if dx * dx + dy * dy < excl_sq {
        CellForce::Open
    } else if x < b || x >= GRID_W - b || y < b || y >= GRID_H - b {
        CellForce::Solid
    } else {
        CellForce::Free
    }
}

/// Wall value of a cell after forcing: solid is wall, open is open, a free
/// cell keeps the noise field's verdict.
pub open spec fn forced_cell(raw: Seq<bool>, i: int) -> bool {
    match force_of(col(i), row(i)) {
        CellForce::Solid => true,
        CellForce::Open => false,
        CellForce::Free => raw[i],
    }
}

/// The noise walls with the border band made solid and the centre disc cleared.
pub open spec fn forced_walls(raw: Seq<bool>) -> Seq<bool> {
    Seq::new(GRID_CELLS as nat, |i: int| forced_cell(raw, i))
}

/// Apply the border band and the centre disc to a thresholded noise grid.
pub fn force_terrain(raw: Vec<bool>) -> (walls: Vec<bool>)
    requires
        raw@.len() == GRID_CELLS,
    ensures
        walls@ == forced_walls(raw@),
        walls@.len() == GRID_CELLS,
        forall|i: int|
            0 <= i < GRID_CELLS && !in_center_disc(col(i), row(i)) && !in_border_band(col(i), row(i))
                ==> #[trigger] walls@[i] == raw@[i],
        forall|i: int|
            0 <= i < GRID_CELLS && in_center_disc(col(i), row(i)) ==> !(#[trigger] walls@[i]),
        forall|i: int|
            0 <= i < GRID_CELLS && !in_center_disc(col(i), row(i)) && in_border_band(col(i), row(i))
                ==> #[trigger] walls@[i],
{
    let mut walls = raw;
    let ghost orig = walls@;
    let mut y: usize = 0;
    while y < GRID_H
        invariant
            y <= GRID_H,
            orig.len() == GRID_CELLS,
            walls@.len() == GRID_CELLS,
            forall|i: int| 0 <= i < y * GRID_W ==> walls@[i] == forced_cell(orig, i),
            forall|i: int| y * GRID_W <= i < GRID_CELLS ==> walls@[i] == orig[i],
        decreases GRID_H - y,
    {
        let mut x: usize = 0;
        while x < GRID_W
            invariant
                y < GRID_H,
                x <= GRID_W,
                orig.len() == GRID_CELLS,
                walls@.len() == GRID_CELLS,
                forall|i: int| 0 <= i < y * GRID_W + x ==> walls@[i] == forced_cell(orig, i),
                forall|i: int| y * GRID_W + x <= i < GRID_CELLS ==> walls@[i] == orig[i],
            decreases GRID_W - x,
        {
            let i = y * GRID_W + x;
            assert(col(i as int) == x && row(i as int) == y);
            match terrain_cell_force(x, y) {
                CellForce::Solid => walls.set(i, true),
                CellForce::Open => walls.set(i, false),
                CellForce::Free => {},
            }
            x = x + 1;
        }
        y = y + 1;
    }
    proof {
        assert(walls@ =~= forced_walls(orig));
    }
    walls
}

/// Index of the centre cell, where the nest stands.
pub open spec fn center_index() -> int {
    cell_index(CENTER_X as int, CENTER_Y as int)
}

/// The terrain's walls grown from the thresholded noise grid `raw`: border
/// band solid, centre disc open, and every open cell the centre cannot reach
/// walled off.
pub open spec fn terrain_walls(raw: Seq<bool>) -> Seq<bool> {
    sealed_from(forced_walls(raw), center_index())
}

/// The terrain's spawn cells: open cells at least `CAVE_BORDER_THICKNESS + 2`
/// cells inside the grid with 2-cell clearance; failing any, those with
/// 1-cell clearance anywhere inside the outer ring.
pub open spec fn terrain_spawn_listing(walls: Seq<bool>, cells: Seq<usize>) -> bool {
    if exists_clear_cell(walls, CAVE_BORDER_THICKNESS + 2, 2) {
        lists_clear_cells(walls, cells, CAVE_BORDER_THICKNESS + 2, 2)
    } else {
        lists_clear_cells(walls, cells, 1, 1)
    }
}

/// Every cell of the centre disc reaches the centre through cells of the disc,
/// which forcing leaves open.
proof fn lemma_disc_reaches_center(raw: Seq<bool>, x: int, y: int)
    requires
        raw.len() == GRID_CELLS,
        0 <= x < GRID_W,
        0 <= y < GRID_H,
        in_center_disc(x, y),
    ensures
        reaches(forced_walls(raw), center_index(), cell_index(x, y)),
    decreases
            (if x >= CENTER_X { x - CENTER_X } else { CENTER_X - x }) + (if y >= CENTER_Y {
                y - CENTER_Y
            } else {
                CENTER_Y - y
            }),
{
    let w = forced_walls(raw);
    let cx = CENTER_X as int;
    let cy = CENTER_Y as int;
    if x == cx && y == cy {
        lemma_reaches_self(w, center_index());
    } else if x != cx {
        let nx = if x > cx { x - 1 } else { x + 1 };
        assert((nx - cx) * (nx - cx) < (x - cx) * (x - cx)) by (nonlinear_arith)
            requires
                nx == x - 1 && x > cx || nx == x + 1 && x < cx,
        ;
        lemma_disc_reaches_center(raw, nx, y);
        let a = cell_index(nx, y);
        let b = cell_index(x, y);
        assert(col(a) == nx && row(a) == y);
        assert(col(b) == x && row(b) == y);
        assert(adjacent(a, b));
        assert(!w[b]);
        lemma_reaches_step(w, center_index(), a, b);
    } else {
        let ny = if y > cy { y - 1 } else { y + 1 };
        assert((ny - cy) * (ny - cy) < (y - cy) * (y - cy)) by (nonlinear_arith)
            requires
                ny == y - 1 && y > cy || ny == y + 1 && y < cy,
        ;
        lemma_disc_reaches_center(raw, x, ny);
        let a = cell_index(x, ny);
        let b = cell_index(x, y);
        assert(col(a) == x && row(a) == ny);
        assert(col(b) == x && row(b) == y);
        assert(adjacent(a, b));
        assert(!w[b]);
        lemma_reaches_step(w, center_index(), a, b);
    }
}

/// The terrain keeps its promises whatever the noise: the border band is
/// rock, the whole centre disc (the nest area) is open, and every open cell
/// is connected to the centre.
pub proof fn lemma_terrain_shape(raw: Seq<bool>)
    requires
        raw.len() == GRID_CELLS,
    ensures
        terrain_walls(raw).len() == GRID_CELLS,
        forall|x: int, y: int|
            0 <= x < GRID_W && 0 <= y < GRID_H && in_border_band(x, y) && !in_center_disc(x, y)
                ==> #[trigger] terrain_walls(raw)[cell_index(x, y)],
        forall|x: int, y: int|
            0 <= x < GRID_W && 0 <= y < GRID_H && in_center_disc(x, y) ==> !(
            #[trigger] terrain_walls(raw)[cell_index(x, y)]),
{
    assert forall|x: int, y: int|
        0 <= x < GRID_W && 0 <= y < GRID_H && in_center_disc(x, y) implies !(
        #[trigger] terrain_walls(raw)[cell_index(x, y)]) by {
        assert(col(cell_index(x, y)) == x && row(cell_index(x, y)) == y);
        lemma_disc_reaches_center(raw, x, y);
    }
    assert forall|x: int, y: int|
        0 <= x < GRID_W && 0 <= y < GRID_H && in_border_band(x, y) && !in_center_disc(
            x,
            y,
        ) implies #[trigger] terrain_walls(raw)[cell_index(x, y)] by {
        assert(col(cell_index(x, y)) == x && row(cell_index(x, y)) == y);
    }
}

/// Outside the border band and the centre disc the terrain follows the
/// noise field cell by cell: a cell the noise makes rock stays rock, and a
/// cell the noise leaves open stays open exactly when it is joined to the
/// centre through cells the noise (or the disc) leaves open.
pub proof fn lemma_terrain_follows_noise(raw: Seq<bool>, i: int)
    requires
        raw.len() == GRID_CELLS,
        0 <= i < GRID_CELLS,
        !in_center_disc(col(i), row(i)),
        !in_border_band(col(i), row(i)),
    ensures
        forced_walls(raw)[i] == raw[i],
        raw[i] ==> terrain_walls(raw)[i],
        !terrain_walls(raw)[i] ==> !raw[i],
        !raw[i] ==> (terrain_walls(raw)[i] <==> !reaches(forced_walls(raw), center_index(), i)),
{
}

/// The centre cell always has 2-cell clearance inside the spawn margin,
/// because every cell within two cells of it lies in the open centre disc, so
/// the terrain never runs out of spawn cells.
pub proof fn lemma_center_is_spawnable(raw: Seq<bool>)
    requires
        raw.len() == GRID_CELLS,
    ensures
        clear_cell(terrain_walls(raw), center_index(), CAVE_BORDER_THICKNESS + 2, 2),
        exists_clear_cell(terrain_walls(raw), CAVE_BORDER_THICKNESS + 2, 2),
{
    lemma_terrain_shape(raw);
    let w = terrain_walls(raw);
    let cx = CENTER_X as int;
    let cy = CENTER_Y as int;
    assert(!w[cell_index(cx, cy)]);
    assert(in_center_disc(cx - 2, cy) && !w[cell_index(cx - 2, cy)]);
    assert(in_center_disc(cx + 2, cy) && !w[cell_index(cx + 2, cy)]);
    assert(in_center_disc(cx, cy - 2) && !w[cell_index(cx, cy - 2)]);
    assert(in_center_disc(cx, cy + 2) && !w[cell_index(cx, cy + 2)]);
    assert(col(center_index()) == cx && row(center_index()) == cy);
    assert(clear_cell(w, center_index(), CAVE_BORDER_THICKNESS + 2, 2));
}

/// Build the terrain map from the thresholded noise grid (`true` where the
/// noise density exceeds the iso level): force the border band and centre
/// disc, flood-fill from the centre, wall off what it cannot reach, and list
/// the spawn cells.
pub fn build_terrain(raw: Vec<bool>) -> (map: WorldMap)
    requires
        raw@.len() == GRID_CELLS,
    ensures
        map.wf(),
        map.walls@ == terrain_walls(raw@),
        terrain_spawn_listing(map.walls@, map.open_cells@),
        open_region_connected(map.walls@, center_index()),
        !map.walls@[center_index()],
        open_cells_connected(map.walls@),
        map.open_cells@.len() > 0,
        forall|i: int|
            0 <= i < GRID_CELLS && !in_center_disc(col(i), row(i)) && !in_border_band(col(i), row(i))
                && raw@[i] ==> #[trigger] map.walls@[i],
{
    let ghost r = raw@;
    let forced = force_terrain(raw);
    let start = CENTER_Y * GRID_W + CENTER_X;
    let walls = connect_to(forced, start);
    proof {
        assert forall|i: int| 0 <= i < GRID_CELLS implies walls@[i] == terrain_walls(r)[i] by {
            assert(in_grid(i));
        }
        assert(walls@ =~= terrain_walls(r));
        lemma_terrain_shape(r);
        assert(in_center_disc(CENTER_X as int, CENTER_Y as int));
        assert(!terrain_walls(r)[cell_index(CENTER_X as int, CENTER_Y as int)]);
        lemma_connected_from_open_start(walls@, center_index());
        assert forall|i: int|
            0 <= i < GRID_CELLS && !in_center_disc(col(i), row(i)) && !in_border_band(col(i), row(i))
                && r[i] implies #[trigger] walls@[i] by {
            lemma_terrain_follows_noise(r, i);
        }
    }
    let inner = CAVE_BORDER_THICKNESS + 2;
    let cells = collect_clear_cells(&walls, inner, 2);
    proof {
        lemma_clear_listing_empty(walls@, cells@, inner as int, 2);
        lemma_center_is_spawnable(r);
    }
    if cells.len() > 0 {
        return WorldMap { walls, open_cells: cells };
    }
    let cells = collect_clear_cells(&walls, 1, 1);
    WorldMap { walls, open_cells: cells }
}

} // verus!
