use vstd::prelude::*;

use crate::config::{
    cell_index, CENTER_X, CENTER_Y, FOOD_MIN_NEST_DIST_CELLS, GRID_CELLS, GRID_H, GRID_W,
};
use crate::grid::{col, row};
use crate::rng::random_index;

verus! {

/// Cell `cell` lies at least `FOOD_MIN_NEST_DIST_CELLS` cells from the nest
/// (squared distances compared, no rounding).
pub open spec fn far_from_nest(cell: int) -> bool {
    let dx = col(cell) - CENTER_X;
    let dy = row(cell) - CENTER_Y;
    dx * dx + dy * dy >= FOOD_MIN_NEST_DIST_CELLS * FOOD_MIN_NEST_DIST_CELLS
}

/// The cells of `cells` that are far from the nest, in the order they appear.
pub open spec fn far_cells(cells: Seq<usize>) -> Seq<usize>
    decreases cells.len(),
{
    if cells.len() == 0 {
        seq![]
    } else {
        let rest = far_cells(cells.drop_last());
        if far_from_nest(cells.last() as int) {
            rest.push(cells.last())
        } else {
            rest
        }
    }
}

/// All entries of `cells` name grid cells.
pub open spec fn all_in_grid(cells: Seq<usize>) -> bool {
    forall|k: int| 0 <= k < cells.len() ==> (#[trigger] cells[k]) < GRID_CELLS
}

/// Being far from the nest depends on the squared Euclidean distance to the
/// nest cell alone: a cell is far exactly when that distance is at least
/// 30 squared, so reflecting a cell through the nest's row or column, or
/// swapping its offsets from the nest, never changes the answer.
pub proof fn lemma_far_from_nest_is_distance(c1: int, c2: int)
    requires
        0 <= c1 < GRID_CELLS,
        0 <= c2 < GRID_CELLS,
    ensures
        far_from_nest(c1) == ((col(c1) - CENTER_X) * (col(c1) - CENTER_X) + (row(c1) - CENTER_Y) * (row(c1)
            - CENTER_Y) >= FOOD_MIN_NEST_DIST_CELLS * FOOD_MIN_NEST_DIST_CELLS),
        (col(c1) - CENTER_X) * (col(c1) - CENTER_X) + (row(c1) - CENTER_Y) * (row(c1) - CENTER_Y) == (col(c2) - CENTER_X)
            * (col(c2) - CENTER_X) + (row(c2) - CENTER_Y) * (row(c2) - CENTER_Y) ==> far_from_nest(c1)
            == far_from_nest(c2),
        col(c1) == col(c2) && row(c1) + row(c2) == 2 * CENTER_Y ==> far_from_nest(c1) == far_from_nest(
            c2,
        ),
        row(c1) == row(c2) && col(c1) + col(c2) == 2 * CENTER_X ==> far_from_nest(c1) == far_from_nest(
            c2,
        ),
{
    let (x1, y1, x2, y2) = (col(c1), row(c1), col(c2), row(c2));
    if col(c1) == col(c2) && row(c1) + row(c2) == 2 * CENTER_Y {
        assert((y1 - CENTER_Y) * (y1 - CENTER_Y) == (y2 - CENTER_Y) * (y2 - CENTER_Y)) by (nonlinear_arith)
            requires
                y1 + y2 == 2 * CENTER_Y,
        ;
    }
    if row(c1) == row(c2) && col(c1) + col(c2) == 2 * CENTER_X {
        assert((x1 - CENTER_X) * (x1 - CENTER_X) == (x2 - CENTER_X) * (x2 - CENTER_X)) by (nonlinear_arith)
            requires
                x1 + x2 == 2 * CENTER_X,
        ;
    }
}

/// Whether grid cell `cell` lies far enough from the nest for a food cluster.
pub fn is_far_from_nest(cell: usize) -> (far: bool)
    requires
        cell < GRID_CELLS,
    ensures
        far == far_from_nest(cell as int),
        far == ((cell % GRID_W - CENTER_X) * (cell % GRID_W - CENTER_X) + (cell / GRID_W - CENTER_Y)
            * (cell / GRID_W - CENTER_Y) >= FOOD_MIN_NEST_DIST_CELLS * FOOD_MIN_NEST_DIST_CELLS),
{
    let gx = cell % GRID_W;
    let gy = cell / GRID_W;
    let dx = gx as i32 - CENTER_X as i32;
    let dy = gy as i32 - CENTER_Y as i32;
    assert(0 <= dx * dx <= 512 * 512) by (nonlinear_arith)
        requires
            -512 <= dx <= 512,
    ;
    assert(0 <= dy * dy <= 512 * 512) by (nonlinear_arith)
        requires
            -512 <= dy <= 512,
    ;
    let dist_sq = (dx * dx + dy * dy) as usize;
    dist_sq >= FOOD_MIN_NEST_DIST_CELLS * FOOD_MIN_NEST_DIST_CELLS
}

/// The open cells far enough from the nest to centre a food cluster on, in
/// the order they appear.
pub fn food_candidates(open_cells: &Vec<usize>) -> (candidates: Vec<usize>)
    requires
        all_in_grid(open_cells@),
    ensures
        candidates@ == far_cells(open_cells@),
{
    let mut candidates: Vec<usize> = Vec::new();
    let mut i: usize = 0;
    while i < open_cells.len()
        invariant
            i <= open_cells@.len(),
            all_in_grid(open_cells@),
            candidates@ == far_cells(open_cells@.take(i as int)),
        decreases open_cells@.len() - i,
    {
        let cell = open_cells[i];
        proof {
            assert(open_cells@.take(i + 1).drop_last() =~= open_cells@.take(i as int));
        }
        if is_far_from_nest(cell) {
            candidates.push(cell);
        }
        i = i + 1;
    }
    proof {
        assert(open_cells@.take(i as int) =~= open_cells@);
    }
    candidates
}

/// Cells to centre food clusters on: those far from the nest, or every open
/// cell when none is far enough.
pub fn food_source_cells(open_cells: &Vec<usize>) -> (source: Vec<usize>)
    requires
        all_in_grid(open_cells@),
    ensures
        source@ == (if far_cells(open_cells@).len() == 0 {
            open_cells@
        } else {
            far_cells(open_cells@)
        }),
{
    let candidates = food_candidates(open_cells);
    if candidates.len() == 0 {
        let copy = open_cells.clone();
        proof {
            assert forall|k: int| 0 <= k < copy@.len() implies copy@[k] == open_cells@[k] by {
                assert(cloned(open_cells@[k], copy@[k]));
            }
            assert(copy@ =~= open_cells@);
        }
        copy
    } else {
        candidates
    }
}

/// Pick a random cell of `source` to centre a food cluster on; `None` when
/// `source` is empty.
pub fn pick_cluster_center(source: &Vec<usize>) -> (center: Option<usize>)
    ensures
        center is None <==> source@.len() == 0,
        center matches Some(c) ==> source@.contains(c),
{
    if source.len() == 0 {
        return None;
    }
    let k = random_index(source.len());
    let c = source[k];
    assert(source@[k as int] == c);
    Some(c)
}

/// Pick a random open cell for a respawning food source, as (column, row);
/// `None` when there is no open cell.
pub fn pick_respawn_cell(open_cells: &Vec<usize>) -> (cell: Option<(usize, usize)>)
    requires
        all_in_grid(open_cells@),
    ensures
        cell is None <==> open_cells@.len() == 0,
        cell matches Some((x, y)) ==> x < GRID_W && y < GRID_H && open_cells@.contains(
            cell_index(x as int, y as int) as usize,
        ),
{
    if open_cells.len() == 0 {
        return None;
    }
    let k = random_index(open_cells.len());
    let c = open_cells[k];
    let gx = c % GRID_W;
    let gy = c / GRID_W;
    assert(open_cells@[k as int] == (gy * GRID_W + gx) as usize);
    Some((gx, gy))
}

/// Cells already holding a food item during cluster placement.
pub struct FoodOccupancy {
    pub occupied: Vec<bool>,
}

impl FoodOccupancy {
    /// No cell occupied yet.
    pub fn new() -> (occ: FoodOccupancy)
        ensures
            occ.occupied@.len() == GRID_CELLS,
            forall|i: int| 0 <= i < GRID_CELLS ==> !(#[trigger] occ.occupied@[i]),
    {
        let occupied: Vec<bool> = vec![false; GRID_CELLS];
        proof {
            assert forall|i: int| 0 <= i < GRID_CELLS implies !(#[trigger] occupied@[i]) by {
                assert(cloned(false, occupied@[i]));
            }
        }
        FoodOccupancy { occupied }
    }

    /// Claim `cell` for a food item: granted exactly when the cell is open and
    /// not yet occupied, and a granted cell is occupied from then on, so no
    /// two food items share a cell and none sits in a wall.
    pub fn try_claim(&mut self, walls: &Vec<bool>, cell: usize) -> (granted: bool)
        requires
            old(self).occupied@.len() == GRID_CELLS,
            walls@.len() == GRID_CELLS,
            cell < GRID_CELLS,
        ensures
            granted == (!walls@[cell as int] && !old(self).occupied@[cell as int]),
            final(self).occupied@ == (if granted {
                old(self).occupied@.update(cell as int, true)
            } else {
                old(self).occupied@
            }),
    {
        if !walls[cell] && !self.occupied[cell] {
            self.occupied.set(cell, true);
            true
        } else {
            false
        }
    }
}

/// Replay `try_claim` on each of `cells` in turn, from occupancy `occupied`:
/// the cells that were granted, in order, and the final occupancy.
pub open spec fn claim_all(occupied: Seq<bool>, walls: Seq<bool>, cells: Seq<usize>) -> (Seq<usize>, Seq<bool>)
    decreases cells.len(),
{
    if cells.len() == 0 {
        (seq![], occupied)
    } else {
        let (granted, occ) = claim_all(occupied, walls, cells.drop_last());
        let c = cells.last();
        if !walls[c as int] && !occ[c as int] {
            (granted.push(c), occ.update(c as int, true))
        } else {
            (granted, occ)
        }
    }
}

/// However placement attempts fall, food items never share a cell and never
/// sit in a wall: the granted cells are distinct, open, were free before the
/// run, and are occupied after it.
pub proof fn lemma_claims_exclusive(occupied: Seq<bool>, walls: Seq<bool>, cells: Seq<usize>)
    requires
        occupied.len() == GRID_CELLS,
        walls.len() == GRID_CELLS,
        all_in_grid(cells),
    ensures
        claim_all(occupied, walls, cells).0.no_duplicates(),
        all_in_grid(claim_all(occupied, walls, cells).0),
        claim_all(occupied, walls, cells).1.len() == GRID_CELLS,
        forall|k: int|
            0 <= k < claim_all(occupied, walls, cells).0.len() ==> {
                let c = #[trigger] claim_all(occupied, walls, cells).0[k] as int;
                &&& !walls[c]
                &&& !occupied[c]
                &&& claim_all(occupied, walls, cells).1[c]
            },
    decreases cells.len(),
{
    if cells.len() > 0 {
        let prefix = cells.drop_last();
        assert(all_in_grid(prefix)) by {
            assert forall|k: int| 0 <= k < prefix.len() implies (#[trigger] prefix[k]) < GRID_CELLS by {
                assert(prefix[k] == cells[k]);
            }
        }
        lemma_claims_exclusive(occupied, walls, prefix);
        let (granted, occ) = claim_all(occupied, walls, prefix);
        let c = cells.last();
        assert(c == cells[cells.len() - 1]);
        if !walls[c as int] && !occ[c as int] {
            let g2 = granted.push(c);
            let o2 = occ.update(c as int, true);
            assert(all_in_grid(g2)) by {
                assert forall|k: int| 0 <= k < g2.len() implies (#[trigger] g2[k]) < GRID_CELLS by {
                    if k < granted.len() {
                        assert(g2[k] == granted[k]);
                    }
                }
            }
            assert forall|a: int, b: int| 0 <= a < g2.len() && 0 <= b < g2.len() && a != b implies g2[a]
                != g2[b] by {
                if a == granted.len() as int {
                    assert(occ[granted[b] as int]);
                } else if b == granted.len() as int {
                    assert(occ[granted[a] as int]);
                }
            }
            assert forall|k: int| 0 <= k < g2.len() implies {
                let x = #[trigger] g2[k] as int;
                &&& !walls[x]
                &&& !occupied[x]
                &&& o2[x]
            } by {
                if k < granted.len() {
                    assert(g2[k] == granted[k]);
                    let x = granted[k] as int;
                    assert(!walls[x] && !occupied[x] && occ[x]);
                    assert(x != c as int);
                    assert(o2[x]);
                } else {
                    assert(g2[k] == c);
                    if occupied[c as int] {
                        lemma_occupancy_only_grows(occupied, walls, prefix, c as int);
                    }
                    assert(o2[c as int]);
                }
            }
        }
    }
}

/// Claims only ever add occupied cells.
proof fn lemma_occupancy_only_grows(occupied: Seq<bool>, walls: Seq<bool>, cells: Seq<usize>, c: int)
    requires
        occupied.len() == GRID_CELLS,
        all_in_grid(cells),
        0 <= c < GRID_CELLS,
        occupied[c],
    ensures
        claim_all(occupied, walls, cells).1.len() == GRID_CELLS,
        claim_all(occupied, walls, cells).1[c],
    decreases cells.len(),
{
    if cells.len() > 0 {
        let prefix = cells.drop_last();
        assert(all_in_grid(prefix)) by {
            assert forall|k: int| 0 <= k < prefix.len() implies (#[trigger] prefix[k]) < GRID_CELLS by {
                assert(prefix[k] == cells[k]);
            }
        }
        lemma_occupancy_only_grows(occupied, walls, prefix, c);
        assert(cells.last() == cells[cells.len() - 1]);
    }
}

} // verus!
