use vstd::prelude::*;

use crate::config::{cell_index, GRID_CELLS, GRID_H, GRID_W};
use crate::grid::{col, in_grid, row};

verus! {

/// Cell (x, y) lies at least `margin` cells inside the grid, is open, and the
/// cells `d` steps away from it in the four cardinal directions are open too.
pub open spec fn has_clearance(walls: Seq<bool>, x: int, y: int, margin: int, d: int) -> bool {
    &&& margin <= x < GRID_W - margin
    &&& margin <= y < GRID_H - margin
    &&& !walls[cell_index(x, y)]
    &&& !walls[cell_index(x - d, y)]
    &&& !walls[cell_index(x + d, y)]
    &&& !walls[cell_index(x, y - d)]
    &&& !walls[cell_index(x, y + d)]
}

/// Flat index `i` names a cell with the clearance of [`has_clearance`].
pub open spec fn clear_cell(walls: Seq<bool>, i: int, margin: int, d: int) -> bool {
    in_grid(i) && has_clearance(walls, col(i), row(i), margin, d)
}

/// The indices in `cells` strictly increase.
pub open spec fn strictly_increasing(cells: Seq<usize>) -> bool {
    forall|k: int, l: int| 0 <= k < l < cells.len() ==> cells[k] < cells[l]
}

/// `cells` lists, in increasing order and each once, exactly the cells with
/// the clearance of [`clear_cell`].
pub open spec fn lists_clear_cells(walls: Seq<bool>, cells: Seq<usize>, margin: int, d: int) -> bool {
    &&& forall|k: int|
        0 <= k < cells.len() ==> #[trigger] clear_cell(walls, cells[k] as int, margin, d)
    &&& strictly_increasing(cells)
    &&& forall|i: int| #[trigger] clear_cell(walls, i, margin, d) ==> cells.contains(i as usize)
}

/// Some cell has the clearance of [`clear_cell`].
pub open spec fn exists_clear_cell(walls: Seq<bool>, margin: int, d: int) -> bool {
    exists|i: int| #[trigger] clear_cell(walls, i, margin, d)
}

/// A listing of clear cells is empty exactly when no cell is clear.
pub proof fn lemma_clear_listing_empty(walls: Seq<bool>, cells: Seq<usize>, margin: int, d: int)
    requires
        lists_clear_cells(walls, cells, margin, d),
    ensures
        cells.len() == 0 <==> !exists_clear_cell(walls, margin, d),
{
    if cells.len() > 0 {
        assert(clear_cell(walls, cells[0] as int, margin, d));
    }
    if exists_clear_cell(walls, margin, d) {
        let i = choose|i: int| #[trigger] clear_cell(walls, i, margin, d);
        assert(cells.contains(i as usize));
    }
}

/// Two strictly increasing lists of the same elements are the same list.
pub proof fn lemma_increasing_listing_unique(a: Seq<usize>, b: Seq<usize>)
    requires
        strictly_increasing(a),
        strictly_increasing(b),
        forall|x: usize| a.contains(x) <==> b.contains(x),
    ensures
        a == b,
    decreases a.len() + b.len(),
{
    if a.len() == 0 || b.len() == 0 {
        if a.len() > 0 {
            assert(a.contains(a[0]));
        }
        if b.len() > 0 {
            assert(b.contains(b[0]));
        }
        assert(a =~= b);
    } else {
        assert(a.contains(a[0]));
        assert(b.contains(b[0]));
        let ja = choose|j: int| 0 <= j < b.len() && b[j] == a[0];
        let jb = choose|j: int| 0 <= j < a.len() && a[j] == b[0];
        assert(a[0] == b[0]) by {
            if jb > 0 {
                assert(a[0] < a[jb]);
            }
            if ja > 0 {
                assert(b[0] < b[ja]);
            }
        }
        let a1 = a.drop_first();
        let b1 = b.drop_first();
        assert forall|x: usize| a1.contains(x) <==> b1.contains(x) by {
            if a1.contains(x) {
                let i = choose|i: int| 0 <= i < a1.len() && a1[i] == x;
                assert(a[i + 1] == x && a[0] < a[i + 1]);
                assert(b.contains(x));
                let j = choose|j: int| 0 <= j < b.len() && b[j] == x;
                assert(j != 0);
                assert(b1[j - 1] == x);
            }
            if b1.contains(x) {
                let i = choose|i: int| 0 <= i < b1.len() && b1[i] == x;
                assert(b[i + 1] == x && b[0] < b[i + 1]);
                assert(a.contains(x));
                let j = choose|j: int| 0 <= j < a.len() && a[j] == x;
                assert(j != 0);
                assert(a1[j - 1] == x);
            }
        }
        lemma_increasing_listing_unique(a1, b1);
        assert(a =~= b) by {
            assert forall|k: int| 0 <= k < a.len() implies a[k] == b[k] by {
                if k > 0 {
                    assert(a[k] == a1[k - 1]);
                    assert(b[k] == b1[k - 1]);
                }
            }
        }
    }
}

/// Coordinates of a flat index built from in-range coordinates.
proof fn lemma_index_coords(x: int, y: int)
    requires
        0 <= x < GRID_W,
        0 <= y,
    ensures
        col(cell_index(x, y)) == x,
        row(cell_index(x, y)) == y,
{
}

/// All cells `i` with clearance `d` inside margin `margin`, in increasing order.
pub fn collect_clear_cells(walls: &Vec<bool>, margin: usize, d: usize) -> (cells: Vec<usize>)
    requires
        walls@.len() == GRID_CELLS,
        1 <= d <= margin,
        2 * margin < GRID_H,
    ensures
        lists_clear_cells(walls@, cells@, margin as int, d as int),
{
    let ghost m = margin as int;
    let ghost dd = d as int;
    let mut cells: Vec<usize> = Vec::new();
    let mut y = margin;
    while y < GRID_H - margin
        invariant
            walls@.len() == GRID_CELLS,
            1 <= d <= margin,
            2 * margin < GRID_H,
            m == margin,
            dd == d,
            margin <= y <= GRID_H - margin,
            forall|k: int|
                0 <= k < cells@.len() ==> #[trigger] clear_cell(walls@, cells@[k] as int, m, dd),
            strictly_increasing(cells@),
            forall|k: int| 0 <= k < cells@.len() ==> (#[trigger] cells@[k]) < y * GRID_W,
            forall|i: int|
                #[trigger] clear_cell(walls@, i, m, dd) && i < y * GRID_W ==> cells@.contains(
                    i as usize,
                ),
        decreases GRID_H - y,
    {
        proof {
            assert forall|i: int|
                #[trigger] clear_cell(walls@, i, m, dd) && i < y * GRID_W + margin implies cells@.contains(
                i as usize,
            ) by {
                if i >= y * GRID_W {
                    assert(row(i) == y);
                    assert(col(i) < margin);
                }
            }
        }
        let mut x = margin;
        while x < GRID_W - margin
            invariant
                walls@.len() == GRID_CELLS,
                1 <= d <= margin,
                2 * margin < GRID_H,
                m == margin,
                dd == d,
                margin <= y < GRID_H - margin,
                margin <= x <= GRID_W - margin,
                forall|k: int|
                    0 <= k < cells@.len() ==> #[trigger] clear_cell(walls@, cells@[k] as int, m, dd),
                strictly_increasing(cells@),
                forall|k: int| 0 <= k < cells@.len() ==> (#[trigger] cells@[k]) < y * GRID_W + x,
                forall|i: int|
                    #[trigger] clear_cell(walls@, i, m, dd) && i < y * GRID_W + x
                        ==> cells@.contains(i as usize),
            decreases GRID_W - x,
        {
            let i = y * GRID_W + x;
            proof {
                lemma_index_coords(x as int, y as int);
            }
            if !walls[i] && !walls[y * GRID_W + (x - d)] && !walls[y * GRID_W + (x + d)]
                && !walls[(y - d) * GRID_W + x] && !walls[(y + d) * GRID_W + x] {
                let ghost before = cells@;
                cells.push(i);
                proof {
                    assert(clear_cell(walls@, i as int, m, dd));
                    assert forall|j: int|
                        #[trigger] clear_cell(walls@, j, m, dd) && j < y * GRID_W + x
                            + 1 implies cells@.contains(j as usize) by {
                        if j == i {
                            assert(cells@[before.len() as int] == i);
                        } else {
                            assert(before.contains(j as usize));
                            let k = choose|k: int| 0 <= k < before.len() && before[k] == j as usize;
                            assert(cells@[k] == j as usize);
                        }
                    }
                }
            } else {
                proof {
                    assert(!clear_cell(walls@, i as int, m, dd));
                }
            }
            x = x + 1;
        }
        proof {
            assert forall|i: int|
                #[trigger] clear_cell(walls@, i, m, dd) && i < (y + 1) * GRID_W implies cells@.contains(
                i as usize,
            ) by {
                if i >= y * GRID_W + (GRID_W - margin) {
                    assert(row(i) == y);
                    assert(col(i) >= GRID_W - margin);
                }
            }
        }
        y = y + 1;
    }
    proof {
        assert forall|i: int| #[trigger] clear_cell(walls@, i, m, dd) implies cells@.contains(
            i as usize,
        ) by {
            if i >= y * GRID_W {
                assert(row(i) >= GRID_H - margin);
            }
        }
    }
    cells
}

/// Flat index `i` names an open cell of the grid.
pub open spec fn open_cell(walls: Seq<bool>, i: int) -> bool {
    in_grid(i) && !walls[i]
}

/// `cells` lists, in increasing order and each once, exactly the open cells.
pub open spec fn lists_open_cells(walls: Seq<bool>, cells: Seq<usize>) -> bool {
    &&& forall|k: int| 0 <= k < cells.len() ==> #[trigger] open_cell(walls, cells[k] as int)
    &&& strictly_increasing(cells)
    &&& forall|i: int| #[trigger] open_cell(walls, i) ==> cells.contains(i as usize)
}

/// All open cells, in increasing order.
pub fn collect_open_cells(walls: &Vec<bool>) -> (cells: Vec<usize>)
    requires
        walls@.len() == GRID_CELLS,
    ensures
        lists_open_cells(walls@, cells@),
{
    let mut cells: Vec<usize> = Vec::new();
    let n = walls.len();
    let mut i: usize = 0;
    while i < n
        invariant
            n == GRID_CELLS,
            walls@.len() == GRID_CELLS,
            i <= n,
            forall|k: int|
                0 <= k < cells@.len() ==> #[trigger] open_cell(walls@, cells@[k] as int),
            strictly_increasing(cells@),
            forall|k: int| 0 <= k < cells@.len() ==> (#[trigger] cells@[k]) < i,
            forall|j: int|
                #[trigger] open_cell(walls@, j) && j < i ==> cells@.contains(j as usize),
        decreases n - i,
    {
        if !walls[i] {
            let ghost before = cells@;
            cells.push(i);
            proof {
                assert forall|j: int|
                    #[trigger] open_cell(walls@, j) && j < i + 1 implies cells@.contains(
                    j as usize,
                ) by {
                    if j == i {
                        assert(cells@[before.len() as int] == i);
                    } else {
                        let k = choose|k: int| 0 <= k < before.len() && before[k] == j as usize;
                        assert(cells@[k] == j as usize);
                    }
                }
            }
        }
        i = i + 1;
    }
    cells
}

} // verus!
