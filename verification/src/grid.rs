use vstd::prelude::*;

use crate::config::{GRID_CELLS, GRID_W};

verus! {

/// `i` is the flat index of a cell of the grid.
pub open spec fn in_grid(i: int) -> bool {
    0 <= i < GRID_CELLS
}

/// Column of the cell with flat index `i`.
pub open spec fn col(i: int) -> int {
    i % (GRID_W as int)
}

/// Row of the cell with flat index `i`.
pub open spec fn row(i: int) -> int {
    i / (GRID_W as int)
}

/// `a` and `b` are orthogonally adjacent cells (4-neighbourhood).
pub open spec fn adjacent(a: int, b: int) -> bool {
    &&& in_grid(a)
    &&& in_grid(b)
    &&& {
        ||| (b == a - 1 && col(a) != 0)
        ||| (b == a + 1 && col(a) != GRID_W - 1)
        ||| b == a - GRID_W
        ||| b == a + GRID_W
    }
}

/// Step `k` of path `p` moves to an adjacent open cell.
pub open spec fn open_step(walls: Seq<bool>, p: Seq<int>, k: int) -> bool {
    adjacent(p[k], p[k + 1]) && !walls[p[k + 1]]
}

/// `p` is a walk through the grid in which every cell after the first is open.
pub open spec fn is_open_path(walls: Seq<bool>, p: Seq<int>) -> bool {
    &&& p.len() >= 1
    &&& in_grid(p[0])
    &&& forall|k: int| 0 <= k < p.len() - 1 ==> #[trigger] open_step(walls, p, k)
}

/// Cell `i` can be reached from `start` by moving between adjacent open cells.
pub open spec fn reaches(walls: Seq<bool>, start: int, i: int) -> bool {
    exists|p: Seq<int>| #[trigger] is_open_path(walls, p) && p[0] == start && p.last() == i
}

/// Every open cell of `walls` is reachable from `start`.
pub open spec fn open_region_connected(walls: Seq<bool>, start: int) -> bool {
    forall|i: int| in_grid(i) && !walls[i] ==> #[trigger] reaches(walls, start, i)
}

/// Extending an open path by an adjacent open cell gives an open path.
pub proof fn lemma_extend_path(walls: Seq<bool>, p: Seq<int>, j: int)
    requires
        is_open_path(walls, p),
        adjacent(p.last(), j),
        !walls[j],
    ensures
        is_open_path(walls, p.push(j)),
        p.push(j)[0] == p[0],
        p.push(j).last() == j,
{
    let q = p.push(j);
    assert forall|k: int| 0 <= k < q.len() - 1 implies #[trigger] open_step(walls, q, k) by {
        if k < p.len() - 1 {
            assert(open_step(walls, p, k));
        }
    }
}

/// A single in-grid cell reaches itself.
pub proof fn lemma_reaches_self(walls: Seq<bool>, start: int)
    requires
        in_grid(start),
    ensures
        reaches(walls, start, start),
{
    let p = seq![start];
    assert(is_open_path(walls, p));
}

/// Reachability extends along an adjacent open cell.
pub proof fn lemma_reaches_step(walls: Seq<bool>, start: int, i: int, j: int)
    requires
        reaches(walls, start, i),
        adjacent(i, j),
        !walls[j],
    ensures
        reaches(walls, start, j),
{
    let p = choose|p: Seq<int>| #[trigger] is_open_path(walls, p) && p[0] == start && p.last() == i;
    lemma_extend_path(walls, p, j);
    assert(is_open_path(walls, p.push(j)));
}

/// Any two open cells of `walls` are joined by a path of adjacent open cells:
/// the open cells form one 4-connected region.
pub open spec fn open_cells_connected(walls: Seq<bool>) -> bool {
    forall|i: int, j: int|
        in_grid(i) && !walls[i] && in_grid(j) && !walls[j] ==> #[trigger] reaches(walls, i, j)
}

/// Adjacency is symmetric.
pub proof fn lemma_adjacent_symmetric(a: int, b: int)
    requires
        adjacent(a, b),
    ensures
        adjacent(b, a),
{
}

/// A path between two open cells can be walked backwards.
pub proof fn lemma_reaches_reverse(walls: Seq<bool>, s: int, i: int)
    requires
        reaches(walls, s, i),
        !walls[s],
    ensures
        reaches(walls, i, s),
{
    let p = choose|p: Seq<int>| #[trigger] is_open_path(walls, p) && p[0] == s && p.last() == i;
    let n = p.len();
    let q = Seq::new(n, |k: int| p[n - 1 - k]);
    assert forall|k: int| 0 <= k < q.len() - 1 implies #[trigger] open_step(walls, q, k) by {
        let m = n - 2 - k;
        assert(open_step(walls, p, m));
        lemma_adjacent_symmetric(p[m], p[m + 1]);
        if m >= 1 {
            assert(open_step(walls, p, m - 1));
        }
        assert(q[k] == p[m + 1] && q[k + 1] == p[m]);
    }
    if n > 1 {
        assert(open_step(walls, p, n - 2));
    }
    assert(is_open_path(walls, q));
    assert(q[0] == i && q.last() == s);
}

/// Paths join end to end.
pub proof fn lemma_reaches_trans(walls: Seq<bool>, a: int, b: int, c: int)
    requires
        reaches(walls, a, b),
        reaches(walls, b, c),
    ensures
        reaches(walls, a, c),
{
    let p1 = choose|p: Seq<int>| #[trigger] is_open_path(walls, p) && p[0] == a && p.last() == b;
    let p2 = choose|p: Seq<int>| #[trigger] is_open_path(walls, p) && p[0] == b && p.last() == c;
    let q = p1 + p2.skip(1);
    let n1 = p1.len() as int;
    assert forall|k: int| 0 <= k < q.len() - 1 implies #[trigger] open_step(walls, q, k) by {
        if k < n1 - 1 {
            assert(open_step(walls, p1, k));
        } else {
            let m = k - n1 + 1;
            assert(open_step(walls, p2, m));
            assert(q[k] == p2[m] && q[k + 1] == p2[m + 1]);
        }
    }
    assert(is_open_path(walls, q));
    if p2.len() == 1 {
        assert(q =~= p1);
    } else {
        assert(q.last() == p2.last());
    }
}

/// When some open cell reaches every open cell, all open cells form one
/// connected region.
pub proof fn lemma_connected_from_open_start(walls: Seq<bool>, s: int)
    requires
        in_grid(s),
        !walls[s],
        open_region_connected(walls, s),
    ensures
        open_cells_connected(walls),
{
    assert forall|i: int, j: int|
        in_grid(i) && !walls[i] && in_grid(j) && !walls[j] implies #[trigger] reaches(walls, i, j) by {
        assert(reaches(walls, s, i));
        assert(reaches(walls, s, j));
        lemma_reaches_reverse(walls, s, i);
        lemma_reaches_trans(walls, i, s, j);
    }
}

} // verus!
