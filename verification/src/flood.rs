use vstd::prelude::*;
use vstd::set_lib::*;

use std::collections::VecDeque;

use crate::config::{GRID_CELLS, GRID_H, GRID_W};
use crate::grid::{
    adjacent, in_grid, is_open_path, lemma_reaches_self, lemma_reaches_step, open_region_connected,
    open_step, reaches,
};

verus! {

/// Every open neighbour of cell `c` is marked in `reach`.
pub open spec fn closed_at(walls: Seq<bool>, reach: Seq<bool>, c: int) -> bool {
    forall|j: int| #[trigger] adjacent(c, j) && !walls[j] ==> reach[j]
}

/// A sequence of distinct indices below `n` has at most `n` elements.
proof fn lemma_distinct_bounded(s: Seq<usize>, n: int)
    requires
        0 <= n,
        s.no_duplicates(),
        forall|k: int| 0 <= k < s.len() ==> (#[trigger] s[k]) < n,
    ensures
        s.len() <= n,
{
    let f = |x: usize| x as int;
    let t = s.map_values(f);
    assert(t.no_duplicates()) by {
        assert forall|a: int, b: int| 0 <= a < t.len() && 0 <= b < t.len() && a != b implies t[a]
            != t[b] by {
            assert(s[a] != s[b]);
        }
    }
    t.unique_seq_to_set();
    lemma_int_range(0, n);
    assert(t.to_set().subset_of(set_int_range(0, n))) by {
        assert forall|x: int| t.to_set().contains(x) implies set_int_range(0, n).contains(x) by {
            let k = choose|k: int| 0 <= k < t.len() && t[k] == x;
            assert(s[k] < n);
        }
    }
    lemma_len_subset(t.to_set(), set_int_range(0, n));
}

/// Appending an absent element keeps a sequence free of duplicates.
proof fn lemma_push_distinct(s: Seq<usize>, x: usize)
    requires
        s.no_duplicates(),
        !s.contains(x),
    ensures
        s.push(x).no_duplicates(),
{
    let t = s.push(x);
    assert forall|a: int, b: int| 0 <= a < t.len() && 0 <= b < t.len() && a != b implies t[a]
        != t[b] by {
        if a == s.len() as int {
            assert(s[b] == t[b]);
        } else if b == s.len() as int {
            assert(s[a] == t[a]);
        }
    }
}

/// If `reach` marks `start` and is closed under moving to open neighbours,
/// every cell of every open path from `start` is marked.
proof fn lemma_closed_covers_path(walls: Seq<bool>, reach: Seq<bool>, start: int, p: Seq<int>, k: int)
    requires
        walls.len() == GRID_CELLS,
        reach.len() == GRID_CELLS,
        reach[start],
        forall|c: int| in_grid(c) && reach[c] ==> #[trigger] closed_at(walls, reach, c),
        is_open_path(walls, p),
        p[0] == start,
        0 <= k < p.len(),
    ensures
        reach[p[k]],
    decreases k,
{
    if k > 0 {
        lemma_closed_covers_path(walls, reach, start, p, k - 1);
        assert(open_step(walls, p, k - 1));
        assert(closed_at(walls, reach, p[k - 1]));
    }
}

/// The bookkeeping of a breadth-first search that is part-way done: `order`
/// lists every cell ever queued, `queue` is its unprocessed suffix from `head`,
/// and `reach` marks exactly the queued cells, each of them reachable.
pub open spec fn bfs_state(
    walls: Seq<bool>,
    start: int,
    reach: Seq<bool>,
    queue: Seq<usize>,
    order: Seq<usize>,
    head: int,
) -> bool {
    &&& walls.len() == GRID_CELLS
    &&& in_grid(start)
    &&& reach.len() == GRID_CELLS
    &&& 0 <= head <= order.len() <= GRID_CELLS
    &&& 1 <= order.len()
    &&& queue == order.subrange(head, order.len() as int)
    &&& order.no_duplicates()
    &&& order[0] == start
    &&& forall|k: int| 0 <= k < order.len() ==> (#[trigger] order[k]) < GRID_CELLS
    &&& forall|i: int| in_grid(i) ==> (#[trigger] reach[i] <==> order.contains(i as usize))
    &&& forall|i: int| in_grid(i) && reach[i] ==> reaches(walls, start, i)
}

/// Queue the open neighbour `ni` of the reached cell `from` unless it is a
/// wall or already marked.
fn visit(
    walls: &Vec<bool>,
    start: usize,
    reachable: &mut Vec<bool>,
    queue: &mut VecDeque<usize>,
    from: usize,
    ni: usize,
    Ghost(order): Ghost<Seq<usize>>,
    Ghost(head): Ghost<int>,
) -> (new_order: Ghost<Seq<usize>>)
    requires
        bfs_state(walls@, start as int, old(reachable)@, old(queue)@, order, head),
        adjacent(from as int, ni as int),
        old(reachable)@[from as int],
    ensures
        bfs_state(walls@, start as int, final(reachable)@, final(queue)@, new_order@, head),
        final(reachable)@[ni as int] || walls@[ni as int],
        forall|j: int| in_grid(j) && old(reachable)@[j] ==> final(reachable)@[j],
        new_order@.len() == order.len() || new_order@.len() == order.len() + 1,
        final(queue)@.len() - old(queue)@.len() == new_order@.len() - order.len(),
        forall|k: int| 0 <= k < order.len() ==> new_order@[k] == order[k],
{
    if !walls[ni] && !reachable[ni] {
        proof {
            lemma_reaches_step(walls@, start as int, from as int, ni as int);
            assert(!order.contains(ni));
            lemma_push_distinct(order, ni);
            lemma_distinct_bounded(order.push(ni), GRID_CELLS as int);
        }
        reachable.set(ni, true);
        queue.push_back(ni);
        let ghost new_order = order.push(ni);
        proof {
            assert(final(queue)@ =~= new_order.subrange(head, new_order.len() as int));
            assert forall|i: int| in_grid(i) implies (reachable@[i] <==> new_order.contains(
                i as usize,
            )) by {
                if i == ni as int {
                    assert(new_order[order.len() as int] == ni);
                } else if order.contains(i as usize) {
                    let k = choose|k: int| 0 <= k < order.len() && order[k] == i as usize;
                    assert(new_order[k] == i as usize);
                } else if new_order.contains(i as usize) {
                    let k = choose|k: int| 0 <= k < new_order.len() && new_order[k] == i as usize;
                    assert(k < order.len());
                    assert(order[k] == i as usize);
                }
            }
        }
        Ghost(new_order)
    } else {
        Ghost(order)
    }
}

/// Breadth-first flood fill over open cells.
///
/// The result marks exactly the cells that can be reached from `start` by
/// moving between orthogonally adjacent open cells (`start` itself is always
/// marked, whether or not it is a wall).
pub fn flood_fill(walls: &Vec<bool>, start: usize) -> (reach: Vec<bool>)
    requires
        walls@.len() == GRID_CELLS,
        start < GRID_CELLS,
    ensures
        reach@.len() == GRID_CELLS,
        forall|i: int| in_grid(i) ==> (reach@[i] <==> reaches(walls@, start as int, i)),
{
    let mut reachable: Vec<bool> = vec![false; GRID_CELLS];
    let mut queue: VecDeque<usize> = VecDeque::new();
    queue.push_back(start);
    reachable.set(start, true);
    let ghost mut order: Seq<usize> = seq![start];
    let ghost mut head: int = 0;
    proof {
        lemma_reaches_self(walls@, start as int);
        assert(order[0] == start);
        assert forall|i: int| in_grid(i) implies (reachable@[i] <==> order.contains(i as usize)) by {
            if i == start {
                assert(order[0] == i as usize);
            } else {
                assert(cloned(false, reachable@[i]));
            }
        }
        assert(queue@ =~= order.subrange(0, 1));
    }

    while queue.len() > 0
        invariant
            bfs_state(walls@, start as int, reachable@, queue@, order, head),
            forall|k: int|
                0 <= k < head ==> #[trigger] closed_at(walls@, reachable@, order[k] as int),
        decreases (GRID_CELLS - order.len()) * 5 + queue@.len(),
    {
        let ghost reach_before = reachable@;
        let ghost order_before = order;
        let i = queue.pop_front().unwrap();
        proof {
            head = head + 1;
            assert(queue@ =~= order.subrange(head, order.len() as int));
            assert(order[head - 1] == i);
            assert(order.contains(i));
            assert(reachable@[i as int]);
        }
        let iy = i / GRID_W;
        let ix = i % GRID_W;
        assert(i == iy * GRID_W + ix);
        if ix > 0 {
            let Ghost(o) = visit(
                walls,
                start,
                &mut reachable,
                &mut queue,
                i,
                iy * GRID_W + (ix - 1),
                Ghost(order),
                Ghost(head),
            );
            proof {
                order = o;
            }
        }
        if ix + 1 < GRID_W {
            let Ghost(o) = visit(
                walls,
                start,
                &mut reachable,
                &mut queue,
                i,
                iy * GRID_W + (ix + 1),
                Ghost(order),
                Ghost(head),
            );
            proof {
                order = o;
            }
        }
        if iy > 0 {
            let Ghost(o) = visit(
                walls,
                start,
                &mut reachable,
                &mut queue,
                i,
                (iy - 1) * GRID_W + ix,
                Ghost(order),
                Ghost(head),
            );
            proof {
                order = o;
            }
        }
        if iy + 1 < GRID_H {
            let Ghost(o) = visit(
                walls,
                start,
                &mut reachable,
                &mut queue,
                i,
                (iy + 1) * GRID_W + ix,
                Ghost(order),
                Ghost(head),
            );
            proof {
                order = o;
            }
        }
        proof {
            assert forall|k: int| 0 <= k < head implies #[trigger] closed_at(
                walls@,
                reachable@,
                order[k] as int,
            ) by {
                assert(order[k] == order_before[k]);
                if k < head - 1 {
                    assert(closed_at(walls@, reach_before, order_before[k] as int));
                } else {
                    assert(order[k] == i);
                }
            }
        }
    }
    proof {
        assert forall|i: int| in_grid(i) implies (reachable@[i] <==> reaches(
            walls@,
            start as int,
            i,
        )) by {
            if reaches(walls@, start as int, i) {
                let p = choose|p: Seq<int>|
                    #[trigger] is_open_path(walls@, p) && p[0] == start && p.last() == i;
                assert forall|c: int| in_grid(c) && reachable@[c] implies #[trigger] closed_at(
                    walls@,
                    reachable@,
                    c,
                ) by {
                    let k = choose|k: int| 0 <= k < order.len() && order[k] == c as usize;
                    assert(closed_at(walls@, reachable@, order[k] as int));
                }
                assert(order.contains(start));
                lemma_closed_covers_path(walls@, reachable@, start as int, p, p.len() - 1);
            }
        }
    }
    reachable
}

/// Turn every open cell that `reach` does not mark into a wall.
pub fn seal_unreachable(walls: Vec<bool>, reach: &Vec<bool>) -> (sealed: Vec<bool>)
    requires
        walls@.len() == GRID_CELLS,
        reach@.len() == GRID_CELLS,
    ensures
        sealed@.len() == GRID_CELLS,
        forall|i: int| in_grid(i) ==> sealed@[i] == (walls@[i] || !reach@[i]),
{
    let mut sealed = walls;
    let n = sealed.len();
    let mut i: usize = 0;
    while i < n
        invariant
            n == GRID_CELLS,
            i <= n,
            walls@.len() == GRID_CELLS,
            sealed@.len() == GRID_CELLS,
            reach@.len() == GRID_CELLS,
            forall|j: int| 0 <= j < i ==> sealed@[j] == (walls@[j] || !reach@[j]),
            forall|j: int| i <= j < GRID_CELLS ==> sealed@[j] == walls@[j],
        decreases n - i,
    {
        if !sealed[i] && !reach[i] {
            sealed.set(i, true);
        }
        i = i + 1;
    }
    sealed
}

/// Every cell on an open path from `start` is itself reachable from `start`.
proof fn lemma_path_cells_reach(walls: Seq<bool>, p: Seq<int>, k: int)
    requires
        is_open_path(walls, p),
        0 <= k < p.len(),
    ensures
        reaches(walls, p[0], p[k]),
{
    let q = p.subrange(0, k + 1);
    assert forall|m: int| 0 <= m < q.len() - 1 implies #[trigger] open_step(walls, q, m) by {
        assert(open_step(walls, p, m));
    }
    assert(is_open_path(walls, q));
}

/// Sealing every cell that `start` cannot reach leaves an open region in which
/// every open cell is reachable from `start`.
pub proof fn lemma_sealed_connected(walls: Seq<bool>, start: int, sealed: Seq<bool>)
    requires
        walls.len() == GRID_CELLS,
        in_grid(start),
        sealed.len() == GRID_CELLS,
        forall|i: int| in_grid(i) ==> sealed[i] == (walls[i] || !reaches(walls, start, i)),
    ensures
        open_region_connected(sealed, start),
{
    assert forall|i: int| in_grid(i) && !sealed[i] implies #[trigger] reaches(sealed, start, i) by {
        let p = choose|p: Seq<int>| #[trigger] is_open_path(walls, p) && p[0] == start && p.last() == i;
        assert forall|m: int| 0 <= m < p.len() - 1 implies #[trigger] open_step(sealed, p, m) by {
            assert(open_step(walls, p, m));
            lemma_path_cells_reach(walls, p, m + 1);
        }
        assert(is_open_path(sealed, p));
    }
}

/// Flood-fill from `start` and wall off every open cell it cannot reach.
///
/// Afterwards the open cells are exactly the open cells that were reachable
/// from `start`, and all of them are reachable from `start`.
pub fn connect_to(walls: Vec<bool>, start: usize) -> (sealed: Vec<bool>)
    requires
        walls@.len() == GRID_CELLS,
        start < GRID_CELLS,
    ensures
        sealed@.len() == GRID_CELLS,
        forall|i: int|
            in_grid(i) ==> sealed@[i] == (walls@[i] || !reaches(walls@, start as int, i)),
        open_region_connected(sealed@, start as int),
{
    let reach = flood_fill(&walls, start);
    let ghost w = walls@;
    let sealed = seal_unreachable(walls, &reach);
    proof {
        lemma_sealed_connected(w, start as int, sealed@);
    }
    sealed
}

} // verus!
