use vstd::prelude::*;

verus! {

/// 1 for a solid corner, 0 for an open one.
pub open spec fn bit(solid: bool) -> int {
    if solid {
        1
    } else {
        0
    }
}

/// Marching-squares case of a cell from its corners: bit 0 = bottom-left,
/// bit 1 = bottom-right, bit 2 = top-right, bit 3 = top-left (1 = solid).
pub open spec fn case_of(bl: bool, br: bool, tr: bool, tl: bool) -> int {
    bit(bl) + 2 * bit(br) + 4 * bit(tr) + 8 * bit(tl)
}

/// Compute the marching-squares case of a cell from which of its four
/// corners are solid (density above the iso level).
pub fn cell_config(bl: bool, br: bool, tr: bool, tl: bool) -> (config: u8)
    ensures
        config == case_of(bl, br, tr, tl),
        config < 16,
{
    let b0: u8 = if bl {
        1
    } else {
        0
    };
    let b1: u8 = if br {
        1
    } else {
        0
    };
    let b2: u8 = if tr {
        1
    } else {
        0
    };
    let b3: u8 = if tl {
        1
    } else {
        0
    };
    let config = b0 | (b1 << 1) | (b2 << 2) | (b3 << 3);
    assert(config == b0 + 2 * b1 + 4 * b2 + 8 * b3) by (bit_vector)
        requires
            b0 <= 1,
            b1 <= 1,
            b2 <= 1,
            b3 <= 1,
            config == b0 | (b1 << 1) | (b2 << 2) | (b3 << 3),
    ;
    config
}

/// Triangle vertex indices of every marching-squares case, three per
/// triangle, counter-clockwise. Vertices 0..=3 are the bottom-left,
/// bottom-right, top-right and top-left corners; 4..=7 the points on the
/// bottom, right, top and left edges where the iso-contour crosses them.
pub open spec fn case_table(config: int) -> Seq<u32> {
    if config == 0 {
        seq![]
    } else if config == 1 {
        seq![0, 4, 7]
    } else if config == 2 {
        seq![4, 1, 5]
    } else if config == 3 {
        seq![0, 1, 5, 0, 5, 7]
    } else if config == 4 {
        seq![5, 2, 6]
    } else if config == 5 {
        seq![0, 4, 7, 5, 2, 6]
    } else if config == 6 {
        seq![4, 1, 2, 4, 2, 6]
    } else if config == 7 {
        seq![0, 1, 2, 0, 2, 6, 0, 6, 7]
    } else if config == 8 {
        seq![7, 6, 3]
    } else if config == 9 {
        seq![0, 4, 6, 0, 6, 3]
    } else if config == 10 {
        seq![4, 1, 5, 7, 6, 3]
    } else if config == 11 {
        seq![0, 1, 5, 0, 5, 6, 0, 6, 3]
    } else if config == 12 {
        seq![7, 5, 2, 7, 2, 3]
    } else if config == 13 {
        seq![0, 4, 5, 0, 5, 2, 0, 2, 3]
    } else if config == 14 {
        seq![4, 1, 2, 4, 2, 3, 4, 3, 7]
    } else {
        seq![0, 1, 2, 0, 2, 3]
    }
}

/// The triangle vertex indices for a marching-squares case.
pub fn case_triangles(config: u8) -> (tris: Vec<u32>)
    requires
        config < 16,
    ensures
        tris@ == case_table(config as int),
{
    let tris: Vec<u32> = match config {
        0 => vec![],
        1 => vec![0, 4, 7],
        2 => vec![4, 1, 5],
        3 => vec![0, 1, 5, 0, 5, 7],
        4 => vec![5, 2, 6],
        5 => vec![0, 4, 7, 5, 2, 6],
        6 => vec![4, 1, 2, 4, 2, 6],
        7 => vec![0, 1, 2, 0, 2, 6, 0, 6, 7],
        8 => vec![7, 6, 3],
        9 => vec![0, 4, 6, 0, 6, 3],
        10 => vec![4, 1, 5, 7, 6, 3],
        11 => vec![0, 1, 5, 0, 5, 6, 0, 6, 3],
        12 => vec![7, 5, 2, 7, 2, 3],
        13 => vec![0, 4, 5, 0, 5, 2, 0, 2, 3],
        14 => vec![4, 1, 2, 4, 2, 3, 4, 3, 7],
        _ => vec![0, 1, 2, 0, 2, 3],
    };
    proof {
        assert(tris@ =~= case_table(config as int));
    }
    tris
}

/// Vertex `v` occurs in the triangle list `t`.
pub open spec fn uses_vertex(t: Seq<u32>, v: u32) -> bool {
    exists|k: int| 0 <= k < t.len() && t[k] == v
}

/// The case table matches its bit layout: every case is whole triangles of
/// cell vertices; a corner is used exactly when it is solid; and an edge's
/// contour point is used exactly when the edge joins a solid and an open
/// corner, so vertices sit on the wall/open boundary.
pub proof fn lemma_case_table_geometry(bl: bool, br: bool, tr: bool, tl: bool)
    ensures
        ({
            let t = case_table(case_of(bl, br, tr, tl));
            &&& t.len() % 3 == 0
            &&& forall|k: int| 0 <= k < t.len() ==> t[k] < 8
            &&& uses_vertex(t, 0) == bl
            &&& uses_vertex(t, 1) == br
            &&& uses_vertex(t, 2) == tr
            &&& uses_vertex(t, 3) == tl
            &&& uses_vertex(t, 4) == (bl != br)
            &&& uses_vertex(t, 5) == (br != tr)
            &&& uses_vertex(t, 6) == (tl != tr)
            &&& uses_vertex(t, 7) == (bl != tl)
        }),
{
    let t = case_table(case_of(bl, br, tr, tl));
    assert(t.len() <= 9);
    assert forall|v: u32| v < 8 implies (uses_vertex(t, v) <==> (t.len() > 0 && t[0] == v) || (
    t.len() > 1 && t[1] == v) || (t.len() > 2 && t[2] == v) || (t.len() > 3 && t[3] == v) || (
    t.len() > 4 && t[4] == v) || (t.len() > 5 && t[5] == v) || (t.len() > 6 && t[6] == v) || (
    t.len() > 7 && t[7] == v) || (t.len() > 8 && t[8] == v)) by {
        if uses_vertex(t, v) {
            let k = choose|k: int| 0 <= k < t.len() && t[k] == v;
            assert(0 <= k < 9);
        }
    }
}

/// x coordinate of cell vertex `v` in half-cell units (0 = left edge,
/// 2 = right edge), in the vertex numbering of [`case_table`].
pub open spec fn vertex_x(v: u32) -> int {
    if v == 1 || v == 2 || v == 5 {
        2
    } else if v == 4 || v == 6 {
        1
    } else {
        0
    }
}

/// y coordinate of cell vertex `v` in half-cell units (0 = bottom edge,
/// 2 = top edge).
pub open spec fn vertex_y(v: u32) -> int {
    if v == 2 || v == 3 || v == 6 {
        2
    } else if v == 5 || v == 7 {
        1
    } else {
        0
    }
}

/// Twice the signed area of the triangle a, b, c: positive when it turns
/// counter-clockwise, zero when the points are collinear.
#[verifier::opaque]
pub open spec fn turn(a: u32, b: u32, c: u32) -> int {
    (vertex_x(b) - vertex_x(a)) * (vertex_y(c) - vertex_y(a)) - (vertex_y(b) - vertex_y(a)) * (
    vertex_x(c) - vertex_x(a))
}

/// Twice the signed area of triangle `j` of the list `t`.
pub open spec fn tri_area2(t: Seq<u32>, j: int) -> int {
    turn(t[3 * j], t[3 * j + 1], t[3 * j + 2])
}

/// Twice the total area of the first `n` triangles of `t`.
pub open spec fn area_sum(t: Seq<u32>, n: nat) -> int
    decreases n,
{
    if n == 0 {
        0
    } else {
        area_sum(t, (n - 1) as nat) + tri_area2(t, n - 1)
    }
}

/// Every vertex of triangle `j` lies on or outside edge `e` of triangle `i`
/// (the edge from its vertex `e` to the next one), so the two cannot overlap.
pub open spec fn outside_edge(t: Seq<u32>, i: int, e: int, j: int) -> bool {
    let a = t[3 * i + e];
    let b = t[3 * i + (e + 1) % 3];
    &&& turn(a, b, t[3 * j]) <= 0
    &&& turn(a, b, t[3 * j + 1]) <= 0
    &&& turn(a, b, t[3 * j + 2]) <= 0
}

/// Triangles `i` and `j` of `t` have disjoint interiors: an edge of one of
/// them separates the two.
pub open spec fn separated(t: Seq<u32>, i: int, j: int) -> bool {
    ||| outside_edge(t, i, 0, j)
    ||| outside_edge(t, i, 1, j)
    ||| outside_edge(t, i, 2, j)
    ||| outside_edge(t, j, 0, i)
    ||| outside_edge(t, j, 1, i)
    ||| outside_edge(t, j, 2, i)
}

/// The two solid corners of the cell are diagonally opposite.
pub open spec fn saddle(bl: bool, br: bool, tr: bool, tl: bool) -> bool {
    bl == tr && br == tl && bl != br
}

/// The cell boundary walked counter-clockwise from the bottom-left corner,
/// keeping the solid corners and the midpoints of the edges whose two
/// corners differ: the corners of the solid part of the cell.
pub open spec fn boundary_walk(bl: bool, br: bool, tr: bool, tl: bool) -> Seq<u32> {
    let s0: Seq<u32> = if bl { seq![0u32] } else { seq![] };
    let s1 = if bl != br { s0.push(4) } else { s0 };
    let s2 = if br { s1.push(1) } else { s1 };
    let s3 = if br != tr { s2.push(5) } else { s2 };
    let s4 = if tr { s3.push(2) } else { s3 };
    let s5 = if tr != tl { s4.push(6) } else { s4 };
    let s6 = if tl { s5.push(3) } else { s5 };
    if tl != bl { s6.push(7) } else { s6 }
}

/// Twice the signed area of the first `k` edges' shoelace terms of polygon `p`.
pub open spec fn shoelace(p: Seq<u32>, k: nat) -> int
    decreases k,
{
    if k == 0 {
        0
    } else {
        let a = p[k - 1];
        let b = p[(k as int) % (p.len() as int)];
        shoelace(p, (k - 1) as nat) + vertex_x(a) * vertex_y(b) - vertex_x(b) * vertex_y(a)
    }
}

/// Polygon `p` is convex and counter-clockwise: it never turns right.
pub open spec fn convex_ccw(p: Seq<u32>) -> bool {
    forall|m: int|
        0 <= m < p.len() ==> turn(
            p[m],
            #[trigger] p[(m + 1) % (p.len() as int)],
            p[(m + 2) % (p.len() as int)],
        ) >= 0
}

/// Corner `c` (0 bottom-left, 1 bottom-right, 2 top-right, 3 top-left) is solid.
pub open spec fn corner_solid(bl: bool, br: bool, tr: bool, tl: bool, c: int) -> bool {
    if c == 0 {
        bl
    } else if c == 1 {
        br
    } else if c == 2 {
        tr
    } else {
        tl
    }
}

/// Vertex `v` is a corner of the solid part of the cell: a solid cell corner,
/// or the midpoint of an edge whose two corners differ (edge `e` runs from
/// corner `e` to corner `e + 1`, counter-clockwise).
pub open spec fn solid_part_vertex(bl: bool, br: bool, tr: bool, tl: bool, v: u32) -> bool {
    if v < 4 {
        corner_solid(bl, br, tr, tl, v as int)
    } else if v < 8 {
        corner_solid(bl, br, tr, tl, v - 4) != corner_solid(bl, br, tr, tl, (v - 3) % 4)
    } else {
        false
    }
}

/// Which piece of the cell's solid part vertex `v` belongs to, or -1 when it
/// is not a corner of the solid part. Away from saddles the solid part is one
/// convex polygon (piece 0); at a saddle the two solid corners stay apart, and
/// each, with the midpoints of its two edges, is a piece of its own, numbered
/// by the corner.
pub open spec fn piece_of(bl: bool, br: bool, tr: bool, tl: bool, v: u32) -> int {
    if !solid_part_vertex(bl, br, tr, tl, v) {
        -1
    } else if !saddle(bl, br, tr, tl) {
        0
    } else if v < 4 {
        v as int
    } else if corner_solid(bl, br, tr, tl, v - 4) {
        v - 4
    } else {
        (v - 3) % 4
    }
}

/// Twice the area of the cell's solid part: the boundary polygon away from
/// saddles; at a saddle, the two corner triangles.
pub open spec fn solid_area2(bl: bool, br: bool, tr: bool, tl: bool) -> int {
    if saddle(bl, br, tr, tl) {
        2
    } else {
        let p = boundary_walk(bl, br, tr, tl);
        shoelace(p, p.len())
    }
}

/// Triangle `j` of `t` is counter-clockwise and all its corners lie in one
/// piece of the solid part.
spec fn triangle_fits(bl: bool, br: bool, tr: bool, tl: bool, t: Seq<u32>, j: int) -> bool {
    &&& tri_area2(t, j) > 0
    &&& piece_of(bl, br, tr, tl, t[3 * j]) >= 0
    &&& piece_of(bl, br, tr, tl, t[3 * j + 1]) == piece_of(bl, br, tr, tl, t[3 * j])
    &&& piece_of(bl, br, tr, tl, t[3 * j + 2]) == piece_of(bl, br, tr, tl, t[3 * j])
}

/// Polygon `p` turns left at its vertex `m + 1`.
spec fn left_turn_at(p: Seq<u32>, m: int) -> bool {
    turn(p[m], p[(m + 1) % (p.len() as int)], p[(m + 2) % (p.len() as int)]) >= 0
}

/// The tiling facts of a triangle list `t` for the cell whose solid part has
/// boundary `p`, written out for at most three triangles.
spec fn tiling_facts(bl: bool, br: bool, tr: bool, tl: bool, t: Seq<u32>, p: Seq<u32>) -> bool {
    let n = t.len() / 3;
    &&& t.len() == 3 * n
    &&& n <= 3
    &&& n > 0 ==> triangle_fits(bl, br, tr, tl, t, 0)
    &&& n > 1 ==> triangle_fits(bl, br, tr, tl, t, 1)
    &&& n > 2 ==> triangle_fits(bl, br, tr, tl, t, 2)
    &&& n > 1 ==> separated(t, 0, 1)
    &&& n > 2 ==> separated(t, 0, 2) && separated(t, 1, 2)
    &&& area_sum(t, n as nat) == solid_area2(bl, br, tr, tl)
    &&& !saddle(bl, br, tr, tl) ==> p.len() <= 5 && (forall|m: int|
        0 <= m < p.len() ==> #[trigger] left_turn_at(p, m))
}

/// Every case, checked one by one.
proof fn lemma_tiling_facts_all(bl: bool, br: bool, tr: bool, tl: bool) by (nonlinear_arith)
    ensures
        tiling_facts(bl, br, tr, tl, case_table(case_of(bl, br, tr, tl)), boundary_walk(bl, br, tr, tl)),
{
    reveal(turn);
    reveal_with_fuel(area_sum, 4);
    reveal_with_fuel(shoelace, 9);
    assert(tiling_facts(false, false, false, false, case_table(case_of(false, false, false, false)), boundary_walk(false, false, false, false)));
    assert(tiling_facts(true, false, false, false, case_table(case_of(true, false, false, false)), boundary_walk(true, false, false, false)));
    assert(tiling_facts(false, true, false, false, case_table(case_of(false, true, false, false)), boundary_walk(false, true, false, false)));
    assert(tiling_facts(true, true, false, false, case_table(case_of(true, true, false, false)), boundary_walk(true, true, false, false)));
    assert(tiling_facts(false, false, true, false, case_table(case_of(false, false, true, false)), boundary_walk(false, false, true, false)));
    assert(tiling_facts(true, false, true, false, case_table(case_of(true, false, true, false)), boundary_walk(true, false, true, false)));
    assert(tiling_facts(false, true, true, false, case_table(case_of(false, true, true, false)), boundary_walk(false, true, true, false)));
    assert(tiling_facts(true, true, true, false, case_table(case_of(true, true, true, false)), boundary_walk(true, true, true, false)));
    assert(tiling_facts(false, false, false, true, case_table(case_of(false, false, false, true)), boundary_walk(false, false, false, true)));
    assert(tiling_facts(true, false, false, true, case_table(case_of(true, false, false, true)), boundary_walk(true, false, false, true)));
    assert(tiling_facts(false, true, false, true, case_table(case_of(false, true, false, true)), boundary_walk(false, true, false, true)));
    assert(tiling_facts(true, true, false, true, case_table(case_of(true, true, false, true)), boundary_walk(true, true, false, true)));
    assert(tiling_facts(false, false, true, true, case_table(case_of(false, false, true, true)), boundary_walk(false, false, true, true)));
    assert(tiling_facts(true, false, true, true, case_table(case_of(true, false, true, true)), boundary_walk(true, false, true, true)));
    assert(tiling_facts(false, true, true, true, case_table(case_of(false, true, true, true)), boundary_walk(false, true, true, true)));
    assert(tiling_facts(true, true, true, true, case_table(case_of(true, true, true, true)), boundary_walk(true, true, true, true)));
}

/// The written-out tiling facts give the quantified ones.
#[verifier::rlimit(100)]
proof fn lemma_tiling_from_facts(
    bl: bool,
    br: bool,
    tr: bool,
    tl: bool,
    t: Seq<u32>,
    p: Seq<u32>,
)
    requires
        tiling_facts(bl, br, tr, tl, t, p),
    ensures
        ({
            let n = t.len() / 3;
            &&& t.len() % 3 == 0
            &&& forall|j: int| 0 <= j < n ==> #[trigger] tri_area2(t, j) > 0
            &&& forall|j: int, m: int|
                0 <= j < n && 0 <= m < 3 ==> piece_of(bl, br, tr, tl, #[trigger] t[3 * j + m])
                    == piece_of(bl, br, tr, tl, t[3 * j]) && piece_of(bl, br, tr, tl, t[3 * j])
                    >= 0
            &&& forall|i: int, j: int|
                0 <= i < n && 0 <= j < n && i != j ==> #[trigger] separated(t, i, j)
            &&& area_sum(t, n as nat) == solid_area2(bl, br, tr, tl)
            &&& !saddle(bl, br, tr, tl) ==> convex_ccw(p)
        }),
{
    let n = t.len() / 3;
    assert forall|j: int| 0 <= j < n implies #[trigger] tri_area2(t, j) > 0 by {
        if j == 0 {
            assert(triangle_fits(bl, br, tr, tl, t, 0));
        } else if j == 1 {
            assert(triangle_fits(bl, br, tr, tl, t, 1));
        } else {
            assert(triangle_fits(bl, br, tr, tl, t, 2));
        }
    }
    assert forall|j: int, m: int|
        0 <= j < n && 0 <= m < 3 implies piece_of(bl, br, tr, tl, #[trigger] t[3 * j + m])
            == piece_of(bl, br, tr, tl, t[3 * j]) && piece_of(bl, br, tr, tl, t[3 * j]) >= 0 by {
        if j == 0 {
            assert(triangle_fits(bl, br, tr, tl, t, 0));
        } else if j == 1 {
            assert(triangle_fits(bl, br, tr, tl, t, 1));
        } else {
            assert(triangle_fits(bl, br, tr, tl, t, 2));
        }
        if m == 0 {
            assert(3 * j + m == 3 * j);
        } else if m == 1 {
            assert(3 * j + m == 3 * j + 1);
        } else {
            assert(3 * j + m == 3 * j + 2);
        }
    }
    assert forall|i: int, j: int| 0 <= i < n && 0 <= j < n && i != j implies #[trigger] separated(
        t,
        i,
        j,
    ) by {
        if i > j {
            assert(separated(t, j, i));
        } else {
            assert(separated(t, i, j));
        }
    }
    if !saddle(bl, br, tr, tl) {
        assert forall|m: int| 0 <= m < p.len() implies turn(
            p[m],
            #[trigger] p[(m + 1) % (p.len() as int)],
            p[(m + 2) % (p.len() as int)],
        ) >= 0 by {
            assert(left_turn_at(p, m));
        }
    }
}


/// The triangles of every case tile the solid part of the cell exactly:
/// each is a non-degenerate counter-clockwise triangle whose corners all lie
/// in one convex piece of the solid part (so the triangle lies inside it), no
/// two overlap, and together their area is the area of the solid part. Away
/// from saddles the solid part is the convex polygon of the solid corners and
/// the crossed-edge midpoints; at a saddle the two solid corners are cut off
/// separately.
pub proof fn lemma_case_table_tiles_solid_part(bl: bool, br: bool, tr: bool, tl: bool)
    ensures
        ({
            let t = case_table(case_of(bl, br, tr, tl));
            let n = t.len() / 3;
            &&& t.len() % 3 == 0
            &&& forall|j: int| 0 <= j < n ==> #[trigger] tri_area2(t, j) > 0
            &&& forall|j: int, m: int|
                0 <= j < n && 0 <= m < 3 ==> piece_of(bl, br, tr, tl, #[trigger] t[3 * j + m])
                    == piece_of(bl, br, tr, tl, t[3 * j]) && piece_of(bl, br, tr, tl, t[3 * j])
                    >= 0
            &&& forall|i: int, j: int|
                0 <= i < n && 0 <= j < n && i != j ==> #[trigger] separated(t, i, j)
            &&& area_sum(t, n as nat) == solid_area2(bl, br, tr, tl)
            &&& !saddle(bl, br, tr, tl) ==> convex_ccw(boundary_walk(bl, br, tr, tl))
        }),
{
    lemma_tiling_facts_all(bl, br, tr, tl);
    lemma_tiling_from_facts(
        bl,
        br,
        tr,
        tl,
        case_table(case_of(bl, br, tr, tl)),
        boundary_walk(bl, br, tr, tl),
    );
}

} // verus!
