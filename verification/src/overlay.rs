use vstd::prelude::*;

use crate::config::{cell_index, GRID_CELLS, GRID_H, GRID_W};
use crate::grid::adjacent;

verus! {

/// Byte offset of the RGBA pixel that shows grid cell (gx, gy) in the
/// pheromone overlay texture. Texture row 0 is the top of the screen while
/// grid row 0 is the bottom, so rows are flipped.
pub open spec fn pixel_base(gx: int, gy: int) -> int {
    ((GRID_H - 1 - gy) * GRID_W + gx) * 4
}

/// Byte offset of the overlay pixel for grid cell (gx, gy).
pub fn texture_pixel_base(gx: usize, gy: usize) -> (base: usize)
    requires
        gx < GRID_W,
        gy < GRID_H,
    ensures
        base == pixel_base(gx as int, gy as int),
        base + 4 <= GRID_CELLS * 4,
{
    let tex_row = GRID_H - 1 - gy;
    (tex_row * GRID_W + gx) * 4
}

/// Distinct grid cells own disjoint 4-byte pixels of the overlay texture,
/// all inside it.
pub proof fn lemma_pixels_disjoint(gx: int, gy: int, hx: int, hy: int)
    requires
        0 <= gx < GRID_W,
        0 <= gy < GRID_H,
        0 <= hx < GRID_W,
        0 <= hy < GRID_H,
        gx != hx || gy != hy,
    ensures
        pixel_base(gx, gy) + 4 <= pixel_base(hx, hy) || pixel_base(hx, hy) + 4 <= pixel_base(
            gx,
            gy,
        ),
        0 <= pixel_base(gx, gy),
        pixel_base(gx, gy) + 4 <= GRID_CELLS * 4,
{
}

/// The overlay's RGBA encoding of one cell: red unused, green the food
/// intensity, blue the home intensity, alpha the stronger of the two.
pub fn overlay_pixel(food: u8, home: u8) -> (rgba: [u8; 4])
    ensures
        rgba@ == seq![0u8, food, home, if food >= home { food } else { home }],
{
    let alpha = if food >= home {
        food
    } else {
        home
    };
    let rgba = [0u8, food, home, alpha];
    proof {
        assert(rgba@ =~= seq![0u8, food, home, alpha]);
    }
    rgba
}

/// The four orthogonal neighbours that the diffusion blur averages for the
/// interior cell (x, y): below, above, left and right.
pub fn diffusion_neighbors(x: usize, y: usize) -> (n: [usize; 4])
    requires
        1 <= x < GRID_W - 1,
        1 <= y < GRID_H - 1,
    ensures
        n@ == seq![
            cell_index(x as int, y - 1) as usize,
            cell_index(x as int, y + 1) as usize,
            cell_index(x - 1, y as int) as usize,
            cell_index(x + 1, y as int) as usize,
        ],
        forall|k: int| 0 <= k < 4 ==> adjacent(cell_index(x as int, y as int), #[trigger] n@[k] as int),
{
    let n = [(y - 1) * GRID_W + x, (y + 1) * GRID_W + x, y * GRID_W + (x - 1), y * GRID_W + (x + 1)];
    proof {
        assert(n@ =~= seq![
            cell_index(x as int, y - 1) as usize,
            cell_index(x as int, y + 1) as usize,
            cell_index(x - 1, y as int) as usize,
            cell_index(x + 1, y as int) as usize,
        ]);
        assert((y * GRID_W + x) % (GRID_W as int) == x);
    }
    n
}

} // verus!
