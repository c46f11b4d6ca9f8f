//! Grid addresses and the geometry of a width x height grid.

use vstd::prelude::*;

verus! {

/// Address of one cell of the grid, `x` along a row and `y` across rows.
#[derive(Clone, Copy, Debug, PartialEq, Eq, Structural, Hash, PartialOrd, Ord)]
pub struct Coordinates {
    pub x: u16,
    pub y: u16,
}

/// The cell `(x, y)` lies in a `w` x `h` grid.
pub open spec fn in_grid(w: int, h: int, x: int, y: int) -> bool {
    0 <= x < w && 0 <= y < h
}

/// Row-major position of the cell `(x, y)` in a grid `w` cells wide.
pub open spec fn cell_index(w: int, x: int, y: int) -> int {
    y * w + x
}

/// `b` is one of the up-to-eight cells around `a` in a `w` x `h` grid.
pub open spec fn is_neighbor(w: int, h: int, a: Coordinates, b: Coordinates) -> bool {
    &&& in_grid(w, h, b.x as int, b.y as int)
    &&& a != b
    &&& -1 <= b.x - a.x <= 1
    &&& -1 <= b.y - a.y <= 1
}

pub proof fn lemma_cell_index_bounds(w: int, h: int, x: int, y: int)
    requires
        in_grid(w, h, x, y),
    ensures
        0 <= cell_index(w, x, y) < w * h,
{
    assert(0 <= y * w + x < w * h) by (nonlinear_arith)
        requires
            0 <= x < w,
            0 <= y < h,
    ;
}

/// The cell at a row-major position is found back by division.
pub proof fn lemma_cell_of_index(w: int, x: int, y: int)
    requires
        0 <= x < w,
        0 <= y,
    ensures
        cell_index(w, x, y) % w == x,
        cell_index(w, x, y) / w == y,
{
    vstd::arithmetic::div_mod::lemma_fundamental_div_mod_converse_mod(y * w + x, w, y, x);
    vstd::arithmetic::div_mod::lemma_fundamental_div_mod_converse_div(y * w + x, w, y, x);
}

/// Distinct cells of a grid sit at distinct positions.
pub proof fn lemma_cell_index_injective(w: int, h: int, x1: int, y1: int, x2: int, y2: int)
    requires
        in_grid(w, h, x1, y1),
        in_grid(w, h, x2, y2),
        cell_index(w, x1, y1) == cell_index(w, x2, y2),
    ensures
        x1 == x2 && y1 == y2,
{
    if y1 < y2 {
        assert(y1 * w + x1 < y2 * w + x2) by (nonlinear_arith)
            requires
                0 <= x1 < w,
                0 <= x2,
                y1 < y2,
        ;
    } else if y2 < y1 {
        assert(y2 * w + x2 < y1 * w + x1) by (nonlinear_arith)
            requires
                0 <= x2 < w,
                0 <= x1,
                y2 < y1,
        ;
    }
}

} // verus!
