//! Axis-aligned rectangles in world units.

use vstd::prelude::*;

verus! {

/// A rectangle of world space: its lower corner and its size.
#[derive(Clone, Copy, Debug, PartialEq, Eq, Structural)]
pub struct Bounds2 {
    pub x: i64,
    pub y: i64,
    pub width: i64,
    pub height: i64,
}

impl Bounds2 {
    /// The point `(px, py)` lies in the rectangle (lower edges included,
    /// upper edges excluded).
    pub open spec fn contains_spec(&self, px: int, py: int) -> bool {
        &&& self.x <= px < self.x + self.width
        &&& self.y <= py < self.y + self.height
    }

    /// The bounds of a grid of `columns` x `rows` tiles of `tile_size` units each,
    /// centered on the world origin and then moved by `(offset_x, offset_y)`.
    pub fn centered(columns: u16, rows: u16, tile_size: i64, offset_x: i64, offset_y: i64) -> (r: Bounds2)
        requires
            0 <= tile_size <= 0x1_0000_0000,
            -0x1000_0000_0000_0000 <= offset_x <= 0x1000_0000_0000_0000,
            -0x1000_0000_0000_0000 <= offset_y <= 0x1000_0000_0000_0000,
        ensures
            r.width == columns * tile_size,
            r.height == rows * tile_size,
            r.x == offset_x - (columns * tile_size) / 2,
            r.y == offset_y - (rows * tile_size) / 2,
    {
        assert(columns * tile_size <= 0xffff * 0x1_0000_0000) by (nonlinear_arith)
            requires
                columns <= 0xffff,
                0 <= tile_size <= 0x1_0000_0000,
        ;
        assert(rows * tile_size <= 0xffff * 0x1_0000_0000) by (nonlinear_arith)
            requires
                rows <= 0xffff,
                0 <= tile_size <= 0x1_0000_0000,
        ;
        assert(0 <= columns * tile_size) by (nonlinear_arith)
            requires
                0 <= tile_size,
        ;
        assert(0 <= rows * tile_size) by (nonlinear_arith)
            requires
                0 <= tile_size,
        ;
        let width: i64 = columns as i64 * tile_size;
        let height: i64 = rows as i64 * tile_size;
        Bounds2 { x: offset_x - width / 2, y: offset_y - height / 2, width, height }
    }

    /// Whether the point `(px, py)` lies in the rectangle.
    pub fn is_bounds(&self, px: i64, py: i64) -> (r: bool)
        ensures
            r == self.contains_spec(px as int, py as int),
    {
        let px = px as i128;
        let py = py as i128;
        self.x as i128 <= px && px < self.x as i128 + self.width as i128 && self.y as i128 <= py
            && py < self.y as i128 + self.height as i128
    }
}

} // verus!
