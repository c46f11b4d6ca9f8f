//! What a cell of the grid holds.

use vstd::prelude::*;

verus! {

/// Classification of one cell: no bomb around, a bomb, or a bomb count.
#[derive(Clone, Copy, Debug, PartialEq, Eq, Structural)]
pub enum Tile {
    Empty,
    Bomb,
    /// A safe cell with this many bombs (1 to 8) among its neighbors.
    BombNeighbor(u8),
}

/// The tile of a safe cell with `n` bombs around it.
pub open spec fn classify(n: int) -> Tile {
    if n == 0 {
        Tile::Empty
    } else {
        Tile::BombNeighbor(n as u8)
    }
}

impl Tile {
    pub fn is_bomb(&self) -> (r: bool)
        ensures
            r == (*self is Bomb),
    {
        matches!(self, Tile::Bomb)
    }

    pub fn is_empty(&self) -> (r: bool)
        ensures
            r == (*self is Empty),
    {
        matches!(self, Tile::Empty)
    }
}

} // verus!
