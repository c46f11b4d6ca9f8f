//! Per-tile markers handed to the presentation layer.

use vstd::prelude::*;

use crate::tile::Tile;

verus! {

/// The tile holds a bomb.
#[derive(Clone, Copy, Debug, PartialEq, Eq, Structural, Hash, PartialOrd, Ord)]
pub struct Bomb;

/// The tile is safe and has bombs around it.
#[derive(Clone, Copy, Debug, PartialEq, Eq, Structural, Hash, PartialOrd, Ord)]
pub struct BombNeighbor {
    /// Number of neighbor bombs
    pub count: u8,
}

/// The tile is to be uncovered.
#[derive(Clone, Copy, Debug, PartialEq, Eq, Structural, Hash, PartialOrd, Ord)]
pub struct Uncover;

impl Bomb {
    /// The marker of a bomb tile.
    pub fn of_tile(t: Tile) -> (r: Option<Bomb>)
        ensures
            r is Some <==> t is Bomb,
    {
        match t {
            Tile::Bomb => Some(Bomb),
            _ => None,
        }
    }
}

impl BombNeighbor {
    /// The marker of a tile with bombs around it, carrying their number.
    pub fn of_tile(t: Tile) -> (r: Option<BombNeighbor>)
        ensures
            r == match t {
                Tile::BombNeighbor(n) => Some(BombNeighbor { count: n }),
                _ => None,
            },
    {
        match t {
            Tile::BombNeighbor(n) => Some(BombNeighbor { count: n }),
            _ => None,
        }
    }
}

} // verus!
