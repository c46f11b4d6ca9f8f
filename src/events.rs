//! What the board reports to the presentation layer, and what it is asked to do.

use vstd::prelude::*;

use crate::coordinates::Coordinates;

verus! {

/// A request to uncover the tile at the given coordinates.
#[derive(Clone, Copy, Debug, PartialEq, Eq, Structural)]
pub struct TileTriggerEvent(pub Coordinates);

/// Every safe tile has been uncovered.
#[derive(Clone, Copy, Debug, PartialEq, Eq, Structural)]
pub struct BoardCompletedEvent;

/// A bomb has been uncovered.
#[derive(Clone, Copy, Debug, PartialEq, Eq, Structural)]
pub struct BombExplosionEvent;

/// A request to put or take away the flag on the tile at the given coordinates.
#[derive(Clone, Copy, Debug, PartialEq, Eq, Structural)]
pub struct TileMarkEvent(pub Coordinates);

} // verus!
