//! Configurations and requests the board refuses.

use vstd::prelude::*;

verus! {

#[derive(Clone, Copy, Debug, PartialEq, Eq, Structural)]
pub enum BoardError {
    /// The grid would have no cell.
    EmptyGrid,
    /// A safe start was asked for, but no tile is `Empty`.
    NoSafeStart,
}

} // verus!
