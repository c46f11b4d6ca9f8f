//! Rule engine of a Minesweeper board: bomb placement and adjacency counts,
//! covered / marked tile state, and the reveal cascade.

pub mod board;
pub mod bounds;
pub mod components;
pub mod count;
pub mod events;
pub mod coordinates;
pub mod error;
pub mod tile;
pub mod tile_map;

pub use board::{Board, RevealedTile, UncoverReport};
pub use bounds::Bounds2;
pub use components::{Bomb, BombNeighbor, Uncover};
pub use coordinates::Coordinates;
pub use error::BoardError;
pub use events::{BoardCompletedEvent, BombExplosionEvent, TileMarkEvent, TileTriggerEvent};
pub use tile::Tile;
pub use tile_map::TileMap;
