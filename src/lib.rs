//! Board logic for a minesweeper-style tile game: grid generation, neighbour
//! counting, flag toggling, flood-fill uncovering and completion detection.

pub mod app_state;
pub mod board;
pub mod board_options;
pub mod bounds;
pub mod coordinates;
pub mod error;
pub mod grid_index;
pub mod tile;
pub mod tile_map;

pub use app_state::AppState;
pub use board::{Board, GameStatus, RevealOutcome};
pub use board_options::{adaptative_tile_size, create_board, BoardOptions, BoardPosition, BoardSetup, TileSize};
pub use bounds::{Bounds, Point, Point3};
pub use coordinates::Coordinates;
pub use error::BoardError;
pub use tile::{decimal, BombNeighbour, Hue, Tile};
pub use tile_map::TileMap;
