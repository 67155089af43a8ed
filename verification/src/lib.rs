//! The game of Minesweeper on a grid of thirty by sixteen tiles with
//! ninety-nine mines: laying out the mines, numbering the tiles, revealing
//! with its cascade, flagging, revealing around a number, and telling when a
//! game is won or lost. Every function is verified against a model of the
//! grid as rows of tiles.

pub mod board;
pub mod cascade;
pub mod chord;
pub mod flood;
pub mod generate;
pub mod grid;
pub mod interact;
pub mod laws;
pub mod marks;
pub mod random;
pub mod shared;
pub mod status;
pub mod tile;

pub use board::Board;
pub use shared::BoardState;
pub use tile::{Bomb, CurrentGame, Point, Tile, BOMBS, DELTAS, HEIGHT, WIDTH};
