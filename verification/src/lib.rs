//! A grid maze: its textual description, the shortest hop distances from the
//! goal to every cell, and a shortest route from the start to the goal.
//!
//! The grid is four-connected and every hop costs the same. A maze is read
//! with [`Maze::decode`], its distance table is filled with
//! [`Maze::flood_fill`], and [`Maze::solve`] then walks the table down from
//! the start to the goal.

/// Reading a maze from its description.
pub mod decode;
/// Why a description is rejected.
pub mod error;
/// Filling the distance table.
pub mod fill;
/// What a description says, character by character.
pub mod format;
/// The maze and the cells around a cell.
pub mod grid;
/// The grid as a mathematical object: cells, directions, neighbours.
pub mod layout;
/// Drawing a maze as text.
pub mod picture;
/// Walks from the goal, and the distances that they define.
pub mod reach;
/// The route from the start to the goal.
pub mod route;
/// Walls and paths.
pub mod tile;

pub use error::MazeParseError;
pub use grid::Maze;
pub use layout::Layout;
pub use tile::Tile;
