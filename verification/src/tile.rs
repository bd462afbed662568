use crate::error::MazeParseError;
use vstd::prelude::*;

verus! {

/// One cell of the grid.
#[derive(Debug, Clone, Copy, PartialEq, Eq, Structural)]
pub enum Tile {
    /// A blocking cell.
    Wall,
    /// A cell that can be walked on.
    Path,
}

impl Tile {
    /// What a tile character stands for: `'0'` is a path, `'1'` a wall, anything else nothing.
    pub open spec fn of_char(c: char) -> Option<Tile> {
        if c == '0' {
            Some(Tile::Path)
        } else if c == '1' {
            Some(Tile::Wall)
        } else {
            None
        }
    }

    /// Reads one tile character.
    pub fn parse(c: char) -> (r: Result<Tile, MazeParseError>)
        ensures
            r == match Tile::of_char(c) {
                Some(t) => Ok::<Tile, MazeParseError>(t),
                None => Err::<Tile, MazeParseError>(MazeParseError::InvalidToken),
            },
    {
        match c {
            '0' => Ok(Tile::Path),
            '1' => Ok(Tile::Wall),
            _ => Err(MazeParseError::InvalidToken),
        }
    }
}

} // verus!
