use vstd::prelude::*;

verus! {

/// Why a maze description was rejected.
#[derive(Debug, Clone, Copy, PartialEq, Eq, Structural)]
pub enum MazeParseError {
    /// A marker letter, a number or a tile character is not what the format asks for.
    InvalidToken,
    /// The number of tile characters is not width times height.
    InvalidSize,
    /// The description stops right after `#`.
    UnexpectedEnding,
}

} // verus!
