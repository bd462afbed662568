use crate::error::MazeParseError;
use crate::format::{
    decimal, describe, digits_end, field, is_digit, lemma_decimal_grows, lemma_described_grid,
    lemma_digits_end, lemma_digits_end_bound, stops_at_hash, tiles_of, Description,
};
use crate::grid::Maze;
use crate::tile::Tile;
use vstd::prelude::*;

verus! {

/// Reads the digits that begin at `at`: their number and where they end, or
/// `None` where there is no digit or the number does not fit.
fn read_number(chars: &Vec<char>, at: usize) -> (r: Option<(usize, usize)>)
    requires
        at <= chars@.len(),
    ensures
        match r {
            Some((value, end)) => end == digits_end(chars@, at as int) && end > at && value
                == decimal(chars@.subrange(at as int, end as int)),
            None => digits_end(chars@, at as int) == at || decimal(
                chars@.subrange(at as int, digits_end(chars@, at as int)),
            ) > usize::MAX,
        },
        match r {
            Some((_, end)) => forall|k: int| at <= k < end ==> is_digit(#[trigger] chars@[k]),
            None => true,
        },
{
    let mut value: usize = 0;
    let mut i: usize = at;
    proof {
        lemma_digits_end_bound(chars@, at as int);
    }
    while i < chars.len() && '0' <= chars[i] && chars[i] <= '9'
        invariant
            at <= i <= chars@.len(),
            forall|k: int| at <= k < i ==> is_digit(#[trigger] chars@[k]),
            value == decimal(chars@.subrange(at as int, i as int)),
        decreases chars@.len() - i,
    {
        let digit: usize = (chars[i] as u32 - '0' as u32) as usize;
        proof {
            assert(chars@.subrange(at as int, i + 1).drop_last() =~= chars@.subrange(
                at as int,
                i as int,
            ));
            lemma_digits_end(chars@, at as int, i + 1);
            lemma_decimal_grows(chars@, at as int, i + 1, digits_end(chars@, at as int));
        }
        let scaled = match value.checked_mul(10) {
            Some(v) => v,
            None => {
                return None;
            },
        };
        value = match scaled.checked_add(digit) {
            Some(v) => v,
            None => {
                return None;
            },
        };
        i += 1;
    }
    proof {
        lemma_digits_end(chars@, at as int, i as int);
    }
    if i == at {
        None
    } else {
        Some((value, i))
    }
}

/// Reads one field of the header at `at`.
fn read_field(chars: &Vec<char>, at: usize, marker: char) -> (r: Option<(usize, usize)>)
    requires
        at <= chars@.len(),
    ensures
        match (r, field(chars@, at as int, marker)) {
            (Some((value, end)), Some((v, e))) => value == v && end == e && at < end
                <= chars@.len(),
            (None, None) => true,
            _ => false,
        },
        match r {
            Some((_, end)) => chars@[at as int] == marker && forall|k: int|
                at < k < end ==> is_digit(#[trigger] chars@[k]),
            None => true,
        },
{
    if at >= chars.len() || chars[at] != marker {
        return None;
    }
    proof {
        lemma_digits_end_bound(chars@, at + 1);
    }
    read_number(chars, at + 1)
}

/// Whether the first `#` is the last character.
fn first_hash_is_last(chars: &Vec<char>) -> (r: bool)
    ensures
        r == stops_at_hash(chars@),
{
    let mut i: usize = 0;
    while i < chars.len()
        invariant
            i <= chars@.len(),
            forall|k: int| 0 <= k < i ==> chars@[k] != '#',
        decreases chars@.len() - i,
    {
        if chars[i] == '#' {
            return i + 1 == chars.len();
        }
        i += 1;
    }
    false
}

/// Reads the tile characters from `at` to the end.
fn read_tiles(chars: &Vec<char>, at: usize) -> (r: Option<Vec<Tile>>)
    requires
        at <= chars@.len(),
    ensures
        match (r, tiles_of(chars@.subrange(at as int, chars@.len() as int))) {
            (Some(tiles), Some(t)) => tiles@ == t,
            (None, None) => true,
            _ => false,
        },
{
    let ghost run = chars@.subrange(at as int, chars@.len() as int);
    let mut tiles: Vec<Tile> = Vec::new();
    let mut i: usize = at;
    while i < chars.len()
        invariant
            at <= i <= chars@.len(),
            run == chars@.subrange(at as int, chars@.len() as int),
            tiles@.len() == i - at,
            forall|k: int| 0 <= k < i - at ==> Tile::of_char(#[trigger] run[k]) == Some(tiles@[k]),
        decreases chars@.len() - i,
    {
        match Tile::parse(chars[i]) {
            Ok(tile) => {
                tiles.push(tile);
            },
            Err(_) => {
                assert(Tile::of_char(run[i - at]) is None);
                return None;
            },
        }
        i += 1;
    }
    assert(tiles@ =~= tiles_of(run)->0);
    Some(tiles)
}

/// The characters of a string, in order.
fn chars_of(s: &str) -> (chars: Vec<char>)
    ensures
        chars@ == s@,
{
    let mut chars: Vec<char> = Vec::new();
    for c in it: s.chars()
        invariant
            it.seq() == s@,
            chars@ == s@.take(it.index() as int),
    {
        chars.push(c);
    }
    chars
}

impl Maze {
    /// This maze holds what `d` says, and no distances yet.
    pub open spec fn is_described_by(&self, d: Description) -> bool {
        &&& self.width == d.width
        &&& self.height == d.height
        &&& self.start_position == d.start
        &&& self.goal_position == d.goal
        &&& self.tiles@ == d.tiles
        &&& self.distances@.len() == 0
    }

    /// Reads a maze from its description `w<W>h<H>s<S>g<G>#<tiles>`, in which
    /// `'0'` is a path tile and `'1'` a wall.
    pub fn decode(s: &str) -> (r: Result<Maze, MazeParseError>)
        ensures
            match (r, describe(s@)) {
                (Ok(maze), Ok(d)) => maze.is_described_by(d) && maze.has_grid(),
                (Err(e), Err(f)) => e == f,
                _ => false,
            },
    {
        let chars = chars_of(s);
        if first_hash_is_last(&chars) {
            return Err(MazeParseError::UnexpectedEnding);
        }
        let (width, a) = match read_field(&chars, 0, 'w') {
            Some(f) => f,
            None => {
                return Err(MazeParseError::InvalidToken);
            },
        };
        let (height, b) = match read_field(&chars, a, 'h') {
            Some(f) => f,
            None => {
                return Err(MazeParseError::InvalidToken);
            },
        };
        let (start, c) = match read_field(&chars, b, 's') {
            Some(f) => f,
            None => {
                return Err(MazeParseError::InvalidToken);
            },
        };
        let (goal, d) = match read_field(&chars, c, 'g') {
            Some(f) => f,
            None => {
                return Err(MazeParseError::InvalidToken);
            },
        };
        if d >= chars.len() || chars[d] != '#' {
            return Err(MazeParseError::InvalidToken);
        }
        let tiles = match read_tiles(&chars, d + 1) {
            Some(t) => t,
            None => {
                return Err(MazeParseError::InvalidToken);
            },
        };
        let fits = match width.checked_mul(height) {
            Some(cells) => cells == tiles.len(),
            None => false,
        };
        if !fits {
            return Err(MazeParseError::InvalidSize);
        }
        proof {
            lemma_described_grid(s@);
        }
        Ok(
            Maze {
                width,
                height,
                start_position: start,
                goal_position: goal,
                tiles,
                distances: Vec::new(),
            },
        )
    }
}

impl std::str::FromStr for Maze {
    type Err = MazeParseError;

    /// Reads a maze from its description, as [`Maze::decode`] does.
    fn from_str(s: &str) -> (r: Result<Maze, MazeParseError>)
        ensures
            match (r, describe(s@)) {
                (Ok(maze), Ok(d)) => maze.is_described_by(d) && maze.has_grid(),
                (Err(e), Err(f)) => e == f,
                _ => false,
            },
    {
        Maze::decode(s)
    }
}

} // verus!
