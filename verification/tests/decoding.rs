use maze_solver::{Maze, MazeParseError, Tile};
use std::str::FromStr;

const MAZE_STR: &str = "w7h7s7g41#1111111000010111101011000101101110110000001111111";

fn error_of(description: &str) -> MazeParseError {
    match Maze::decode(description) {
        Ok(_) => panic!("accepted: {}", description),
        Err(e) => e,
    }
}

#[test]
fn parse() {
    let maze = Maze::from_str(MAZE_STR).unwrap();
    assert_eq!(maze.width, 7);
    assert_eq!(maze.height, 7);
    assert_eq!(maze.start_position, 7);
    assert_eq!(maze.goal_position, 41);
    assert_eq!(maze.tiles[0], Tile::Wall);
    assert_eq!(maze.tiles[7], Tile::Path);
}

#[test]
fn decode_reads_the_example() {
    let maze = Maze::decode("w5h5s10g0#0000011101000011010100100").unwrap();
    assert_eq!(maze.width, 5);
    assert_eq!(maze.height, 5);
    assert_eq!(maze.start_position, 10);
    assert_eq!(maze.goal_position, 0);
    assert_eq!(maze.tiles.len(), 25);
    assert_eq!(maze.tiles[0], Tile::Path);
    assert_eq!(maze.tiles[7], Tile::Wall);
    assert!(maze.distances.is_empty());
}

#[test]
fn decode_maps_characters_to_tiles_in_order() {
    let maze = Maze::decode("w3h2s0g5#010011").unwrap();
    assert_eq!(
        maze.tiles,
        vec![Tile::Path, Tile::Wall, Tile::Path, Tile::Path, Tile::Wall, Tile::Wall]
    );
}

#[test]
fn decode_reads_numbers_of_several_digits_and_leading_zeros() {
    let maze = Maze::decode("w012h01s11g007#010101010101").unwrap();
    assert_eq!(maze.width, 12);
    assert_eq!(maze.height, 1);
    assert_eq!(maze.start_position, 11);
    assert_eq!(maze.goal_position, 7);
}

#[test]
fn decode_takes_positions_outside_the_grid() {
    let maze = Maze::decode("w2h1s5g9#00").unwrap();
    assert_eq!(maze.start_position, 5);
    assert_eq!(maze.goal_position, 9);
}

#[test]
fn from_str_agrees_with_decode() {
    assert_eq!(Maze::from_str("w2h1s0g1#0").err(), Some(MazeParseError::InvalidSize));
    assert_eq!(Maze::from_str("w2h1s0g1#").err(), Some(MazeParseError::UnexpectedEnding));
    assert_eq!(Maze::from_str("w2h1s0g1#0x").err(), Some(MazeParseError::InvalidToken));
    let maze = "w2h1s0g1#01".parse::<Maze>().unwrap();
    assert_eq!(maze.tiles, vec![Tile::Path, Tile::Wall]);
}

#[test]
fn decode_fails_when_the_description_ends_at_the_hash() {
    assert_eq!(error_of("w5h5s10g0#"), MazeParseError::UnexpectedEnding);
    assert_eq!(error_of("#"), MazeParseError::UnexpectedEnding);
    assert_eq!(error_of("xyz#"), MazeParseError::UnexpectedEnding);
    assert_eq!(error_of("w0h0s0g0#"), MazeParseError::UnexpectedEnding);
}

#[test]
fn decode_looks_at_the_first_hash_only() {
    assert_eq!(error_of("w1h1s0g0#0#"), MazeParseError::InvalidToken);
    assert_eq!(error_of("w1#h1#"), MazeParseError::InvalidToken);
}

#[test]
fn decode_fails_on_a_tile_run_of_the_wrong_length() {
    assert_eq!(error_of("w5h5s10g0#000001110100001101010010"), MazeParseError::InvalidSize);
    assert_eq!(error_of("w5h5s10g0#00000111010000110101001000"), MazeParseError::InvalidSize);
    assert_eq!(error_of("w0h3s0g0#0"), MazeParseError::InvalidSize);
    assert_eq!(error_of("w3h0s0g0#000"), MazeParseError::InvalidSize);
}

#[test]
fn decode_fails_on_a_size_beyond_the_word() {
    assert_eq!(
        error_of("w18446744073709551615h18446744073709551615s0g0#0"),
        MazeParseError::InvalidSize
    );
}

#[test]
fn decode_fails_on_a_tile_character_other_than_zero_and_one() {
    assert_eq!(error_of("w2h2s0g3#0020"), MazeParseError::InvalidToken);
    assert_eq!(error_of("w2h2s0g3#00a0"), MazeParseError::InvalidToken);
    assert_eq!(error_of("w2h2s0g3#000 "), MazeParseError::InvalidToken);
    assert_eq!(error_of("w2h2s0g3#00\u{661}0"), MazeParseError::InvalidToken);
}

#[test]
fn decode_names_a_tile_character_before_the_size() {
    assert_eq!(error_of("w2h2s0g3#00x"), MazeParseError::InvalidToken);
    assert_eq!(error_of("w2h2s0g3#00000x"), MazeParseError::InvalidToken);
}

#[test]
fn decode_fails_on_a_wrong_marker() {
    assert_eq!(error_of("x2h2s0g3#0000"), MazeParseError::InvalidToken);
    assert_eq!(error_of("w2x2s0g3#0000"), MazeParseError::InvalidToken);
    assert_eq!(error_of("w2h2x0g3#0000"), MazeParseError::InvalidToken);
    assert_eq!(error_of("w2h2s0x3#0000"), MazeParseError::InvalidToken);
    assert_eq!(error_of("W2h2s0g3#0000"), MazeParseError::InvalidToken);
    assert_eq!(error_of("ww2h2s0g3#0000"), MazeParseError::InvalidToken);
    assert_eq!(error_of("h2w2s0g3#0000"), MazeParseError::InvalidToken);
}

#[test]
fn decode_fails_on_a_number_that_is_none() {
    assert_eq!(error_of("wh2s0g3#0000"), MazeParseError::InvalidToken);
    assert_eq!(error_of("w2h2s0g#0000"), MazeParseError::InvalidToken);
    assert_eq!(error_of("w+2h2s0g3#0000"), MazeParseError::InvalidToken);
    assert_eq!(error_of("w-2h2s0g3#0000"), MazeParseError::InvalidToken);
    assert_eq!(error_of("w2 h2s0g3#0000"), MazeParseError::InvalidToken);
    assert_eq!(error_of("w2h2s0g3 #0000"), MazeParseError::InvalidToken);
    assert_eq!(error_of("w\u{662}h2s0g3#0000"), MazeParseError::InvalidToken);
    assert_eq!(error_of("w2\u{2167}h2s0g3#0000"), MazeParseError::InvalidToken);
}

#[test]
fn decode_fails_on_a_number_beyond_the_word() {
    assert_eq!(
        error_of("w99999999999999999999999999h2s0g3#0000"),
        MazeParseError::InvalidToken
    );
    assert_eq!(
        error_of("w2h2s0g340282366920938463463374607431768211456#0000"),
        MazeParseError::InvalidToken
    );
}

#[test]
fn decode_fails_without_a_hash() {
    assert_eq!(error_of(""), MazeParseError::InvalidToken);
    assert_eq!(error_of("w2h2s0g3"), MazeParseError::InvalidToken);
    assert_eq!(error_of("w2h2s0g30000"), MazeParseError::InvalidToken);
    assert_eq!(error_of("w2h2"), MazeParseError::InvalidToken);
}

#[test]
fn decode_fails_on_what_follows_the_header() {
    assert_eq!(error_of("w2h2s0g3x5#0000"), MazeParseError::InvalidToken);
    assert_eq!(error_of("w2h2s0#0000"), MazeParseError::InvalidToken);
}

#[test]
fn tile_parse_reads_zero_and_one() {
    assert_eq!(Tile::parse('0'), Ok(Tile::Path));
    assert_eq!(Tile::parse('1'), Ok(Tile::Wall));
    assert_eq!(Tile::parse('2'), Err(MazeParseError::InvalidToken));
    assert_eq!(Tile::parse('#'), Err(MazeParseError::InvalidToken));
    assert_eq!(Tile::parse(' '), Err(MazeParseError::InvalidToken));
}
