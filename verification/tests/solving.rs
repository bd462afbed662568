use maze_solver::Maze;
use std::str::FromStr;

const MAZE_STR: &str = "w7h7s7g41#1111111000010111101011000101101110110000001111111";

fn filled(description: &str) -> Maze {
    let mut maze = Maze::decode(description).unwrap();
    maze.flood_fill();
    maze
}

#[test]
fn basic() {
    let mut maze = Maze::from_str(MAZE_STR).unwrap();
    maze.flood_fill();
    assert_eq!(
        &maze.solve().unwrap(),
        &[7, 8, 9, 10, 17, 24, 23, 22, 29, 36, 37, 38, 39, 40, 41,]
    );
}

#[test]
fn flood_fill_gives_hop_counts_around_a_wall() {
    let maze = filled("w3h3s0g8#000010000");
    assert_eq!(
        maze.distances,
        vec![
            Some(4),
            Some(3),
            Some(2),
            Some(3),
            None,
            Some(1),
            Some(2),
            Some(1),
            Some(0)
        ]
    );
}

#[test]
fn flood_fill_gives_the_shorter_of_two_ways() {
    // A ring around a wall: the long way round is found first or last, the
    // table holds the short one.
    let maze = filled("w4h3s0g1#000001100000");
    assert_eq!(
        maze.distances,
        vec![
            Some(1),
            Some(0),
            Some(1),
            Some(2),
            Some(2),
            None,
            None,
            Some(3),
            Some(3),
            Some(4),
            Some(5),
            Some(4)
        ]
    );
}

#[test]
fn flood_fill_on_an_open_grid_counts_rows_and_columns() {
    let maze = filled("w4h4s15g0#0000000000000000");
    for index in 0..16usize {
        let (x, y) = maze.get_tile_coord(index);
        assert_eq!(maze.distances[index], Some((x + y) as u32));
    }
}

#[test]
fn flood_fill_leaves_walls_and_cut_off_tiles_unknown() {
    let maze = filled("w5h1s0g4#00100");
    assert_eq!(maze.distances, vec![None, None, None, Some(1), Some(0)]);
}

#[test]
fn flood_fill_sets_the_goal_to_zero() {
    let maze = filled(MAZE_STR);
    assert_eq!(maze.distances[41], Some(0));
    assert_eq!(maze.distances.len(), 49);
}

#[test]
fn flood_fill_seeds_a_goal_on_a_wall() {
    let maze = filled("w3h1s0g2#001");
    assert_eq!(maze.distances, vec![Some(2), Some(1), Some(0)]);
}

#[test]
fn flood_fill_keeps_the_grid() {
    let maze = filled(MAZE_STR);
    let fresh = Maze::decode(MAZE_STR).unwrap();
    assert_eq!(maze.width, fresh.width);
    assert_eq!(maze.height, fresh.height);
    assert_eq!(maze.start_position, fresh.start_position);
    assert_eq!(maze.goal_position, fresh.goal_position);
    assert_eq!(maze.tiles, fresh.tiles);
}

#[test]
fn flood_fill_starts_from_a_blank_table() {
    let mut maze = filled("w3h1s0g2#000");
    maze.distances = vec![Some(9), None, Some(7)];
    maze.flood_fill();
    assert_eq!(maze.distances, vec![Some(2), Some(1), Some(0)]);
}

#[test]
fn solve_descends_by_one_at_each_step() {
    let maze = filled(MAZE_STR);
    let route = maze.solve().unwrap();
    assert_eq!(route[0], maze.start_position);
    assert_eq!(route[route.len() - 1], maze.goal_position);
    for k in 0..route.len() {
        assert_eq!(maze.distances[route[k]], Some((route.len() - 1 - k) as u32));
    }
    for k in 1..route.len() {
        let a = route[k - 1];
        let b = route[k];
        assert!(a + 1 == b || b + 1 == a || a + maze.width == b || b + maze.width == a);
    }
}

#[test]
fn solve_finds_no_route_between_separate_regions() {
    let maze = filled("w3h1s0g2#010");
    assert_eq!(maze.solve(), None);
    let maze = filled("w3h3s0g8#001011110");
    assert_eq!(maze.solve(), None);
}

#[test]
fn solve_finds_no_route_from_a_wall() {
    let maze = filled("w3h1s0g2#100");
    assert_eq!(maze.solve(), None);
}

#[test]
fn solve_from_the_goal_is_the_goal_alone() {
    let maze = filled("w3h1s1g1#000");
    assert_eq!(maze.solve(), Some(vec![1]));
    let maze = filled("w3h1s1g1#010");
    assert_eq!(maze.solve(), Some(vec![1]));
}

#[test]
fn solve_prefers_north_then_south_then_west_then_east() {
    // South and east are both one hop closer: south comes first.
    let maze = filled("w2h2s0g3#0000");
    assert_eq!(maze.solve(), Some(vec![0, 2, 3]));
    // North and west are both one hop closer: north comes first.
    let maze = filled("w2h2s3g0#0000");
    assert_eq!(maze.solve(), Some(vec![3, 1, 0]));
    // West and east are both one hop closer to the goal in the row above.
    let maze = filled("w3h2s4g1#000000");
    assert_eq!(maze.solve(), Some(vec![4, 1]));
    let maze = filled("w3h3s4g6#000000000");
    assert_eq!(maze.solve(), Some(vec![4, 7, 6]));
}

#[test]
fn solve_on_the_example_description() {
    let maze = filled("w5h5s10g0#0000011101000011010100100");
    assert_eq!(maze.distances[10], Some(8));
    assert_eq!(maze.distances[20], Some(10));
    assert_eq!(maze.distances[5], None);
    assert_eq!(maze.distances[24], Some(8));
    let route = maze.solve().unwrap();
    assert_eq!(route, vec![10, 11, 12, 13, 8, 3, 2, 1, 0]);
}

#[test]
fn filling_and_solving_again_gives_the_same() {
    let mut maze = Maze::decode(MAZE_STR).unwrap();
    maze.flood_fill();
    let first_table = maze.distances.clone();
    let first_route = maze.solve();
    maze.flood_fill();
    assert_eq!(maze.distances, first_table);
    assert_eq!(maze.solve(), first_route);
    maze.flood_fill();
    assert_eq!(maze.solve(), first_route);
    let other = filled(MAZE_STR);
    assert_eq!(other.distances, first_table);
    assert_eq!(other.solve(), first_route);
}
