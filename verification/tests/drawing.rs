use maze_solver::Maze;

const WALL: &str = "\x1b[7m  \x1b[0m";

#[test]
fn render_marks_start_goal_walls_and_rows() {
    let maze = Maze::decode("w2h2s0g3#0110").unwrap();
    let expected = format!("S {}\n{}G \n", WALL, WALL);
    assert_eq!(maze.render(), expected);
}

#[test]
fn render_draws_paths_as_blanks() {
    let maze = Maze::decode("w3h1s0g2#000").unwrap();
    assert_eq!(maze.render(), "S   G \n");
}

#[test]
fn render_puts_the_goal_over_the_start() {
    let maze = Maze::decode("w2h1s1g1#10").unwrap();
    assert_eq!(maze.render(), format!("{}G \n", WALL));
}

#[test]
fn render_leaves_out_marks_outside_the_grid() {
    let maze = Maze::decode("w1h2s7g9#01").unwrap();
    assert_eq!(maze.render(), format!("  \n{}\n", WALL));
}

#[test]
fn render_does_not_depend_on_the_distances() {
    let mut maze = Maze::decode("w2h2s0g3#0110").unwrap();
    let before = maze.render();
    maze.flood_fill();
    assert_eq!(maze.render(), before);
}
