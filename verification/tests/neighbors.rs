use maze_solver::{Maze, Tile};

fn grid() -> Maze {
    // 0 1 0 0
    // 0 0 1 0
    // 1 0 0 0
    Maze::decode("w4h3s0g11#010000101000").unwrap()
}

#[test]
fn get_neighbors_in_the_middle() {
    let maze = grid();
    assert_eq!(
        maze.get_neighbors(5),
        [Some(Tile::Wall), Some(Tile::Path), Some(Tile::Path), Some(Tile::Wall)]
    );
    assert_eq!(
        maze.get_neighbors(6),
        [Some(Tile::Path), Some(Tile::Path), Some(Tile::Path), Some(Tile::Path)]
    );
}

#[test]
fn get_neighbors_at_the_corners() {
    let maze = grid();
    assert_eq!(maze.get_neighbors(0), [None, Some(Tile::Path), None, Some(Tile::Wall)]);
    assert_eq!(maze.get_neighbors(3), [None, Some(Tile::Path), Some(Tile::Path), None]);
    assert_eq!(maze.get_neighbors(8), [Some(Tile::Path), None, None, Some(Tile::Path)]);
    assert_eq!(maze.get_neighbors(11), [Some(Tile::Path), None, Some(Tile::Path), None]);
}

#[test]
fn get_neighbors_at_the_edges() {
    let maze = grid();
    assert_eq!(
        maze.get_neighbors(1),
        [None, Some(Tile::Path), Some(Tile::Path), Some(Tile::Path)]
    );
    assert_eq!(
        maze.get_neighbors(4),
        [Some(Tile::Path), Some(Tile::Wall), None, Some(Tile::Path)]
    );
    assert_eq!(
        maze.get_neighbors(7),
        [Some(Tile::Path), Some(Tile::Path), Some(Tile::Wall), None]
    );
}

#[test]
fn get_neighbors_of_a_single_cell_and_a_single_row() {
    let maze = Maze::decode("w1h1s0g0#0").unwrap();
    assert_eq!(maze.get_neighbors(0), [None, None, None, None]);
    let maze = Maze::decode("w3h1s0g2#010").unwrap();
    assert_eq!(maze.get_neighbors(1), [None, None, Some(Tile::Path), Some(Tile::Path)]);
    let maze = Maze::decode("w1h3s0g2#010").unwrap();
    assert_eq!(maze.get_neighbors(1), [Some(Tile::Path), Some(Tile::Path), None, None]);
}

#[test]
fn neighbor_index_follows_the_four_directions() {
    let maze = grid();
    assert_eq!(maze.neighbor_index(5, 0), 1);
    assert_eq!(maze.neighbor_index(5, 1), 9);
    assert_eq!(maze.neighbor_index(5, 2), 4);
    assert_eq!(maze.neighbor_index(5, 3), 6);
}

#[test]
fn get_tile_coord_is_column_then_row() {
    let maze = grid();
    assert_eq!(maze.get_tile_coord(0), (0, 0));
    assert_eq!(maze.get_tile_coord(3), (3, 0));
    assert_eq!(maze.get_tile_coord(4), (0, 1));
    assert_eq!(maze.get_tile_coord(6), (2, 1));
    assert_eq!(maze.get_tile_coord(11), (3, 2));
    assert_eq!(maze.get_tile_coord(13), (1, 3));
}

#[test]
fn get_tile_index_is_row_times_width_plus_column() {
    let maze = grid();
    assert_eq!(maze.get_tile_index((0, 0)), 0);
    assert_eq!(maze.get_tile_index((2, 1)), 6);
    assert_eq!(maze.get_tile_index((3, 2)), 11);
    assert_eq!(maze.get_tile_index((1, 3)), 13);
}

#[test]
fn coordinates_and_indices_are_inverse() {
    let maze = grid();
    for index in 0..12usize {
        assert_eq!(maze.get_tile_index(maze.get_tile_coord(index)), index);
    }
}
