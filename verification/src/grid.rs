use crate::layout::Layout;
use crate::tile::Tile;
use vstd::prelude::*;

verus! {

/// A rectangular maze with a start, a goal and a table of distances to the goal.
///
/// A maze can be written as a string such as
///
/// `w5h5s10g0#0000011101000011010100100`
///
/// which is a maze of width 5 and height 5 that starts at index 10 and has its
/// goal at index 0. The tiles follow the `#`, row by row: `1` is a wall and
/// `0` a path.
pub struct Maze {
    pub width: usize,
    pub height: usize,
    pub start_position: usize,
    pub goal_position: usize,
    pub tiles: Vec<Tile>,
    /// Hops to the goal, cell by cell; `None` where no distance is known.
    pub distances: Vec<Option<u32>>,
}

impl Maze {
    /// The grid of this maze and its goal.
    pub open spec fn layout(&self) -> Layout {
        Layout {
            width: self.width as int,
            height: self.height as int,
            goal: self.goal_position as int,
            tiles: self.tiles@,
        }
    }

    /// The grid has a positive width and height and one tile per cell.
    pub open spec fn has_grid(&self) -> bool {
        &&& self.width > 0
        &&& self.height > 0
        &&& self.tiles@.len() == self.width * self.height
    }

    /// Column and row of the cell `index`.
    pub fn get_tile_coord(&self, index: usize) -> (coord: (usize, usize))
        requires
            self.width > 0,
        ensures
            coord.0 == index % self.width,
            coord.1 == index / self.width,
            coord.1 * self.width + coord.0 == index,
    {
        proof {
            vstd::arithmetic::div_mod::lemma_fundamental_div_mod(index as int, self.width as int);
            vstd::arithmetic::mul::lemma_mul_is_commutative(
                self.width as int,
                index as int / self.width as int,
            );
        }
        (index % self.width, index / self.width)
    }

    /// Index of the cell in column `coord.0` of row `coord.1`.
    pub fn get_tile_index(&self, coord: (usize, usize)) -> (index: usize)
        requires
            coord.1 * self.width + coord.0 <= usize::MAX,
        ensures
            index == coord.1 * self.width + coord.0,
    {
        assert(coord.1 * self.width <= usize::MAX) by (nonlinear_arith)
            requires
                coord.1 * self.width + coord.0 <= usize::MAX,
        ;
        coord.1 * self.width + coord.0
    }

    /// The index of the cell next to `index` in direction `dir`, where there is one.
    pub fn neighbor_index(&self, index: usize, dir: usize) -> (n: usize)
        requires
            self.has_grid(),
            self.layout().in_grid(index as int),
            dir < 4,
            self.layout().neighbor(index as int, dir as int) is Some,
        ensures
            self.layout().neighbor(index as int, dir as int) == Some(n as int),
            self.layout().in_grid(n as int),
    {
        proof {
            self.layout().lemma_neighbor(index as int, dir as int);
            assert(self.tiles@.len() == self.tiles.len());
        }
        if dir == 0 {
            index - self.width
        } else if dir == 1 {
            index + self.width
        } else if dir == 2 {
            index - 1
        } else {
            index + 1
        }
    }

    /// The four tiles around `index`, north, south, west, east; `None` where
    /// the grid ends.
    pub fn get_neighbors(&self, index: usize) -> (neighbors: [Option<Tile>; 4])
        requires
            self.has_grid(),
            self.layout().in_grid(index as int),
        ensures
            forall|dir: int|
                0 <= dir < 4 ==> #[trigger] neighbors@[dir] == self.layout().neighbor_tile(
                    index as int,
                    dir,
                ),
    {
        proof {
            self.layout().lemma_neighbor(index as int, 0);
            self.layout().lemma_neighbor(index as int, 1);
            self.layout().lemma_neighbor(index as int, 2);
            self.layout().lemma_neighbor(index as int, 3);
            assert(self.tiles@.len() == self.tiles.len());
        }
        let (x, y) = self.get_tile_coord(index);
        let west = if x != 0 {
            Some(self.tiles[index - 1])
        } else {
            None
        };
        let east = if x != self.width - 1 {
            Some(self.tiles[index + 1])
        } else {
            None
        };
        let north = if y != 0 {
            Some(self.tiles[index - self.width])
        } else {
            None
        };
        let south = if y != self.height - 1 {
            Some(self.tiles[index + self.width])
        } else {
            None
        };
        [north, south, west, east]
    }
}

} // verus!
