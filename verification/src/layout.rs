use crate::tile::Tile;
use vstd::prelude::*;

verus! {

/// The mathematical content of a maze apart from its distance table: a grid
/// stored row by row, so that the cell in column `x` of row `y` has the index
/// `y * width + x`, and the cell that distances are counted from.
pub struct Layout {
    pub width: int,
    pub height: int,
    pub goal: int,
    pub tiles: Seq<Tile>,
}

impl Layout {
    /// The grid has a positive width and height, one tile per cell, and the
    /// goal is one of its cells.
    pub open spec fn wf(self) -> bool {
        &&& self.width > 0
        &&& self.height > 0
        &&& self.tiles.len() == self.width * self.height
        &&& self.in_grid(self.goal)
    }

    /// `i` is the index of a cell.
    pub open spec fn in_grid(self, i: int) -> bool {
        0 <= i < self.tiles.len()
    }

    /// The index of the cell next to `i` in direction `dir` (0 north, 1 south,
    /// 2 west, 3 east), or `None` where the grid ends.
    pub open spec fn neighbor(self, i: int, dir: int) -> Option<int> {
        let x = i % self.width;
        let y = i / self.width;
        if dir == 0 {
            if y != 0 {
                Some(i - self.width)
            } else {
                None
            }
        } else if dir == 1 {
            if y != self.height - 1 {
                Some(i + self.width)
            } else {
                None
            }
        } else if dir == 2 {
            if x != 0 {
                Some(i - 1)
            } else {
                None
            }
        } else if dir == 3 {
            if x != self.width - 1 {
                Some(i + 1)
            } else {
                None
            }
        } else {
            None
        }
    }

    /// The tile next to `i` in direction `dir`, wall or path alike.
    pub open spec fn neighbor_tile(self, i: int, dir: int) -> Option<Tile> {
        match self.neighbor(i, dir) {
            Some(n) => Some(self.tiles[n]),
            None => None,
        }
    }

    /// The direction that leads back: north and south swap, west and east swap.
    pub open spec fn opposite(dir: int) -> int {
        if dir == 0 {
            1
        } else if dir == 1 {
            0
        } else if dir == 2 {
            3
        } else {
            2
        }
    }

    /// `b` is one of the up to four cells around `a`.
    pub open spec fn adjacent(self, a: int, b: int) -> bool {
        ||| self.neighbor(a, 0) == Some(b)
        ||| self.neighbor(a, 1) == Some(b)
        ||| self.neighbor(a, 2) == Some(b)
        ||| self.neighbor(a, 3) == Some(b)
    }

    /// Row and column of a cell lie inside the grid.
    pub proof fn lemma_coord_in_grid(self, i: int)
        requires
            self.width > 0,
            self.tiles.len() == self.width * self.height,
            self.in_grid(i),
        ensures
            i == self.width * (i / self.width) + i % self.width,
            0 <= i % self.width < self.width,
            0 <= i / self.width < self.height,
    {
        let w = self.width;
        let h = self.height;
        vstd::arithmetic::div_mod::lemma_fundamental_div_mod(i, w);
        vstd::arithmetic::div_mod::lemma_mod_pos_bound(i, w);
        let y = i / w;
        assert(0 <= y < h) by (nonlinear_arith)
            requires
                0 <= i < w * h,
                i == w * y + i % w,
                0 <= i % w < w,
                w > 0,
        ;
    }

    /// Every neighbour of a cell is another cell, and from there the opposite
    /// direction leads back.
    pub proof fn lemma_neighbor(self, i: int, dir: int)
        requires
            self.width > 0,
            self.tiles.len() == self.width * self.height,
            self.in_grid(i),
            0 <= dir < 4,
        ensures
            match self.neighbor(i, dir) {
                Some(n) => self.in_grid(n) && n != i && self.neighbor(n, Self::opposite(dir))
                    == Some(i),
                None => true,
            },
    {
        let w = self.width;
        let h = self.height;
        let x = i % w;
        let y = i / w;
        self.lemma_coord_in_grid(i);
        if self.neighbor(i, dir) is Some {
            let n = self.neighbor(i, dir)->0;
            let (nx, ny) = if dir == 0 {
                (x, y - 1)
            } else if dir == 1 {
                (x, y + 1)
            } else if dir == 2 {
                (x - 1, y)
            } else {
                (x + 1, y)
            };
            let dy = ny - y;
            assert(w * dy == if dy == 0 {
                0
            } else if dy == 1 {
                w
            } else {
                -w
            }) by (nonlinear_arith)
                requires
                    -1 <= dy <= 1,
            ;
            assert(n == w * ny + nx && 0 <= n < w * h) by (nonlinear_arith)
                requires
                    i == w * y + x,
                    n - i == w * dy + (nx - x),
                    dy == ny - y,
                    0 <= nx < w,
                    0 <= ny < h,
            ;
            vstd::arithmetic::div_mod::lemma_fundamental_div_mod_converse(n, w, ny, nx);
        }
    }
}

} // verus!
