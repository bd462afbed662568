use crate::grid::Maze;
use crate::tile::Tile;
use vstd::prelude::*;
use vstd::string::StringExecFns;

verus! {

impl Maze {
    /// How the cell `i` is drawn: the goal as `G`, the start as `S`, a wall as
    /// two blanks in reverse video, a path as two blanks.
    pub open spec fn cell_text(&self, i: int) -> Seq<char> {
        if i == self.goal_position {
            "G "@
        } else if i == self.start_position {
            "S "@
        } else if self.tiles@[i] == Tile::Wall {
            "\x1b[7m  \x1b[0m"@
        } else {
            "  "@
        }
    }

    /// The drawing of the first `n` cells, row by row, with a line break
    /// after each full row.
    pub open spec fn picture(&self, n: nat) -> Seq<char>
        decreases n,
    {
        if n == 0 {
            Seq::empty()
        } else {
            let cell = self.cell_text(n - 1);
            let row_end = if n % (self.width as nat) == 0 {
                "\n"@
            } else {
                Seq::empty()
            };
            self.picture((n - 1) as nat) + cell + row_end
        }
    }

    /// Draws the maze as text.
    pub fn render(&self) -> (output: String)
        requires
            self.width > 0 || self.tiles@.len() == 0,
        ensures
            output@ == self.picture(self.tiles@.len()),
    {
        let mut output = String::new();
        let mut i: usize = 0;
        while i < self.tiles.len()
            invariant
                self.width > 0 || self.tiles@.len() == 0,
                i <= self.tiles@.len(),
                output@ == self.picture(i as nat),
            decreases self.tiles@.len() - i,
        {
            let ghost before = output@;
            if i == self.goal_position {
                output.append("G ");
            } else if i == self.start_position {
                output.append("S ");
            } else {
                let c = match self.tiles[i] {
                    Tile::Wall => "\x1b[7m  \x1b[0m",
                    Tile::Path => "  ",
                };
                output.append(c);
            }
            assert(output@ == before + self.cell_text(i as int));
            if (i + 1) % self.width == 0 {
                output.append("\n");
            } else {
                assert(output@ + Seq::<char>::empty() =~= output@);
            }
            i += 1;
        }
        output
    }
}

} // verus!
