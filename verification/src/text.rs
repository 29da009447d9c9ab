use crate::maze::{Cell, Direction, Maze, MazeView};
use vstd::prelude::*;
use vstd::string::StringExecFns;

verus! {

impl MazeView {
    /// The line above the first row, as far as its first `n` cells: a corner, then for each cell
    /// a closed side and a corner.
    pub open spec fn border(n: int) -> Seq<char>
        decreases n,
    {
        if n <= 0 {
            "+"@
        } else {
            Self::border(n - 1) + "---+"@
        }
    }

    /// The line that shows the first `n` cells of row `y`: the outer wall, then for each cell
    /// three blanks and its east side, open where the cell is linked to the east.
    pub open spec fn row_top(self, y: int, n: int) -> Seq<char>
        decreases n,
    {
        if n <= 0 {
            "|"@
        } else {
            self.row_top(y, n - 1) + "   "@ + if self.linked_towards((n - 1, y), Direction::E) {
                " "@
            } else {
                "|"@
            }
        }
    }

    /// The line below the first `n` cells of row `y`: a corner, then for each cell its south
    /// side, open where the cell is linked to the south, and a corner.
    pub open spec fn row_bottom(self, y: int, n: int) -> Seq<char>
        decreases n,
    {
        if n <= 0 {
            "+"@
        } else {
            self.row_bottom(y, n - 1) + (if self.linked_towards((n - 1, y), Direction::S) {
                "   "@
            } else {
                "---"@
            }) + "+"@
        }
    }

    /// The drawing as far as its first `m` rows: the line above the first row, then two lines
    /// for each row, every line ended by a line feed.
    pub open spec fn rows_text(self, m: int) -> Seq<char>
        decreases m,
    {
        if m <= 0 {
            Self::border(self.width) + "\n"@
        } else {
            self.rows_text(m - 1) + self.row_top(m - 1, self.width) + "\n"@ + self.row_bottom(
                m - 1,
                self.width,
            ) + "\n"@
        }
    }

    /// The maze drawn in characters.
    pub open spec fn text(self) -> Seq<char> {
        self.rows_text(self.height)
    }
}

impl Maze {
    /// The maze drawn in characters: a box for each cell, with the east and south sides left
    /// open where the cell is linked to the cell there.
    pub fn render(&self) -> (output: String)
        ensures
            output@ == self@.text(),
    {
        let mut output = "+".to_string();
        let mut n: usize = 0;
        while n < self.width
            invariant
                n <= self.width,
                output@ == MazeView::border(n as int),
            decreases self.width - n,
        {
            output.append("---+");
            n += 1;
        }
        output.append("\n");

        let mut y: usize = 0;
        while y < self.height
            invariant
                y <= self.height,
                output@ == self@.rows_text(y as int),
            decreases self.height - y,
        {
            let mut top = "|".to_string();
            let mut bottom = "+".to_string();

            let mut x: usize = 0;
            while x < self.width
                invariant
                    x <= self.width,
                    top@ == self@.row_top(y as int, x as int),
                    bottom@ == self@.row_bottom(y as int, x as int),
                decreases self.width - x,
            {
                let cell = Cell::new(x, y);
                top.append("   ");
                if self.is_linked(&cell, &Direction::E) {
                    top.append(" ");
                } else {
                    top.append("|");
                }

                if self.is_linked(&cell, &Direction::S) {
                    bottom.append("   ");
                } else {
                    bottom.append("---");
                }

                bottom.append("+");
                x += 1;
            }

            output.append(top.as_str());
            output.append("\n");
            output.append(bottom.as_str());
            output.append("\n");
            y += 1;
        }

        output
    }
}

} // verus!
