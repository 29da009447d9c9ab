use crate::maze::{step, Coord, Direction, MazeView};
use vstd::prelude::*;

verus! {

/// Where a walk stands that set out from `start` and has gone along `path`.
pub open spec fn walk_end(start: Coord, path: Seq<Coord>) -> Coord {
    if path.len() == 0 {
        start
    } else {
        path.last()
    }
}

/// The `n` coordinates that follow `c` in direction `d`, the nearest first.
pub open spec fn run(c: Coord, d: Direction, n: int) -> Seq<Coord> {
    Seq::new(
        n as nat,
        |i: int|
            match d {
                Direction::N => (c.0, c.1 - 1 - i),
                Direction::W => (c.0 - 1 - i, c.1),
                Direction::S => (c.0, c.1 + 1 + i),
                Direction::E => (c.0 + 1 + i, c.1),
            },
    )
}

/// The path from the last cell of the first row of a grid `width` cells wide over the rows
/// below it as far as row `y`: one step south, then west to the first cell of the row and
/// east to its last, row after row.
pub open spec fn sweep_rows(width: int, y: int) -> Seq<Coord>
    decreases y,
{
    if y <= 0 {
        Seq::empty()
    } else {
        sweep_rows(width, y - 1) + seq![(width - 1, y)] + run(
            (width - 1, y),
            Direction::W,
            width - 1,
        ) + run((0, y), Direction::E, width - 1)
    }
}

/// The path from `c` over the whole of a grid of `height` rows and `width` columns: west to
/// the first column, north to the first row, east along that row, and then over the rows
/// below.
pub open spec fn sweep_path(height: int, width: int, c: Coord) -> Seq<Coord> {
    run(c, Direction::W, c.0) + run((0, c.1), Direction::N, c.1) + run(
        (0, 0),
        Direction::E,
        width - 1,
    ) + sweep_rows(width, height - 1)
}

impl MazeView {
    /// This maze after a walk has stepped from `from` to `to`: the two are linked to one
    /// another if `to` had no link before, and nothing changes if it had.
    pub open spec fn stepped(self, from: Coord, to: Coord) -> MazeView {
        if self.has_links(to) {
            self
        } else {
            self.with_link_pair(from, to)
        }
    }

    /// This maze after a walk from `start` along `path`.
    pub open spec fn walked(self, start: Coord, path: Seq<Coord>) -> MazeView
        decreases path.len(),
    {
        if path.len() == 0 {
            self
        } else {
            self.walked(start, path.drop_last()).stepped(
                walk_end(start, path.drop_last()),
                path.last(),
            )
        }
    }

    /// The neighbour of `c` that the number `pick` stands for: of the neighbours of `c` the
    /// one at place `pick` modulo their number. A cell without neighbours has none.
    pub open spec fn picked_neighbour(self, c: Coord, pick: int) -> Option<Coord> {
        let around = self.neighbours(c);
        if around.len() == 0 {
            None
        } else {
            Some(around[pick % (around.len() as int)])
        }
    }

    /// The path of a walk from `start` that takes each of its steps to the neighbour that the
    /// next of `picks` stands for.
    pub open spec fn script_path(self, start: Coord, picks: Seq<usize>) -> Seq<Coord>
        decreases picks.len(),
    {
        if picks.len() == 0 {
            Seq::empty()
        } else {
            let before = self.script_path(start, picks.drop_last());
            match self.picked_neighbour(walk_end(start, before), picks.last() as int) {
                Some(to) => before.push(to),
                None => before,
            }
        }
    }

    /// The maze that a walk by script leaves on the grid of `height` rows and `width` columns:
    /// it sets out from the cell at place `start` modulo the number of cells, follows `picks`
    /// to their end, and then goes over the whole grid.
    pub open spec fn generated(height: int, width: int, start: int, picks: Seq<usize>) -> MazeView {
        let blank = MazeView::blank(height, width);
        let from = blank.cell_number(start % blank.size());
        let path = blank.script_path(from, picks);
        blank.walked(from, path + sweep_path(height, width, walk_end(from, path)))
    }
}

/// A walk that goes one step further leaves what it had left, stepped once more.
pub proof fn lemma_walked_push(v: MazeView, start: Coord, path: Seq<Coord>, to: Coord)
    ensures
        v.walked(start, path.push(to)) == v.walked(start, path).stepped(walk_end(start, path), to),
        walk_end(start, path.push(to)) == to,
{
    assert(path.push(to).drop_last() =~= path);
}

/// A run of one more step ends one step further on.
pub proof fn lemma_run_push(c: Coord, d: Direction, n: int)
    requires
        0 <= n,
    ensures
        run(c, d, n + 1) == run(c, d, n).push(step(walk_end(c, run(c, d, n)), d)),
{
}

} // verus!
