use crate::maze::{
    adjacent, lemma_listed_cell_in_bounds, lemma_listing_fits, lemma_neighbours,
    lemma_neighbours_of_grid, Cell, Coord, Direction, Maze, MazeView,
};
use crate::tree::{
    lemma_grow, lemma_grown_seed, lemma_grown_spans, lemma_listing_count, place, Growth,
};
use crate::walk::{lemma_run_push, lemma_walked_push, run, sweep_path, sweep_rows, walk_end};
use rand::Rng;
use vstd::prelude::*;

verus! {

/// Why no maze was made.
#[derive(Debug, Clone, Copy, PartialEq, Eq, Structural)]
pub enum MazeError {
    /// The grid asked for has no rows or no columns.
    EmptyGrid,
}

/// Picks one of `cells` with `rand::Rng::choose`, called on the generator that
/// `rand::thread_rng` hands out. Of the cell picked the contract says only that it is one of
/// `cells`, and that none is picked where there is none; which one it is differs from call
/// to call. `thread_rng` panics on a machine that can give it no entropy.
#[verifier::external_body]
fn choose_cell(cells: &Vec<Cell>) -> (picked: Option<Cell>)
    ensures
        cells@.len() == 0 ==> picked is None,
        cells@.len() > 0 ==> picked is Some && cells@.contains(picked.unwrap()),
{
    rand::thread_rng().choose(cells).cloned()
}

/// A walk over the grid that links each cell to the cell it first reaches it from.
struct Walker {
    maze: Maze,
    /// Where the walk stands.
    cell: Cell,
    /// How many cells of the grid the walk has not reached yet.
    unvisited: usize,
    /// Where the walk set out.
    start: Ghost<Coord>,
    /// The cells that the walk has stepped to, one after the other.
    path: Ghost<Seq<Coord>>,
    /// The tree that the walk has grown so far.
    growth: Ghost<Growth>,
}

impl Walker {
    spec fn inv(&self) -> bool {
        &&& self.maze.wf()
        &&& self.maze@.grown_by(self.growth@)
        &&& self.growth@.order.contains(self.cell@)
        &&& self.unvisited == self.maze@.size() - self.growth@.order.len()
        &&& self.maze@ == MazeView::blank(self.maze.height as int, self.maze.width as int).walked(
            self.start@,
            self.path@,
        )
        &&& self.cell@ == walk_end(self.start@, self.path@)
    }

    /// Whether the walk has reached `c`.
    spec fn reached(&self, c: Coord) -> bool {
        self.growth@.order.contains(c)
    }

    /// Whether `later` is this walk some steps on.
    spec fn leads_to(&self, later: &Walker) -> bool {
        &&& later.maze.same_grid(&self.maze)
        &&& later.start@ == self.start@
        &&& forall|c: Coord| self.reached(c) ==> later.reached(c)
    }

    /// A walk that stands where it sets out: on `cell`, on a grid without links.
    fn set_out(maze: Maze, cell: Cell) -> (walker: Walker)
        requires
            maze.wf(),
            maze@ == MazeView::blank(maze.height as int, maze.width as int),
            maze@.in_bounds(cell@),
        ensures
            walker.inv(),
            walker.maze.same_grid(&maze),
            walker.cell == cell,
            walker.start@ == cell@,
            walker.path@ == Seq::<Coord>::empty(),
    {
        proof {
            lemma_listing_fits(&maze);
            lemma_grown_seed(maze@, cell@);
            assert(Growth::seed(cell@).order[0] == cell@);
            assert(maze.height * maze.width >= 1) by (nonlinear_arith)
                requires
                    maze.height >= 1,
                    maze.width >= 1,
            ;
        }
        let unvisited = maze.size() - 1;
        Walker {
            maze,
            cell,
            unvisited,
            start: Ghost(cell@),
            path: Ghost(Seq::empty()),
            growth: Ghost(Growth::seed(cell@)),
        }
    }

    /// Moves the walk to the neighbouring cell `to`, and links the two if the walk reaches `to`
    /// for the first time.
    fn step_to(&mut self, to: &Cell)
        requires
            old(self).inv(),
            old(self).maze@.in_bounds(to@),
            adjacent(old(self).cell@, to@),
        ensures
            final(self).inv(),
            final(self).cell == *to,
            final(self).path@ == old(self).path@.push(to@),
            old(self).leads_to(final(self)),
    {
        let ghost before = self.maze@;
        let ghost grown = self.growth@;
        let ghost from = place(grown, self.cell@);
        proof {
            lemma_walked_push(
                MazeView::blank(self.maze.height as int, self.maze.width as int),
                self.start@,
                self.path@,
                to@,
            );
        }
        let fresh = self.maze.visit(&self.cell, to);
        if fresh {
            proof {
                lemma_grow(before, grown, from, to@);
                lemma_listing_count(self.maze@, grown.with_cell(to@, from).order);
            }
            self.growth = Ghost(grown.with_cell(to@, from));
            self.unvisited -= 1;
            assert(self.growth@.order[grown.order.len() as int] == to@);
            assert forall|c: Coord| grown.order.contains(c) implies self.reached(c) by {
                let k = choose|k: int| 0 <= k < grown.order.len() && grown.order[k] == c;
                assert(self.growth@.order[k] == c);
            }
        }
        self.path = Ghost(self.path@.push(to@));
        self.cell = *to;
    }

    /// Moves the walk one step in `direction`, if the grid has a cell there.
    fn go(&mut self, direction: Direction)
        requires
            old(self).inv(),
        ensures
            final(self).inv(),
            old(self).leads_to(final(self)),
            match old(self).maze@.neighbour(old(self).cell@, direction) {
                Some(c) => final(self).cell@ == c && final(self).path@ == old(self).path@.push(c),
                None => final(self).cell@ == old(self).cell@ && final(self).path@ == old(
                    self,
                ).path@,
            },
    {
        let next: Option<Cell> = match self.maze.get_cell_in_direction(&self.cell, &direction) {
            Some(cell) => Some(*cell),
            None => None,
        };
        if let Some(to) = next {
            self.step_to(&to);
        }
    }

    /// Walks west to the first cell of the row.
    fn run_west(&mut self)
        requires
            old(self).inv(),
        ensures
            final(self).inv(),
            old(self).leads_to(final(self)),
            final(self).cell@ == (0int, old(self).cell@.1),
            final(self).path@ == old(self).path@ + run(
                old(self).cell@,
                Direction::W,
                old(self).cell@.0,
            ),
    {
        let ghost from = self.cell@;
        while self.cell.x > 0
            invariant
                self.inv(),
                old(self).leads_to(self),
                from == old(self).cell@,
                self.cell@.1 == from.1,
                self.cell@.0 <= from.0,
                self.path@ == old(self).path@ + run(from, Direction::W, from.0 - self.cell@.0),
            decreases self.cell.x,
        {
            let ghost gone = from.0 - self.cell@.0;
            self.go(Direction::W);
            proof {
                lemma_run_push(from, Direction::W, gone);
            }
        }
    }

    /// Walks north to the first cell of the column.
    fn run_north(&mut self)
        requires
            old(self).inv(),
        ensures
            final(self).inv(),
            old(self).leads_to(final(self)),
            final(self).cell@ == (old(self).cell@.0, 0int),
            final(self).path@ == old(self).path@ + run(
                old(self).cell@,
                Direction::N,
                old(self).cell@.1,
            ),
    {
        let ghost from = self.cell@;
        while self.cell.y > 0
            invariant
                self.inv(),
                old(self).leads_to(self),
                from == old(self).cell@,
                self.cell@.0 == from.0,
                self.cell@.1 <= from.1,
                self.path@ == old(self).path@ + run(from, Direction::N, from.1 - self.cell@.1),
            decreases self.cell.y,
        {
            let ghost gone = from.1 - self.cell@.1;
            self.go(Direction::N);
            proof {
                lemma_run_push(from, Direction::N, gone);
            }
        }
    }

    /// Walks from the first cell of a row east to its last, and so reaches every cell of it.
    fn run_east(&mut self)
        requires
            old(self).inv(),
            old(self).cell@.0 == 0,
        ensures
            final(self).inv(),
            old(self).leads_to(final(self)),
            final(self).cell@ == (final(self).maze.width - 1, old(self).cell@.1),
            final(self).path@ == old(self).path@ + run(
                old(self).cell@,
                Direction::E,
                old(self).maze.width - 1,
            ),
            forall|x: int|
                0 <= x < final(self).maze.width ==> final(self).reached((x, old(self).cell@.1)),
    {
        let ghost from = self.cell@;
        while self.cell.x + 1 < self.maze.width
            invariant
                self.inv(),
                old(self).leads_to(self),
                from == old(self).cell@,
                from.0 == 0,
                self.cell@.1 == from.1,
                self.cell.x < self.maze.width,
                self.path@ == old(self).path@ + run(from, Direction::E, self.cell@.0),
                forall|x: int| 0 <= x <= self.cell.x ==> self.reached((x, from.1)),
            decreases self.maze.width - self.cell.x,
        {
            let ghost gone = self.cell@.0;
            self.go(Direction::E);
            proof {
                lemma_run_push(from, Direction::E, gone);
            }
        }
    }

    /// Walks over the whole grid row by row, and so reaches every cell that the walk had not
    /// reached.
    fn sweep(&mut self)
        requires
            old(self).inv(),
        ensures
            final(self).inv(),
            old(self).leads_to(final(self)),
            final(self).unvisited == 0,
            final(self).path@ == old(self).path@ + sweep_path(
                old(self).maze.height as int,
                old(self).maze.width as int,
                old(self).cell@,
            ),
    {
        let ghost from = self.cell@;
        let ghost view = self.maze@;
        self.run_west();
        self.run_north();
        self.run_east();
        let ghost first_row = old(self).path@ + run(from, Direction::W, from.0) + run(
            (0, from.1),
            Direction::N,
            from.1,
        ) + run((0, 0), Direction::E, view.width - 1);
        while self.cell.y + 1 < self.maze.height
            invariant
                self.inv(),
                old(self).leads_to(self),
                view.height == self.maze.height,
                view.width == self.maze.width,
                self.cell.y < self.maze.height,
                self.cell@.0 == self.maze.width - 1,
                self.path@ == first_row + sweep_rows(view.width, self.cell@.1),
                forall|c: Coord| self.maze@.in_bounds(c) && c.1 <= self.cell.y ==> self.reached(c),
            decreases self.maze.height - self.cell.y,
        {
            let ghost y = self.cell@.1;
            self.go(Direction::S);
            self.run_west();
            self.run_east();
            proof {
                assert(self.path@ =~= first_row + (sweep_rows(view.width, y) + seq![
                    (view.width - 1, y + 1),
                ] + run((view.width - 1, y + 1), Direction::W, view.width - 1) + run(
                    (0, y + 1),
                    Direction::E,
                    view.width - 1,
                )));
            }
        }
        proof {
            assert forall|c: Coord| self.maze@.in_bounds(c) implies self.growth@.order.contains(
                c,
            ) by {
                assert(self.reached(c));
            }
            lemma_listing_count(self.maze@, self.growth@.order);
            assert(self.path@ =~= old(self).path@ + sweep_path(view.height, view.width, from));
        }
    }
}

impl Maze {
    /// One step of a walk from `cell` to `neighbour`: links the two to one another if nothing
    /// has been linked to `neighbour` yet, and says whether it did.
    pub fn visit(&mut self, cell: &Cell, neighbour: &Cell) -> (fresh: bool)
        ensures
            fresh == !old(self)@.has_links(neighbour@),
            final(self)@ == old(self)@.stepped(cell@, neighbour@),
            final(self).same_grid(old(self)),
            old(self)@.symmetric() ==> final(self)@.symmetric(),
    {
        if !self.has_links(neighbour) {
            self.link_cells(cell, neighbour);
            true
        } else {
            false
        }
    }

    /// One of the cells of the maze, picked at random.
    fn get_random_cell(&self) -> (cell: Cell)
        requires
            self.cells@.len() > 0,
        ensures
            self.cells@.contains(cell),
    {
        choose_cell(&self.cells).unwrap()
    }

    /// A maze of `height` rows and `width` columns whose passages form a spanning tree of the
    /// grid, grown by a random walk: from a cell picked at random the walk steps to a
    /// neighbour picked at random, again and again, and links each cell to the cell from which
    /// it first reaches it, until it has reached every cell.
    ///
    /// Such a walk reaches every cell with probability one, but no bound on its length holds
    /// for certain. So it is given `u64::MAX` steps, and should it ever use them up, it goes
    /// on over the whole grid row by row, as the walk of `generate_maze_from` does at the end
    /// of its script.
    pub fn generate_maze(height: usize, width: usize) -> (made: Result<Maze, MazeError>)
        requires
            height * width <= usize::MAX,
        ensures
            made is Err <==> height == 0 || width == 0,
            made matches Err(e) ==> e == MazeError::EmptyGrid,
            made matches Ok(maze) ==> maze.wf() && maze.height == height && maze.width == width
                && maze@.spanning_tree(),
    {
        if height == 0 || width == 0 {
            return Err(MazeError::EmptyGrid);
        }
        let maze = Maze::blank(height, width);
        assert(maze.cells@.len() > 0) by (nonlinear_arith)
            requires
                maze.cells@.len() == height * width,
                height > 0,
                width > 0,
        ;
        let cell = maze.get_random_cell();
        proof {
            let i = choose|i: int| 0 <= i < maze.cells@.len() && maze.cells@[i] == cell;
            lemma_listed_cell_in_bounds(&maze, i);
        }
        let mut walker = Walker::set_out(maze, cell);
        let mut steps: u64 = 0;
        while walker.unvisited > 0 && steps < u64::MAX
            invariant
                walker.inv(),
                walker.maze.height == height,
                walker.maze.width == width,
            decreases u64::MAX - steps,
        {
            let neighbours = walker.maze.get_cell_neighbours(&walker.cell);
            proof {
                lemma_neighbours(walker.maze@, walker.cell@);
            }
            let neighbour = choose_cell(&neighbours).unwrap();
            proof {
                let i = choose|i: int| 0 <= i < neighbours@.len() && neighbours@[i] == neighbour;
                assert(neighbours@.map_values(|c: Cell| c@)[i] == neighbour@);
            }
            walker.step_to(&neighbour);
            steps += 1;
        }
        if walker.unvisited > 0 {
            walker.sweep();
        }
        proof {
            lemma_grown_spans(walker.maze@, walker.growth@);
        }
        Ok(walker.maze)
    }

    /// The maze of `height` rows and `width` columns that a walk by script leaves: the same
    /// for the same script. The walk sets out from the cell at place `start` modulo the number
    /// of cells, where the cells are counted row by row. For each of `picks` in turn it steps
    /// to one of the neighbours of the cell it stands on, which are listed north, west, south,
    /// east: to the one at the place of the pick modulo their number. Like the random walk it
    /// links each cell to the cell from which it first reaches it. At the end of the script it
    /// goes west to the first column, north to the first row, and then over the grid row by
    /// row, so that it has reached every cell whatever the script was.
    pub fn generate_maze_from(
        height: usize,
        width: usize,
        start: usize,
        picks: &Vec<usize>,
    ) -> (made: Result<Maze, MazeError>)
        requires
            height * width <= usize::MAX,
        ensures
            made is Err <==> height == 0 || width == 0,
            made matches Err(e) ==> e == MazeError::EmptyGrid,
            made matches Ok(maze) ==> maze.wf() && maze.height == height && maze.width == width
                && maze@ == MazeView::generated(height as int, width as int, start as int, picks@)
                && maze@.spanning_tree(),
    {
        if height == 0 || width == 0 {
            return Err(MazeError::EmptyGrid);
        }
        let maze = Maze::blank(height, width);
        assert(maze.cells@.len() > 0) by (nonlinear_arith)
            requires
                maze.cells@.len() == height * width,
                height > 0,
                width > 0,
        ;
        let cell = maze.cells[start % maze.size()];
        let ghost blank = maze@;
        let ghost from = cell@;
        proof {
            lemma_listed_cell_in_bounds(&maze, start as int % maze@.size());
        }
        let mut walker = Walker::set_out(maze, cell);
        let mut k: usize = 0;
        while k < picks.len()
            invariant
                k <= picks@.len(),
                walker.inv(),
                walker.maze.height == height,
                walker.maze.width == width,
                blank == MazeView::blank(height as int, width as int),
                walker.start@ == from,
                walker.path@ == blank.script_path(from, picks@.take(k as int)),
            decreases picks@.len() - k,
        {
            let around = walker.maze.get_cell_neighbours(&walker.cell);
            proof {
                lemma_neighbours(walker.maze@, walker.cell@);
                assert(picks@.take(k + 1).drop_last() =~= picks@.take(k as int));
                lemma_neighbours_of_grid(walker.maze@, blank, walker.cell@);
            }
            if around.len() > 0 {
                let to = around[picks[k] % around.len()];
                assert(around@.map_values(|c: Cell| c@)[picks@[k as int] as int % (
                around@.len() as int)] == to@);
                walker.step_to(&to);
            }
            k += 1;
        }
        assert(picks@.take(k as int) =~= picks@);
        walker.sweep();
        proof {
            lemma_grown_spans(walker.maze@, walker.growth@);
        }
        Ok(walker.maze)
    }
}

} // verus!
