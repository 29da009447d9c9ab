use std::collections::{BTreeMap, BTreeSet};
use vstd::arithmetic::div_mod::{lemma_fundamental_div_mod, lemma_mod_bound};
use vstd::prelude::*;

verus! {

/// A grid coordinate as a pair of mathematical integers: the column first, the row second.
pub type Coord = (int, int);

/// One square of the grid, named by its column `x` and its row `y`.
#[derive(Debug, Clone, Copy, PartialEq, Eq, Structural)]
pub struct Cell {
    pub x: usize,
    pub y: usize,
}

impl View for Cell {
    type V = Coord;

    open spec fn view(&self) -> Coord {
        (self.x as int, self.y as int)
    }
}

impl Cell {
    /// The cell in column `x` of row `y`.
    pub fn new(x: usize, y: usize) -> (cell: Self)
        ensures
            cell == (Cell { x, y }),
    {
        Cell { x: x, y: y }
    }
}

/// The cell that stands at a coordinate whose parts fit a machine word.
pub open spec fn cell_at(c: Coord) -> Cell {
    Cell { x: c.0 as usize, y: c.1 as usize }
}

/// The four ways out of a cell. North is towards row zero, west towards column zero.
#[derive(Debug, Clone, Copy, PartialEq, Eq, Structural)]
pub enum Direction {
    N,
    W,
    S,
    E,
}

impl Direction {
    /// What one step in this direction adds to a coordinate.
    pub open spec fn offset(self) -> Coord {
        match self {
            Direction::N => (0, -1),
            Direction::W => (-1, 0),
            Direction::S => (0, 1),
            Direction::E => (1, 0),
        }
    }

    /// The four directions in the order in which neighbours are listed.
    pub open spec fn spec_all() -> Seq<Direction> {
        seq![Direction::N, Direction::W, Direction::S, Direction::E]
    }

    /// The four directions: north, west, south, east.
    pub fn all() -> (dirs: [Direction; 4])
        ensures
            dirs@ == Self::spec_all(),
    {
        let dirs = [Direction::N, Direction::W, Direction::S, Direction::E];
        dirs
    }
}

/// The coordinate one step away from `c` in direction `d`. It may lie outside any grid.
pub open spec fn step(c: Coord, d: Direction) -> Coord {
    (c.0 + d.offset().0, c.1 + d.offset().1)
}

/// Two coordinates one step apart along a row or along a column.
pub open spec fn adjacent(a: Coord, b: Coord) -> bool {
    ||| a.0 == b.0 && (a.1 == b.1 + 1 || b.1 == a.1 + 1)
    ||| a.1 == b.1 && (a.0 == b.0 + 1 || b.0 == a.0 + 1)
}

/// Where the cell `(x, y)` stands in a row-by-row listing of a grid `width` cells wide.
pub open spec fn raster_index(width: int, x: int, y: int) -> int {
    y * width + x
}

/// What a maze is, apart from how it is stored: the size of its grid, and for each cell that
/// has any link the set of cells it is linked to.
pub struct MazeView {
    pub height: int,
    pub width: int,
    pub links: Map<Coord, Set<Coord>>,
}

impl MazeView {
    /// The grid of this size without any link.
    pub open spec fn blank(height: int, width: int) -> MazeView {
        MazeView { height, width, links: Map::empty() }
    }

    /// Whether `c` is a cell of the grid.
    pub open spec fn in_bounds(self, c: Coord) -> bool {
        0 <= c.0 < self.width && 0 <= c.1 < self.height
    }

    /// The number of cells of the grid.
    pub open spec fn size(self) -> int {
        self.height * self.width
    }

    /// The cell at place `i` when the cells are listed row by row, each row from the west.
    pub open spec fn cell_number(self, i: int) -> Coord {
        (i % self.width, i / self.width)
    }

    /// The cell next to `c` in direction `d`, if the grid has one there.
    pub open spec fn neighbour(self, c: Coord, d: Direction) -> Option<Coord> {
        if self.in_bounds(step(c, d)) {
            Some(step(c, d))
        } else {
            None
        }
    }

    /// The neighbour of `c` in direction `d` as a list: of one cell, or of none where the grid
    /// has no cell there.
    pub open spec fn towards(self, c: Coord, d: Direction) -> Seq<Coord> {
        match self.neighbour(c, d) {
            Some(n) => seq![n],
            None => Seq::empty(),
        }
    }

    /// The neighbours of `c` in the first `k` of the directions north, west, south, east, in
    /// that order.
    pub open spec fn neighbours_among(self, c: Coord, k: int) -> Seq<Coord> {
        (if k >= 1 {
            self.towards(c, Direction::N)
        } else {
            Seq::empty()
        }) + (if k >= 2 {
            self.towards(c, Direction::W)
        } else {
            Seq::empty()
        }) + (if k >= 3 {
            self.towards(c, Direction::S)
        } else {
            Seq::empty()
        }) + (if k >= 4 {
            self.towards(c, Direction::E)
        } else {
            Seq::empty()
        })
    }

    /// The cells of the grid next to `c`: north, west, south, east, leaving out what the grid
    /// does not have.
    pub open spec fn neighbours(self, c: Coord) -> Seq<Coord> {
        self.towards(c, Direction::N) + self.towards(c, Direction::W) + self.towards(
            c,
            Direction::S,
        ) + self.towards(c, Direction::E)
    }

    /// Whether any link has been recorded that starts at `c`.
    pub open spec fn has_links(self, c: Coord) -> bool {
        self.links.contains_key(c)
    }

    /// Whether a link from `a` to `b` has been recorded.
    pub open spec fn linked(self, a: Coord, b: Coord) -> bool {
        self.links.contains_key(a) && self.links[a].contains(b)
    }

    /// Whether the grid has a cell next to `c` in direction `d` and `c` is linked to it.
    pub open spec fn linked_towards(self, c: Coord, d: Direction) -> bool {
        self.in_bounds(step(c, d)) && self.linked(c, step(c, d))
    }

    /// What has been recorded as linked from `a`, the empty set where nothing has.
    pub open spec fn links_from(self, a: Coord) -> Set<Coord> {
        if self.links.contains_key(a) {
            self.links[a]
        } else {
            Set::empty()
        }
    }

    /// This maze with a link from `a` to `b` added, and none back.
    pub open spec fn with_link(self, a: Coord, b: Coord) -> MazeView {
        MazeView { links: self.links.insert(a, self.links_from(a).insert(b)), ..self }
    }

    /// This maze with a link from `a` to `b` and one from `b` to `a` added.
    pub open spec fn with_link_pair(self, a: Coord, b: Coord) -> MazeView {
        self.with_link(a, b).with_link(b, a)
    }

    /// Every link has been recorded in both directions.
    pub open spec fn symmetric(self) -> bool {
        forall|a: Coord, b: Coord| self.linked(a, b) ==> self.linked(b, a)
    }
}

/// A grid of cells and the passages between them.
pub struct Maze {
    pub height: usize,
    pub width: usize,
    /// The cells row by row, each row from west to east.
    pub cells: Vec<Cell>,
    /// For each cell that has any link, the cells it is linked to.
    pub links: BTreeMap<(usize, usize), BTreeSet<(usize, usize)>>,
}

/// Whether both parts of a coordinate fit a machine word.
pub open spec fn representable(c: Coord) -> bool {
    0 <= c.0 <= usize::MAX && 0 <= c.1 <= usize::MAX
}

/// The key under which the links of `c` are stored.
pub open spec fn key_of(c: Coord) -> (usize, usize) {
    (c.0 as usize, c.1 as usize)
}

impl View for Maze {
    type V = MazeView;

    open spec fn view(&self) -> MazeView {
        MazeView {
            height: self.height as int,
            width: self.width as int,
            links: self.links_view(),
        }
    }
}

impl Maze {
    /// The links that the maze has recorded, over mathematical coordinates.
    pub closed spec fn links_view(&self) -> Map<Coord, Set<Coord>> {
        Map::new(
            |a: Coord| representable(a) && self.links@.contains_key(key_of(a)),
            |a: Coord|
                Set::new(
                    |b: Coord| representable(b) && self.links@[key_of(a)]@.contains(key_of(b)),
                ),
        )
    }

    /// The listing of cells agrees with the size of the grid: row `y` of it holds the cells
    /// `(0, y)` to `(width - 1, y)`, and the rows follow one another from `0` to `height - 1`.
    pub open spec fn wf(&self) -> bool {
        &&& self.cells@.len() == self.height * self.width
        &&& forall|x: int, y: int|
            0 <= x < self.width && 0 <= y < self.height ==> #[trigger] self.cells@[raster_index(
                self.width as int,
                x,
                y,
            )] == cell_at((x, y))
    }

    /// Whether `other` has the grid of this maze, whatever its links are.
    pub open spec fn same_grid(&self, other: &Maze) -> bool {
        &&& self.height == other.height
        &&& self.width == other.width
        &&& self.cells == other.cells
    }

    /// The grid of `height` rows and `width` columns with no links at all.
    pub fn blank(height: usize, width: usize) -> (maze: Self)
        requires
            height * width <= usize::MAX,
        ensures
            maze.wf(),
            maze@ == MazeView::blank(height as int, width as int),
            maze@.symmetric(),
    {
        let mut cell_raster: Vec<Cell> = Vec::with_capacity(height * width);
        let mut y: usize = 0;
        while y < height
            invariant
                y <= height,
                height * width <= usize::MAX,
                cell_raster@.len() == y * width,
                forall|cx: int, cy: int|
                    0 <= cx < width && 0 <= cy < y ==> #[trigger] cell_raster@[raster_index(
                        width as int,
                        cx,
                        cy,
                    )] == cell_at((cx, cy)),
            decreases height - y,
        {
            let mut x: usize = 0;
            while x < width
                invariant
                    x <= width,
                    y < height,
                    height * width <= usize::MAX,
                    cell_raster@.len() == y * width + x,
                    forall|cx: int, cy: int|
                        0 <= cx < width && 0 <= cy < y ==> #[trigger] cell_raster@[raster_index(
                            width as int,
                            cx,
                            cy,
                        )] == cell_at((cx, cy)),
                    forall|cx: int|
                        0 <= cx < x ==> #[trigger] cell_raster@[raster_index(
                            width as int,
                            cx,
                            y as int,
                        )] == cell_at((cx, y as int)),
                decreases width - x,
            {
                proof {
                    assert forall|cx: int, cy: int| 0 <= cx < width && 0 <= cy < y implies 0
                        <= #[trigger] raster_index(width as int, cx, cy) < y * width by {
                        lemma_raster_index_bounds(y as int, width as int, cx, cy);
                    }
                }
                cell_raster.push(Cell::new(x, y));
                x += 1;
            }
            proof {
                assert((y + 1) * width == y * width + width) by (nonlinear_arith);
            }
            y += 1;
        }
        let maze = Maze {
            height: height,
            width: width,
            cells: cell_raster,
            links: BTreeMap::new(),
        };
        assert(maze.links_view() =~= Map::<Coord, Set<Coord>>::empty());
        maze
    }

    /// Records a link from `(x1, y1)` to `(x2, y2)`, and none back. Neither has to be a cell
    /// of the grid.
    pub fn link_coords(&mut self, x1: usize, y1: usize, x2: usize, y2: usize)
        ensures
            final(self)@ == old(self)@.with_link((x1 as int, y1 as int), (x2 as int, y2 as int)),
            final(self).same_grid(old(self)),
    {
        let mut set = match self.links.remove(&(x1, y1)) {
            Some(set) => set,
            None => BTreeSet::new(),
        };
        set.insert((x2, y2));
        let ghost stored = set@;
        self.links.insert((x1, y1), set);
        proof {
            let a = (x1 as int, y1 as int);
            let b = (x2 as int, y2 as int);
            let want = old(self)@.with_link(a, b).links;
            let got = self.links_view();
            assert forall|c: Coord| got.contains_key(c) implies got[c] =~= want[c] by {
                if c == a {
                    assert forall|d: Coord| got[c].contains(d) <==> want[c].contains(d) by {
                        if representable(d) && key_of(d) == (x2, y2) {
                            assert(d == b);
                        }
                    }
                } else {
                    assert(key_of(c) != (x1, y1));
                }
            }
            assert(got =~= want);
        }
    }

    /// Links two cells to one another.
    pub fn link_cells(&mut self, cell1: &Cell, cell2: &Cell)
        ensures
            final(self)@ == old(self)@.with_link_pair(cell1@, cell2@),
            final(self).same_grid(old(self)),
            old(self)@.symmetric() ==> final(self)@.symmetric(),
    {
        self.link_pair(cell1.x, cell1.y, cell2.x, cell2.y);
    }

    /// Records a link from `(x1, y1)` to `(x2, y2)` and one back.
    pub fn link_pair(&mut self, x1: usize, y1: usize, x2: usize, y2: usize)
        ensures
            final(self)@ == old(self)@.with_link_pair(
                (x1 as int, y1 as int),
                (x2 as int, y2 as int),
            ),
            final(self).same_grid(old(self)),
            old(self)@.symmetric() ==> final(self)@.symmetric(),
    {
        self.link_coords(x1, y1, x2, y2);
        self.link_coords(x2, y2, x1, y1);
        proof {
            lemma_link_pair_symmetric(
                old(self)@,
                (x1 as int, y1 as int),
                (x2 as int, y2 as int),
            );
        }
    }

    /// The number of cells.
    pub fn size(&self) -> (n: usize)
        requires
            self.height * self.width <= usize::MAX,
        ensures
            n == self@.size(),
    {
        self.height * self.width
    }

    /// The cell of the grid next to `cell` in `direction`, if there is one.
    pub fn get_cell_in_direction(&self, cell: &Cell, direction: &Direction) -> (found: Option<
        &Cell,
    >)
        requires
            self.wf(),
        ensures
            match self@.neighbour(cell@, *direction) {
                Some(c) => found == Some(&cell_at(c)),
                None => found is None,
            },
    {
        if let Some((x, y)) = self.get_inbounds_coords_in_direction(cell.x, cell.y, direction) {
            proof {
                lemma_listing_fits(self);
                lemma_raster_index_bounds(
                    self.height as int,
                    self.width as int,
                    x as int,
                    y as int,
                );
            }
            self.get_cell(x, y)
        } else {
            None
        }
    }

    /// The coordinates one step from `(x, y)` in `direction`, if they are those of a cell of the
    /// grid. `(x, y)` itself need not be one.
    pub fn get_inbounds_coords_in_direction(
        &self,
        x: usize,
        y: usize,
        direction: &Direction,
    ) -> (found: Option<(usize, usize)>)
        ensures
            match self@.neighbour((x as int, y as int), *direction) {
                Some(c) => found == Some(key_of(c)),
                None => found is None,
            },
    {
        let mut x_cursor: Option<usize> = Some(0);
        let mut y_cursor: Option<usize> = Some(0);

        match *direction {
            Direction::N => y_cursor = y.checked_sub(1),
            Direction::S => y_cursor = y.checked_add(1),
            Direction::E => x_cursor = x.checked_add(1),
            Direction::W => x_cursor = x.checked_sub(1),
        };

        if x_cursor.is_none() || y_cursor.is_none() {
            None
        } else {
            let mut x_res = x_cursor.unwrap();
            let mut y_res = y_cursor.unwrap();

            match *direction {
                Direction::N | Direction::S => {
                    x_res = x;
                },
                Direction::E | Direction::W => {
                    y_res = y;
                },
            }

            if x_res >= self.width || y_res >= self.height {
                None
            } else {
                Some((x_res, y_res))
            }
        }
    }

    /// The cells of the grid next to `cell`: north, west, south, east, leaving out what the
    /// grid does not have.
    pub fn get_cell_neighbours(&self, cell: &Cell) -> (out: Vec<Cell>)
        requires
            self.wf(),
        ensures
            out@.map_values(|c: Cell| c@) == self@.neighbours(cell@),
            forall|i: int| 0 <= i < out@.len() ==> self@.in_bounds(#[trigger] out@[i]@),
    {
        let mut out: Vec<Cell> = Vec::with_capacity(4);
        let dirs = Direction::all();
        let mut i: usize = 0;
        assert(out@.map_values(|c: Cell| c@) =~= self@.neighbours_among(cell@, 0));
        while i < 4
            invariant
                i <= 4,
                self.wf(),
                dirs@ == Direction::spec_all(),
                out@.map_values(|c: Cell| c@) == self@.neighbours_among(cell@, i as int),
                forall|j: int| 0 <= j < out@.len() ==> self@.in_bounds(#[trigger] out@[j]@),
            decreases 4 - i,
        {
            let dir = dirs[i];
            let ghost before = out@.map_values(|c: Cell| c@);
            if let Some(cell) = self.get_cell_in_direction(cell, &dir) {
                out.push(cell.clone());
            }
            assert(out@.map_values(|c: Cell| c@) =~= before + self@.towards(cell@, dir));
            assert(self@.neighbours_among(cell@, i + 1) =~= self@.neighbours_among(
                cell@,
                i as int,
            ) + self@.towards(cell@, dir));
            i += 1;
        }
        assert(self@.neighbours_among(cell@, 4) =~= self@.neighbours(cell@));
        out
    }

    /// The cell listed at `y * width + x`, if the listing is that long. For `x` and `y` within
    /// the grid that is the cell `(x, y)`.
    pub fn get_cell(&self, x: usize, y: usize) -> (found: Option<&Cell>)
        requires
            y * self.width + x <= usize::MAX,
        ensures
            found == if raster_index(self.width as int, x as int, y as int) < self.cells@.len() {
                Some(&self.cells@[raster_index(self.width as int, x as int, y as int)])
            } else {
                None
            },
            self.wf() && self@.in_bounds((x as int, y as int)) ==> found == Some(
                &cell_at((x as int, y as int)),
            ),
    {
        proof {
            assert(0 <= y * self.width) by (nonlinear_arith)
                requires
                    0 <= y,
                    0 <= self.width,
            ;
            if self.wf() && self@.in_bounds((x as int, y as int)) {
                lemma_raster_index_bounds(
                    self.height as int,
                    self.width as int,
                    x as int,
                    y as int,
                );
            }
        }
        let index = y * self.width + x;
        if index < self.cells.len() {
            Some(&self.cells[index])
        } else {
            None
        }
    }

    /// Whether the grid has a cell next to `cell` in `direction` and `cell` is linked to it.
    pub fn is_linked(&self, cell: &Cell, direction: &Direction) -> (linked: bool)
        ensures
            linked == self@.linked_towards(cell@, *direction),
    {
        if let Some((x, y)) = self.get_inbounds_coords_in_direction(cell.x, cell.y, direction) {
            self.is_linked_coords(cell.x, cell.y, x, y)
        } else {
            false
        }
    }

    /// Whether a link from `(x1, y1)` to `(x2, y2)` has been recorded.
    pub fn is_linked_coords(&self, x1: usize, y1: usize, x2: usize, y2: usize) -> (linked: bool)
        ensures
            linked == self@.linked((x1 as int, y1 as int), (x2 as int, y2 as int)),
    {
        if let Some(set) = self.links.get(&(x1, y1)) {
            if let Some(_) = set.get(&(x2, y2)) {
                return true;
            }
        }
        false
    }

    /// Whether any link that starts at `cell` has been recorded.
    pub fn has_links(&self, cell: &Cell) -> (any: bool)
        ensures
            any == self@.has_links(cell@),
    {
        self.links.contains_key(&(cell.x, cell.y))
    }
}

/// A grid without links has every link in both directions.
pub proof fn lemma_blank_symmetric(height: int, width: int)
    ensures
        MazeView::blank(height, width).symmetric(),
{
}

/// Linking two cells to one another links each to the other, and where every link ran both
/// ways before, every link does so after.
pub proof fn lemma_link_pair_symmetric(v: MazeView, a: Coord, b: Coord)
    ensures
        v.with_link_pair(a, b).linked(a, b),
        v.with_link_pair(a, b).linked(b, a),
        v.symmetric() ==> v.with_link_pair(a, b).symmetric(),
{
    let w = v.with_link_pair(a, b);
    if v.symmetric() {
        assert forall|x: Coord, y: Coord| w.linked(x, y) implies w.linked(y, x) by {
            if v.linked(x, y) {
                assert(v.linked(y, x));
            }
        }
    }
}

/// The number of cells of a well-formed maze fits a machine word.
pub proof fn lemma_listing_fits(maze: &Maze)
    requires
        maze.wf(),
    ensures
        maze.height * maze.width <= usize::MAX,
{
    assert(maze.cells.len() <= usize::MAX);
}

/// A cell of the grid has its place in the listing, and the listing is no longer than the
/// grid has cells.
pub proof fn lemma_raster_index_bounds(height: int, width: int, x: int, y: int)
    requires
        0 <= x < width,
        0 <= y < height,
    ensures
        0 <= y * width,
        0 <= raster_index(width, x, y) < height * width,
        raster_index(width, x, y) < (y + 1) * width,
{
    assert(0 <= y * width && (y + 1) * width <= height * width && (y + 1) * width == y * width
        + width) by (nonlinear_arith)
        requires
            0 <= x < width,
            0 <= y < height,
    ;
}

/// Every cell listed by a well-formed maze is a cell of its grid.
pub proof fn lemma_listed_cell_in_bounds(maze: &Maze, i: int)
    requires
        maze.wf(),
        0 <= i < maze.cells@.len(),
    ensures
        maze@.in_bounds(maze.cells@[i]@),
        maze.cells@[i]@ == maze@.cell_number(i),
        raster_index(maze.width as int, maze.cells@[i]@.0, maze.cells@[i]@.1) == i,
{
    let w = maze.width as int;
    let h = maze.height as int;
    assert(w > 0) by (nonlinear_arith)
        requires
            0 <= i < h * w,
            0 <= w,
    ;
    lemma_fundamental_div_mod(i, w);
    lemma_mod_bound(i, w);
    let x = i % w;
    let y = i / w;
    assert(0 <= y < h) by (nonlinear_arith)
        requires
            0 <= i < h * w,
            0 < w,
            i == w * y + x,
            0 <= x < w,
    ;
    assert(raster_index(w, x, y) == i) by (nonlinear_arith)
        requires
            i == w * y + x,
            raster_index(w, x, y) == y * w + x,
    ;
}

/// The neighbours of a cell go by the size of the grid and not by its links.
pub proof fn lemma_neighbours_of_grid(v: MazeView, w: MazeView, c: Coord)
    requires
        v.height == w.height,
        v.width == w.width,
    ensures
        v.neighbours(c) == w.neighbours(c),
{
    assert(v.towards(c, Direction::N) == w.towards(c, Direction::N));
    assert(v.towards(c, Direction::W) == w.towards(c, Direction::W));
    assert(v.towards(c, Direction::S) == w.towards(c, Direction::S));
    assert(v.towards(c, Direction::E) == w.towards(c, Direction::E));
}

/// The neighbours of a cell are cells of the grid one step away from it, and a cell of a grid
/// of two cells or more has at least one.
pub proof fn lemma_neighbours(v: MazeView, c: Coord)
    ensures
        forall|i: int|
            0 <= i < v.neighbours(c).len() ==> v.in_bounds(#[trigger] v.neighbours(c)[i])
                && adjacent(c, v.neighbours(c)[i]),
        v.in_bounds(c) && v.size() >= 2 ==> v.neighbours(c).len() >= 1,
{
    let north = v.towards(c, Direction::N);
    let west = v.towards(c, Direction::W);
    let south = v.towards(c, Direction::S);
    let east = v.towards(c, Direction::E);
    assert(v.neighbours(c).len() == north.len() + west.len() + south.len() + east.len());
    assert forall|i: int| 0 <= i < v.neighbours(c).len() implies v.in_bounds(
        #[trigger] v.neighbours(c)[i],
    ) && adjacent(c, v.neighbours(c)[i]) by {
        let n = v.neighbours(c)[i];
        if i < north.len() {
            assert(n == north[i] && n == step(c, Direction::N));
        } else if i < north.len() + west.len() {
            assert(n == west[i - north.len()] && n == step(c, Direction::W));
        } else if i < north.len() + west.len() + south.len() {
            assert(n == south[i - north.len() - west.len()] && n == step(c, Direction::S));
        } else {
            assert(n == east[i - north.len() - west.len() - south.len()] && n == step(
                c,
                Direction::E,
            ));
        }
    }
    if v.in_bounds(c) && v.size() >= 2 {
        if v.width == 1 {
            assert(v.height >= 2) by (nonlinear_arith)
                requires
                    v.height * v.width >= 2,
                    v.width == 1,
            ;
            assert(north.len() == 1 || south.len() == 1);
        } else {
            assert(west.len() == 1 || east.len() == 1);
        }
    }
}

} // verus!
