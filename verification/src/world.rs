use crate::maze::{lemma_raster_index_bounds, Cell, Coord, Direction, Maze, MazeView};
use vstd::prelude::*;

verus! {

/// A colour: red, green and blue, each from 0 to 255.
#[derive(Debug, Clone, Copy, PartialEq, Eq, Structural)]
pub struct Color {
    pub r: u8,
    pub g: u8,
    pub b: u8,
}

/// The colour that every wall of a maze has.
pub open spec fn wall_color() -> Color {
    Color { r: 100, g: 200, b: 150 }
}

impl Color {
    /// The colour of walls.
    pub fn wall() -> (color: Color)
        ensures
            color == wall_color(),
    {
        Color { r: 100, g: 200, b: 150 }
    }
}

/// A corner of the grid, in the units in which walls are laid out.
#[derive(Debug, Clone, Copy, PartialEq, Eq, Structural)]
pub struct Point {
    pub x: usize,
    pub y: usize,
}

impl View for Point {
    type V = Coord;

    open spec fn view(&self) -> Coord {
        (self.x as int, self.y as int)
    }
}

/// A straight wall from `p0` to `p1`.
#[derive(Debug, Clone, Copy, PartialEq, Eq, Structural)]
pub struct Wall {
    pub p0: Point,
    pub p1: Point,
    pub color: Color,
}

/// A wall over mathematical coordinates.
pub struct WallView {
    pub p0: Coord,
    pub p1: Coord,
    pub color: Color,
}

impl View for Wall {
    type V = WallView;

    open spec fn view(&self) -> WallView {
        WallView { p0: self.p0@, p1: self.p1@, color: self.color }
    }
}

impl Wall {
    /// The wall from `(x0, y0)` to `(x1, y1)`, in the colour of walls.
    pub fn new_usize(x0: usize, y0: usize, x1: usize, y1: usize) -> (wall: Self)
        ensures
            wall@ == (WallView {
                p0: (x0 as int, y0 as int),
                p1: (x1 as int, y1 as int),
                color: wall_color(),
            }),
    {
        Wall { p0: Point { x: x0, y: y0 }, p1: Point { x: x1, y: y1 }, color: Color::wall() }
    }
}

/// The wall along the side towards `d` of the cell `c`, where a cell is `scale` long and wide.
pub open spec fn side(c: Coord, d: Direction, scale: int) -> WallView {
    let x = c.0 * scale;
    let y = c.1 * scale;
    match d {
        Direction::N => WallView { p0: (x, y), p1: (x + scale, y), color: wall_color() },
        Direction::S => WallView {
            p0: (x, y + scale),
            p1: (x + scale, y + scale),
            color: wall_color(),
        },
        Direction::E => WallView {
            p0: (x + scale, y),
            p1: (x + scale, y + scale),
            color: wall_color(),
        },
        Direction::W => WallView { p0: (x, y), p1: (x, y + scale), color: wall_color() },
    }
}

impl MazeView {
    /// The wall of `c` towards `d`: none where `c` is linked to the cell there, else one.
    pub open spec fn side_wall(self, c: Coord, d: Direction, scale: int) -> Seq<WallView> {
        if self.linked_towards(c, d) {
            Seq::empty()
        } else {
            seq![side(c, d, scale)]
        }
    }

    /// The walls around the cell `c`, in the order north, south, east, west: one along each
    /// side across which `c` is not linked to a cell of the grid.
    pub open spec fn cell_walls(self, c: Coord, scale: int) -> Seq<WallView> {
        self.side_wall(c, Direction::N, scale) + self.side_wall(c, Direction::S, scale)
            + self.side_wall(c, Direction::E, scale) + self.side_wall(c, Direction::W, scale)
    }

    /// The walls of the first `n` cells of row `y`, from the west.
    pub open spec fn row_walls(self, y: int, n: int, scale: int) -> Seq<WallView>
        decreases n,
    {
        if n <= 0 {
            Seq::empty()
        } else {
            self.row_walls(y, n - 1, scale) + self.cell_walls((n - 1, y), scale)
        }
    }

    /// The walls of the first `m` rows, from the north.
    pub open spec fn rows_walls(self, m: int, scale: int) -> Seq<WallView>
        decreases m,
    {
        if m <= 0 {
            Seq::empty()
        } else {
            self.rows_walls(m - 1, scale) + self.row_walls(m - 1, self.width, scale)
        }
    }

    /// The walls of the maze: those of its cells one after the other, row by row.
    pub open spec fn walls(self, scale: int) -> Seq<WallView> {
        self.rows_walls(self.height, scale)
    }

    /// In how many of the four directions `c` is linked to the cell of the grid there.
    pub open spec fn linked_directions(self, c: Coord) -> int {
        (if self.linked_towards(c, Direction::N) { 1int } else { 0 })
            + (if self.linked_towards(c, Direction::S) { 1int } else { 0 })
            + (if self.linked_towards(c, Direction::E) { 1int } else { 0 })
            + (if self.linked_towards(c, Direction::W) { 1int } else { 0 })
    }
}

/// A cell has one wall for each of its four sides across which it is not linked: four less
/// the number of directions in which it is linked.
pub proof fn lemma_cell_wall_count(v: MazeView, c: Coord, scale: int)
    ensures
        v.cell_walls(c, scale).len() == 4 - v.linked_directions(c),
        v.linked_directions(c) == 4 ==> v.cell_walls(c, scale) == Seq::<WallView>::empty(),
{
}

/// The number of sides without a link that the first `n` cells of row `y` have.
pub open spec fn row_unlinked_sides(v: MazeView, y: int, n: int) -> int
    decreases n,
{
    if n <= 0 {
        0
    } else {
        row_unlinked_sides(v, y, n - 1) + 4 - v.linked_directions((n - 1, y))
    }
}

/// The number of sides without a link that the cells of the first `m` rows have.
pub open spec fn rows_unlinked_sides(v: MazeView, m: int) -> int
    decreases m,
{
    if m <= 0 {
        0
    } else {
        rows_unlinked_sides(v, m - 1) + row_unlinked_sides(v, m - 1, v.width)
    }
}

/// The walls of the first `n` cells of a row are as many as those cells have sides without a
/// link.
pub proof fn lemma_row_wall_count(v: MazeView, y: int, n: int, scale: int)
    ensures
        v.row_walls(y, n, scale).len() == row_unlinked_sides(v, y, n),
    decreases n,
{
    if n > 0 {
        lemma_row_wall_count(v, y, n - 1, scale);
    }
}

/// The walls of the first `m` rows are as many as their cells have sides without a link.
pub proof fn lemma_rows_wall_count(v: MazeView, m: int, scale: int)
    ensures
        v.rows_walls(m, scale).len() == rows_unlinked_sides(v, m),
    decreases m,
{
    if m > 0 {
        lemma_rows_wall_count(v, m - 1, scale);
        lemma_row_wall_count(v, m - 1, v.width, scale);
    }
}

impl Maze {
    /// Puts behind `out` the walls around `cell`, where a cell is `scale` long and wide.
    fn push_cell_walls(&self, cell: &Cell, scale: usize, out: &mut Vec<Wall>)
        requires
            (cell.x + 1) * scale <= usize::MAX,
            (cell.y + 1) * scale <= usize::MAX,
        ensures
            final(out)@.map_values(|w: Wall| w@) == old(out)@.map_values(|w: Wall| w@)
                + self@.cell_walls(cell@, scale as int),
    {
        let ghost c = cell@;
        let ghost s = scale as int;
        proof {
            assert(c.0 * s + s == (c.0 + 1) * s && 0 <= c.0 * s && c.1 * s + s == (c.1 + 1) * s
                && 0 <= c.1 * s) by (nonlinear_arith)
                requires
                    0 <= c.0,
                    0 <= c.1,
                    0 <= s,
            ;
        }
        let x = cell.x * scale;
        let y = cell.y * scale;
        let offset = 1 * scale;

        if !self.is_linked(&cell, &Direction::N) {
            out.push(Wall::new_usize(x, y, x + offset, y));
        }

        if !self.is_linked(&cell, &Direction::S) {
            out.push(Wall::new_usize(x, y + offset, x + offset, y + offset));
        }

        if !self.is_linked(&cell, &Direction::E) {
            out.push(Wall::new_usize(x + offset, y, x + offset, y + offset));
        }

        if !self.is_linked(&cell, &Direction::W) {
            out.push(Wall::new_usize(x, y, x, y + offset));
        }
    }

    /// The walls of the maze, where a cell is `scale` long and wide: for each cell in turn,
    /// row by row, one wall along each side across which it is not linked to a cell of the
    /// grid. The corners of the walls have to fit a machine word.
    pub fn to_walls(&self, scale: usize) -> (out: Vec<Wall>)
        requires
            self.wf(),
            self.height > 0 ==> self.width * scale <= usize::MAX,
            self.width > 0 ==> self.height * scale <= usize::MAX,
        ensures
            out@.map_values(|w: Wall| w@) == self@.walls(scale as int),
    {
        let mut out: Vec<Wall> = Vec::new();
        let ghost s = scale as int;
        let mut i: usize = 0;
        let mut y: usize = 0;
        while y < self.height
            invariant
                self.wf(),
                self.height > 0 ==> self.width * scale <= usize::MAX,
                self.width > 0 ==> self.height * scale <= usize::MAX,
                s == scale,
                y <= self.height,
                i == y * self.width,
                out@.map_values(|w: Wall| w@) == self@.rows_walls(y as int, s),
            decreases self.height - y,
        {
            let mut x: usize = 0;
            while x < self.width
                invariant
                    self.wf(),
                    self.width * scale <= usize::MAX,
                    self.width > 0 ==> self.height * scale <= usize::MAX,
                    s == scale,
                    y < self.height,
                    x <= self.width,
                    i == y * self.width + x,
                    out@.map_values(|w: Wall| w@) == self@.rows_walls(y as int, s)
                        + self@.row_walls(y as int, x as int, s),
                decreases self.width - x,
            {
                proof {
                    lemma_raster_index_bounds(
                        self.height as int,
                        self.width as int,
                        x as int,
                        y as int,
                    );
                    assert(i < self.cells.len());
                    assert((x + 1) * s <= self.width * s && (y + 1) * s <= self.height * s)
                        by (nonlinear_arith)
                        requires
                            0 <= x < self.width,
                            0 <= y < self.height,
                            0 <= s,
                    ;
                }
                let cell = &self.cells[i];
                self.push_cell_walls(cell, scale, &mut out);
                x += 1;
                i += 1;
            }
            proof {
                assert((y + 1) * self.width == y * self.width + self.width) by (nonlinear_arith);
            }
            y += 1;
        }
        out
    }
}

} // verus!
