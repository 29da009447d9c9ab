//! Mazes on a grid, verified with Verus: a maze grown by a random walk into a spanning tree
//! of the grid, the walls that stand between its cells, a drawing of it in characters, and
//! the whole-number side of painting a view of the walls column by column.

pub mod frame;
pub mod generate;
pub mod maze;
pub mod text;
pub mod tree;
pub mod walk;
pub mod world;
