//! Grid path finding: depth-first, breadth-first and A* search over a grid of
//! cells, with a random maze generator and the string encoding of grids.
//!
//! Points are `(x, y)` with `x` the column and `y` the row: the cell of a
//! point `p` is `cells[p.y][p.x]`.

pub mod grid;
pub mod matrix;
pub mod trace;
pub mod bfs;
pub mod dfs;
pub mod astar;
pub mod codec;
pub mod maze;
pub mod laws;

pub use codec::{ser_to_cell, ser_to_string};
pub use grid::{CellType, Grid, Point};
