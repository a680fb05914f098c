//! A verified maze solver: a rectangular grid of cells with one start and one
//! end marker is validated, searched with one of four algorithms (depth-first,
//! breadth-first, greedy best-first, A*), and annotated in place with the
//! discovered path.

pub mod cell;
pub mod errors;
pub mod grid;
pub mod dfs;
pub mod reach;
pub mod search;
pub mod solver;
pub mod validate;
pub mod visited;
