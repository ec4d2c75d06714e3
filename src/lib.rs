//! Perfect mazes carved by a randomised Kruskal algorithm, together with a
//! small Game of Life engine.
//!
//! A maze is a grid of cells whose cleared walls form a spanning tree: every
//! two cells are joined by exactly one path. The walls are visited in an order
//! fixed by a seed, and a wall is cleared whenever the cells on its two sides
//! are not connected yet.
pub mod carving;
pub mod graph;
pub mod grid;
pub mod life;
pub mod maze;
pub mod order;
pub mod partition;
pub mod text;

pub use life::{Environment, SimCell, Viewport};
pub use maze::{tumble_walls, MazeCell, MazeError, PerfectMaze};
