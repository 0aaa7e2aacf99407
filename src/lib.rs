//! Maze generation by randomized depth-first carving, and an incremental
//! best-first search tree that finds a route from the start cell to the end.

pub mod grid;
pub mod rng;
pub mod maze;
pub mod tree;
pub mod solver;
pub mod args;

pub use grid::{Direction, Position};
pub use maze::{Access, Cell, Maze, MazeError};
pub use rng::Rng;
pub use tree::{Tree, TreeNode};
