//! Grid mazes: carving, loop injection, artifact placement, and the graph
//! queries (route search, minimum spanning tree) built on the carved grid.

pub mod artifacts;
pub mod carve;
pub mod cell;
pub mod generate;
pub mod graph;
pub mod graph_build;
pub mod grid;
pub mod loops;
pub mod mask;
pub mod mst;
pub mod mst_laws;
pub mod pos;
mod random;
pub mod reach;
pub mod route;
pub mod solution;

pub use cell::{dangers, rewards, CellType};
pub use graph::{Edge, Edges, Nodes};
pub use grid::{constrain_dimension, ExitLocation, Maze};
pub use mask::CellSet;
pub use mst::{minimum_spanning_tree, weight_of};
pub use pos::Pos;
pub use solution::{MazeError, SolutionType};
