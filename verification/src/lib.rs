//! Maze solving by graph search.
//!
//! A maze image is turned into a graph whose nodes are the corners and
//! junctions of its corridors; several variants of a best-first/breadth-first
//! search then look for a route from the entrance to the exit.

pub mod pos;
pub mod graph;
pub mod path;
pub mod queue;
pub mod routes;
pub mod node;
pub mod bfs;
pub mod maze;
pub mod parallel;
pub mod batch;
pub mod bfs2;
pub mod pbfs2;
pub mod pbfs;
