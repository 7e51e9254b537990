//! A verified maze toolkit: a rectangular grid of cells with per-direction
//! wall flags, a randomized depth-first carver that turns a fully walled grid
//! into a spanning tree, and an A* search that finds a path through the
//! carved maze or reports that the goal is unreachable.

pub mod carve;
pub mod counting;
pub mod maze;
pub mod reach;
pub mod search;
