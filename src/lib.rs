//! Perfect-maze generation by randomized depth-first backtracking, shortest-path
//! solving by breadth-first search, and the batching used to build datasets.

pub mod dataset;
pub mod generate;
pub mod grid;
pub mod laws;
pub mod marks;
pub mod maze;
pub mod random;
pub mod render;
pub mod solve;
