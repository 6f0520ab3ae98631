//! A Game of Life engine on a toroidal grid, with incremental neighbour counts.
pub mod topology;
pub mod grid;
pub mod life;
pub mod laws;
pub mod seed;
pub mod canvas;
