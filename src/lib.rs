//! Wave Function Collapse over a tile atlas: adjacency rules are derived from
//! the pixels along tile edges, then a grid is collapsed cell by cell, always
//! picking among the cells of least entropy, with a full restart whenever a
//! cell is left without any possible tile.

pub mod cell;
pub mod entropy;
pub mod geometry;
pub mod grid;
pub mod image;
pub mod settle;
pub mod laws;
pub mod propagate;
pub mod region;
pub mod tileset;
