//! Percolation-style simulation of fire spreading through a forest.
//!
//! A rectangular grid of cells is seeded with living trees at a target
//! density, one tree is ignited, and the fire spreads step by step to
//! orthogonally adjacent living trees until no burning front remains.
//! A driver sweeps a range of densities, averages repeated trials, and
//! reports the density that maximizes the number of surviving trees.

pub mod app;
pub mod driver;
pub mod forest;
pub mod rng;
pub mod tree;
