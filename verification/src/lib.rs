//! Spatial index and neighbour sampling for a flock of point agents.
//!
//! [`grid`] holds the index itself: an arena of values threaded into one
//! singly linked chain per cell of a 2D grid. [`boids`] holds what the
//! flocking step decides on top of it: which neighbours an agent looks at,
//! and how an agent moves from one cell to the next.

pub mod boids;
pub mod grid;
