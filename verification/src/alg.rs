//! Algorithms that consume a tour.

pub mod solver;
