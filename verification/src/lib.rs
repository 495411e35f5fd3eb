//! A verified core for a symmetric travelling-salesman solver.
//!
//! The crate centres on mutable cyclic-permutation ("tour") representations
//! over a set of cities: a reference array representation and a two-level
//! list that answers `successor` / `predecessor` / `between` in constant
//! time and reverses an arc (`flip`) in sub-linear time.  Coordinates and
//! distances are integers, so every distance computation is exact.

pub mod alg;
pub mod node;
pub mod tour;
