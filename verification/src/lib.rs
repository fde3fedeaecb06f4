//! Optimal forging sequences: a shortest-path table over progress values
//! 0..=150, and a solver that picks the last three operations under
//! positional rules and reconciles the earlier steps to hit the target
//! exactly.

pub mod solver;
pub mod step;
pub mod table;
