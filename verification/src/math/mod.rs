//! Search over the passability grid.

pub mod astar;
pub mod search;
pub mod tally;
