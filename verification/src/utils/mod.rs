//! Helpers shared by the systems: distances and level geometry.

pub mod movement;
pub mod ordered;
pub mod regions;
pub mod tiled;
