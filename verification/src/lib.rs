//! Tactical-movement kernel of a tile-based strategy game.
//!
//! The crate derives walkable regions and jump targets from level geometry,
//! searches shortest routes over the passability grid, drives the per-actor
//! movement state machine and ends the player's turn when the actor's energy
//! pool is spent.  Every executable function carries a contract over a
//! mathematical model of the data it touches.

pub mod components;
pub mod math;
pub mod spritesheet;
pub mod systems;
pub mod types;
pub mod utils;
