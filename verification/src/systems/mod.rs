//! The rules that run once per tick: movement of the actor and the end of
//! its turn.

pub mod player_movement;
pub mod process_turn;

pub use self::player_movement::PlayerMovement;
pub use self::process_turn::ProcessTurn;
