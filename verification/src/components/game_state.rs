use crate::types::Turn;
use vstd::prelude::*;

verus! {

/// The state shared by all actors: whose turn it is.
#[derive(Debug)]
pub struct GameState {
    pub turn: Turn,
}

impl GameState {
    /// A game starts on the player's turn.
    pub fn new() -> (state: GameState)
        ensures
            state.turn == Turn::Player,
    {
        GameState { turn: Turn::Player }
    }
}

} // verus!
