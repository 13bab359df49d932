use crate::components::player::energy_after;
use crate::components::{GameState, Player, Sprite};
use crate::types::Turn;
use vstd::prelude::*;

verus! {

/// Ends the player's turn once the actor has spent its energy.
pub struct ProcessTurn;

/// The player's turn ends in a tick that finds the actor without energy.
pub open spec fn turn_ends(turn: Turn, energy: usize) -> bool {
    turn == Turn::Player && energy == 0
}

/// Whose turn it is after a tick that finds the actor with `energy`.
pub open spec fn turn_after(turn: Turn, energy: usize) -> Turn {
    if turn_ends(turn, energy) {
        Turn::Enemy
    } else {
        turn
    }
}

/// Whose turn it is after the ticks of a player's turn, given the energy
/// that each tick finds the actor with.
pub open spec fn turn_after_ticks(energies: Seq<usize>) -> Turn
    decreases energies.len(),
{
    if energies.len() == 0 {
        Turn::Player
    } else {
        turn_after(turn_after_ticks(energies.drop_last()), energies.last())
    }
}

/// Energy left after a series of actions with the given costs.
pub open spec fn energy_after_all(energy: usize, costs: Seq<usize>) -> usize
    decreases costs.len(),
{
    if costs.len() == 0 {
        energy
    } else {
        energy_after(energy_after_all(energy, costs.drop_last()), costs.last())
    }
}

impl ProcessTurn {
    /// Looks at the actor's energy after the movement of this tick.  On the
    /// player's turn with no energy left, the turn passes to the enemy and
    /// the highlight is hidden; otherwise nothing changes.  Returns whether
    /// the turn ended.
    pub fn run(&mut self, game_state: &mut GameState, player: &Player, highlight: &mut Sprite) -> (ended:
        bool)
        ensures
            ended == turn_ends(old(game_state).turn, player.energy),
            final(game_state).turn == turn_after(old(game_state).turn, player.energy),
            final(highlight).visible == (old(highlight).visible && !ended),
            final(highlight).frame_name == old(highlight).frame_name,
    {
        if game_state.turn == Turn::Player && player.energy == 0 {
            game_state.turn = Turn::Enemy;
            if highlight.visible {
                highlight.visible = false;
            }
            true
        } else {
            false
        }
    }
}

/// However many actions are paid for, the energy never rises, and each
/// further action leaves no more than the one before.
pub proof fn lemma_energy_never_rises(energy: usize, costs: Seq<usize>, n: int)
    requires
        0 <= n <= costs.len(),
    ensures
        0 <= energy_after_all(energy, costs) <= energy_after_all(energy, costs.take(n)) <= energy,
    decreases costs.len(),
{
    if costs.len() == 0 {
        assert(costs.take(n) =~= costs);
    } else if n == costs.len() {
        assert(costs.take(n) =~= costs);
        lemma_energy_never_rises(energy, costs.drop_last(), 0);
    } else {
        lemma_energy_never_rises(energy, costs.drop_last(), n);
        assert(costs.drop_last().take(n) =~= costs.take(n));
    }
}

/// Within a player's turn the turn passes to the enemy exactly once: in the
/// first tick that finds the actor without energy, and in no other.
pub proof fn lemma_turn_ends_once(energies: Seq<usize>, k: int)
    requires
        0 <= k < energies.len(),
    ensures
        turn_ends(turn_after_ticks(energies.take(k)), energies[k]) <==> energies[k] == 0
            && forall|j: int| 0 <= j < k ==> energies[j] != 0,
        turn_after_ticks(energies.take(k)) == Turn::Player <==> forall|j: int|
            0 <= j < k ==> energies[j] != 0,
    decreases k,
{
    let before = energies.take(k);
    if k > 0 {
        lemma_turn_ends_once(energies, k - 1);
        assert(before.drop_last() =~= energies.take(k - 1));
        assert(before.last() == energies[k - 1]);
    }
}

} // verus!
