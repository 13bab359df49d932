use vstd::prelude::*;

verus! {

/// What the actor is doing.
#[derive(Clone, Copy, Debug, PartialEq, Eq, Structural)]
pub enum PlayerActionState {
    OnGround,
    Moving,
    Jumping,
    InAir,
}

/// Energy of an actor at the start of its turn.
pub const BASE_ENERGY: usize = 10;

/// The movement state of an actor and its energy for the turn.
pub struct Player {
    pub action_state: PlayerActionState,
    /// The cells still to pass, next one first.
    pub movement_route: Vec<(usize, usize)>,
    /// The farthest tile a jump can reach, in steps along the axes.
    pub jump_distance: usize,
    pub energy: usize,
}

/// Energy left after an action of the given cost: the cost is taken off, and
/// a cost that the pool cannot cover empties it.
pub open spec fn energy_after(energy: usize, cost: usize) -> usize {
    if cost >= energy {
        0
    } else {
        (energy - cost) as usize
    }
}

impl Player {
    /// An actor standing on the ground with a full pool of energy.
    pub fn new() -> (player: Player)
        ensures
            player.action_state == PlayerActionState::OnGround,
            player.movement_route@.len() == 0,
            player.jump_distance == 8,
            player.energy == BASE_ENERGY,
    {
        Player {
            action_state: PlayerActionState::OnGround,
            movement_route: Vec::new(),
            jump_distance: 8,
            energy: BASE_ENERGY,
        }
    }

    pub fn moving(&self) -> (yes: bool)
        ensures
            yes == (self.action_state == PlayerActionState::Moving),
    {
        self.action_state == PlayerActionState::Moving
    }

    pub fn jumping(&self) -> (yes: bool)
        ensures
            yes == (self.action_state == PlayerActionState::Jumping),
    {
        self.action_state == PlayerActionState::Jumping
    }

    pub fn in_air(&self) -> (yes: bool)
        ensures
            yes == (self.action_state == PlayerActionState::InAir),
    {
        self.action_state == PlayerActionState::InAir
    }

    /// Refills the pool for a new turn.
    pub fn reset_energy(&mut self)
        ensures
            final(self).energy == BASE_ENERGY,
            final(self).action_state == old(self).action_state,
            final(self).movement_route == old(self).movement_route,
            final(self).jump_distance == old(self).jump_distance,
    {
        self.energy = BASE_ENERGY;
    }

    /// Takes the cost of an action off the pool, which never drops below
    /// zero.  Returns whether the action used up all that was left.
    pub fn take_energy(&mut self, energy: usize) -> (spent: bool)
        ensures
            final(self).energy == energy_after(old(self).energy, energy),
            final(self).energy <= old(self).energy,
            spent == (energy >= old(self).energy),
            final(self).action_state == old(self).action_state,
            final(self).movement_route == old(self).movement_route,
            final(self).jump_distance == old(self).jump_distance,
    {
        if energy >= self.energy {
            self.energy = 0;
            true
        } else {
            self.energy -= energy;
            false
        }
    }
}

} // verus!
