use vstd::prelude::*;

verus! {

/// Marks the entity that displays the actor's energy.
pub struct EnergyBar;

impl EnergyBar {
    /// Width of the bar, in pixels, at full energy.
    pub fn get_max_width() -> (width: u16)
        ensures
            width == 150,
    {
        150
    }
}

} // verus!
