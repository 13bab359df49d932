use vstd::prelude::*;

verus! {

/// Marks an entity as belonging to the opposing side.
pub struct Enemy;

} // verus!
