use vstd::prelude::*;

verus! {

/// Marks the entity that shows where the actor would go.
#[derive(Debug)]
pub struct HighlightTile;

} // verus!
