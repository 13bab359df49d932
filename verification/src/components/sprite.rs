use vstd::prelude::*;

verus! {

/// A frame of the sprite sheet and whether it is drawn.
pub struct Sprite {
    pub frame_name: String,
    pub visible: bool,
}

} // verus!
