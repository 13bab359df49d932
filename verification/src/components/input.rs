use vstd::prelude::*;

verus! {

/// What the player asks for in one tick: where the cursor is, in pixels from
/// the left and top edges of the level, and whether the move is confirmed.
#[derive(Debug)]
pub struct Input {
    pub mouse_pos: (i32, i32),
    pub mouse_pressed: bool,
}

impl Input {
    /// The cursor in the corner, nothing confirmed.
    pub fn new() -> (input: Input)
        ensures
            input.mouse_pos == (0i32, 0i32),
            !input.mouse_pressed,
    {
        Input { mouse_pos: (0, 0), mouse_pressed: false }
    }
}

} // verus!
