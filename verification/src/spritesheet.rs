//! The layout of a sprite sheet: where each frame lies in the image.

use vstd::prelude::*;

verus! {

/// A rectangle in the image, in pixels.
pub struct FrameData {
    pub x: usize,
    pub y: usize,
    pub w: usize,
    pub h: usize,
}

pub struct Size {
    pub w: usize,
    pub h: usize,
}

/// One frame of the sheet, under the names that the sheet's file uses.
#[allow(non_snake_case)]
pub struct Frame {
    pub filename: String,
    pub frame: FrameData,
    pub rotated: bool,
    pub trimmed: bool,
    pub spriteSourceSize: FrameData,
    pub sourceSize: Size,
}

pub struct Meta {
    pub size: Size,
}

pub struct Spritesheet {
    pub frames: Vec<Frame>,
    pub meta: Meta,
}

} // verus!
