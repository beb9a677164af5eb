//! The decode driver's settings and the output-format questions it answers.

use vstd::prelude::*;

pub mod convert;

verus! {

/// The output format number that names none.
pub const FORMAT_NONE: i32 = -1;
/// Animation frames come out composited onto the canvas.
pub const ANIM_COMPOSITED: i32 = 0;
/// Animation frames come out as the sub-frames the file holds.
pub const ANIM_SUBFRAME: i32 = 1;

} // verus!
