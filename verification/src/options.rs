//! What a decode was asked to do to the picture on the way out.

use vstd::prelude::*;

verus! {

/// The crop, scale and flip a decode may apply on the way out.
#[derive(Clone, Copy, Default, PartialEq, Eq, Debug)]
pub struct Options {
    /// Skip the in-loop filter of a lossy frame. Faster and not bit-exact.
    pub bypass_filtering: bool,
    /// Point-sample chroma instead of interpolating it.
    pub no_fancy_upsampling: bool,
    /// `(left, top, width, height)`, in the source's coordinates.
    pub crop: Option<(i32, i32, i32, i32)>,
    /// `(width, height)`; either may be zero to keep the aspect ratio.
    pub scale: Option<(i32, i32)>,
    /// Hand the picture out bottom row first.
    pub flip: bool,
}

impl Options {
    /// Whether anything here changes the picture's geometry.
    pub fn transforms(&self) -> (r: bool)
        ensures
            r <==> (self.crop is Some || self.scale is Some || self.flip),
    {
        self.crop.is_some() || self.scale.is_some() || self.flip
    }

    /// The crop rectangle, or the whole of a `w` by `h` picture.
    pub fn crop_or(&self, w: i32, h: i32) -> (r: (i32, i32, i32, i32))
        ensures
            r == (match self.crop {
                Some(c) => c,
                None => (0i32, 0i32, w, h),
            }),
    {
        match self.crop {
            Some(c) => c,
            None => (0, 0, w, h),
        }
    }
}

} // verus!
