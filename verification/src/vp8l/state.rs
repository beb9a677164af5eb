//! What the lossless decoder keeps between calls: the transforms a stream may
//! apply, its pictures, the prefix-code groups, and where an interrupted pixel
//! loop stopped.

use vstd::prelude::*;
use crate::error::{Error, Result};
use super::huffman::Reader;

verus! {

/// How many prefix codes make up one group: green with the length prefixes,
/// red, blue, alpha, and the distance prefixes.
pub const HUFFMAN_CODES_PER_META_CODE: usize = 5;

/// The slack left past the last pixel of a picture, in pixels.
pub const PADDING: usize = 16;

/// The four transforms a lossless stream can ask for, by their two-bit code.
#[derive(Clone, Copy, PartialEq, Eq, Debug, Structural)]
pub enum Transform {
    Predictor,
    Color,
    SubtractGreen,
    ColorIndexing,
}

/// The transform a two-bit code names; the code is read as its low two bits
/// would be, every value past the third naming the colour-indexing transform.
pub open spec fn transform_of(v: u32) -> Transform {
    if v == 0 {
        Transform::Predictor
    } else if v == 1 {
        Transform::Color
    } else if v == 2 {
        Transform::SubtractGreen
    } else {
        Transform::ColorIndexing
    }
}

impl Transform {
    pub fn from_bits(v: u32) -> (r: Self)
        ensures
            r == transform_of(v),
    {
        match v {
            0 => Transform::Predictor,
            1 => Transform::Color,
            2 => Transform::SubtractGreen,
            _ => Transform::ColorIndexing,
        }
    }
}

/// Which of the decoder's output pictures a decode fills in.
#[derive(Clone, Copy, PartialEq, Eq, Debug, Structural)]
pub enum Target {
    Argb,
    Alpha,
}

/// A picture, one pixel per `u32`, rows contiguous at `stride`.
pub struct Picture {
    pub data: Vec<u32>,
    pub stride: usize,
    pub width: i32,
    pub height: i32,
}

impl Default for Picture {
    fn default() -> (r: Self)
        ensures
            r.data@.len() == 0,
            r.stride == 0,
            r.width == 0,
            r.height == 0,
    {
        Picture { data: Vec::new(), stride: 0, width: 0, height: 0 }
    }
}

impl Picture {
    /// Sizes the picture to `w` by `h` (and the padding past it) and zeroes
    /// that much, keeping the buffer when it is already large enough. A size
    /// that is not positive, or that does not fit in memory's address range,
    /// is refused as too large; a buffer that has to grow and cannot is left
    /// empty.
    pub fn allocate(&mut self, w: i32, h: i32) -> (r: Result<()>)
        ensures
            ({
                let size = w * h + PADDING;
                if w <= 0 || h <= 0 || size > usize::MAX {
                    &&& r == Err::<(), Error>(Error::TooLarge)
                    &&& final(self).data@ == old(self).data@
                    &&& final(self).stride == old(self).stride
                    &&& final(self).width == old(self).width
                    &&& final(self).height == old(self).height
                } else if r is Err {
                    &&& r == Err::<(), Error>(Error::NoMemory)
                    &&& old(self).data@.len() < size
                    &&& final(self).data@.len() == 0
                    &&& final(self).stride == old(self).stride
                    &&& final(self).width == old(self).width
                    &&& final(self).height == old(self).height
                } else {
                    &&& final(self).stride == w
                    &&& final(self).width == w
                    &&& final(self).height == h
                    &&& forall|i: int| 0 <= i < size ==> #[trigger] final(self).data@[i] == 0
                    &&& if old(self).data@.len() >= size {
                        &&& final(self).data@.len() == old(self).data@.len()
                        &&& forall|i: int| size <= i < old(self).data@.len() ==> #[trigger] final(self).data@[i]
                            == old(self).data@[i]
                    } else {
                        final(self).data@.len() == size
                    }
                }
            }),
            w > 0 && h > 0 && w * h + PADDING <= usize::MAX && old(self).data@.len() >= w * h + PADDING ==> r is Ok,
    {
        if w <= 0 || h <= 0 {
            return Err(Error::TooLarge);
        }
        let n = match (w as usize).checked_mul(h as usize) {
            Some(n) => n,
            None => return Err(Error::TooLarge),
        };
        let size = match n.checked_add(PADDING) {
            Some(s) => s,
            None => return Err(Error::TooLarge),
        };
        if self.data.len() < size {
            self.data.clear();
            if self.data.try_reserve(size).is_err() {
                return Err(Error::NoMemory);
            }
            self.data.resize(size, 0);
            assert forall|i: int| 0 <= i < size implies #[trigger] self.data@[i] == 0 by {
                assert(cloned::<u32>(0, self.data@[i]));
            }
        } else {
            let ghost before = self.data@;
            let mut i: usize = 0;
            while i < size
                invariant
                    i <= size,
                    size <= before.len(),
                    self.data@.len() == before.len(),
                    forall|k: int| 0 <= k < i ==> #[trigger] self.data@[k] == 0,
                    forall|k: int| i <= k < self.data@.len() ==> #[trigger] self.data@[k] == before[k],
                decreases size - i,
            {
                self.data.set(i, 0);
                i = i + 1;
            }
        }
        self.stride = w as usize;
        self.width = w;
        self.height = h;
        Ok(())
    }

    /// Gives the buffer back.
    pub fn release(&mut self)
        ensures
            final(self).data@.len() == 0,
            final(self).stride == 0,
            final(self).width == 0,
            final(self).height == 0,
    {
        *self = Picture::default();
    }
}

/// One sub-image a transform is described by: its pixels, and how many low
/// bits of the picture's coordinates each of its pixels covers.
pub struct ImageContext {
    pub storage: Picture,
    pub size_reduction: u32,
}

/// Where the pixel loop left off, so a chunk that ran out mid-image can be
/// picked up once more of it has arrived.
#[derive(Clone, Copy, Default)]
pub struct Resume {
    pub pos: usize,
    pub cached: usize,
    pub x: i32,
    pub y: i32,
    pub hg: usize,
    pub rows_done: i32,
}

/// One meta prefix code: the five trees a pixel is read with, and the shortcut
/// for a group whose three non-green channels never vary.
#[derive(Clone, Copy, Default)]
pub struct HTreeGroup {
    pub trees: [Reader; 5],
    pub trivial_literal: bool,
    pub literal: [u8; 4],
}

/// Sizes a reused scratch buffer to at least `len` entries, the new ones
/// copies of `fill`, falling back to an error rather than an abort when the
/// allocator cannot manage it. A buffer already that long is left alone.
pub fn grow<T: Copy>(buf: &mut Vec<T>, len: usize, fill: T) -> (r: Result<()>)
    ensures
        old(buf)@.len() >= len ==> r is Ok && final(buf)@ == old(buf)@,
        old(buf)@.len() < len && r is Err ==> r == Err::<(), Error>(Error::NoMemory) && final(buf)@ == old(buf)@,
        old(buf)@.len() < len && r is Ok ==> {
            &&& final(buf)@.len() == len
            &&& final(buf)@.subrange(0, old(buf)@.len() as int) == old(buf)@
            &&& forall|i: int| old(buf)@.len() <= i < len ==> cloned::<T>(fill, #[trigger] final(buf)@[i])
        },
{
    if buf.len() < len {
        if buf.try_reserve(len - buf.len()).is_err() {
            return Err(Error::NoMemory);
        }
        buf.resize(len, fill);
    }
    Ok(())
}

} // verus!
