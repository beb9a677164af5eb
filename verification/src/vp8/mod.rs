//! The lossy (VP8) decoder's picture layout, intra-mode edge rules and
//! entropy decoder.
//!
//! The picture is one flat `Vec<u8>` holding all three planes, each addressed
//! by offset into its own slice of it. The decoder reads and writes outside
//! the visible frame (the left border column, the row above the first
//! macroblock, the samples above and to the right of a subblock), so every
//! plane carries padding all round, and those accesses are ordinary indices.

use vstd::prelude::*;
use crate::error::{Error, Result};
use crate::dsp::vp8pred::{DC_PRED8X8, DC_128_PRED8X8, LEFT_DC_PRED8X8, TOP_DC_PRED8X8};

pub mod rac;
pub mod frame;
pub mod coeffs;
pub mod header;

verus! {

/// Rows of padding above and below a plane.
pub const PLANE_ROW_PAD: usize = 32;
/// Bytes of padding to the left of every row.
pub const PLANE_COL_PAD: usize = 64;
/// The alignment every plane's visible rows start at.
pub const ALIGN: usize = 64;

/// Where one plane sits inside the picture's allocation, with the padding the
/// border logic relies on. `origin` is the offset of the visible top-left
/// sample within the plane's own slice.
#[derive(Clone, Copy, Debug, PartialEq, Eq, Structural)]
pub struct Plane {
    pub stride: usize,
    pub origin: usize,
    /// Offset of the plane inside the picture's data, and how far it runs.
    pub base: usize,
    pub len: usize,
}

/// `v` rounded down to a multiple of 64.
pub open spec fn floor64(v: int) -> int {
    v - v % 64
}

/// The stride a plane `width` samples wide is allocated at: the row and its
/// left padding rounded up to the alignment, and moved off any multiple of
/// 1024, where rows would alias in the caches.
pub open spec fn spec_stride_for(width: int) -> int {
    let s = floor64(width + PLANE_COL_PAD + ALIGN - 1);
    if s % 1024 == 0 {
        s + ALIGN
    } else {
        s
    }
}

impl Plane {
    /// An empty plane.
    pub fn empty() -> (r: Plane)
        ensures
            r == (Plane { stride: 0, origin: 0, base: 0, len: 0 }),
    {
        Plane { stride: 0, origin: 0, base: 0, len: 0 }
    }

    /// The stride a plane of `width` samples is allocated at.
    pub fn stride_for(width: usize) -> (r: usize)
        requires
            width + PLANE_COL_PAD + 2 * ALIGN <= usize::MAX,
        ensures
            r == spec_stride_for(width as int),
            r % 64 == 0,
            r % 1024 != 0,
            r >= width + PLANE_COL_PAD,
    {
        let v = width + PLANE_COL_PAD + ALIGN - 1;
        let stride = v - v % 64;
        if stride % 1024 == 0 {
            stride + ALIGN
        } else {
            stride
        }
    }

    /// The offset of the sample at `(x, y)` in the visible frame.
    pub fn at(&self, x: usize, y: usize) -> (r: usize)
        requires
            self.origin + y * self.stride + x <= usize::MAX,
        ensures
            r == self.origin + y * self.stride + x,
    {
        proof {
            assert(0 <= y * self.stride) by (nonlinear_arith)
                requires
                    y >= 0,
                    self.stride >= 0,
            ;
        }
        self.origin + y * self.stride + x
    }
}

/// The three planes of a decoded frame, in one allocation.
pub struct Picture {
    pub data: Vec<u8>,
    pub planes: [Plane; 3],
    /// Whether the planes describe the frame about to be decoded.
    pub ready: bool,
}

/// The room one plane of `w` by `h` samples takes at stride `stride`: its
/// rows and their padding, rounded up to the alignment.
pub open spec fn plane_len(h: int, stride: int) -> int {
    let n = (h + 2 * PLANE_ROW_PAD) * stride + 2 * ALIGN;
    if n % 64 == 0 {
        n
    } else {
        n - n % 64 + 64
    }
}

/// The bytes the three planes of a `width` by `height` frame take, with the
/// room the first is moved down by to align it.
pub open spec fn lay_total(width: int, height: int) -> int {
    let cw = (width + 1) / 2;
    let ch = (height + 1) / 2;
    ALIGN + plane_len(height, spec_stride_for(width)) + 2 * plane_len(ch, spec_stride_for(cw))
}

/// The address a vector's first byte sits at.
#[verifier::external_body]
fn address_of(data: &Vec<u8>) -> usize {
    data.as_ptr() as usize
}

/// Whether `planes` is the layout of a `width` by `height` frame whose first
/// plane starts at `start`: luma, then two chroma planes of half the size
/// rounded up, one after another.
pub open spec fn laid_out(planes: [Plane; 3], width: int, height: int, start: int) -> bool {
    let cw = (width + 1) / 2;
    let ch = (height + 1) / 2;
    &&& planes[0].stride == spec_stride_for(width)
    &&& planes[1].stride == spec_stride_for(cw)
    &&& planes[2].stride == spec_stride_for(cw)
    &&& planes[0].len == plane_len(height, planes[0].stride as int)
    &&& planes[1].len == plane_len(ch, planes[1].stride as int)
    &&& planes[2].len == plane_len(ch, planes[2].stride as int)
    &&& forall|p: int| 0 <= p < 3 ==> #[trigger] planes[p].origin == PLANE_ROW_PAD * planes[p].stride + PLANE_COL_PAD
    &&& planes[0].base == start
    &&& planes[1].base == planes[0].base + planes[0].len
    &&& planes[2].base == planes[1].base + planes[1].len
}

impl Picture {
    pub closed spec fn is_ready(&self) -> bool {
        self.ready
    }

    /// A picture with nothing laid out.
    pub fn new() -> (r: Picture)
        ensures
            r.data@.len() == 0,
            !r.is_ready(),
    {
        Picture { data: Vec::new(), planes: [Plane::empty(), Plane::empty(), Plane::empty()], ready: false }
    }

    /// One plane's layout for a `w` by `h` plane starting at `base`, or
    /// `None` when it does not fit in memory.
    fn lay_plane(w: usize, h: usize, base: usize) -> (r: Option<Plane>)
        ensures
            r matches Some(pl) ==> pl.stride == spec_stride_for(w as int) && pl.len == plane_len(
                h as int,
                pl.stride as int,
            ) && pl.origin == PLANE_ROW_PAD * pl.stride + PLANE_COL_PAD && pl.base == base && base + pl.len
                <= usize::MAX,
            // A plane of the sizes a VP8 frame can have always fits.
            w <= 0x4000 && h <= 0x4000 && base <= 0x4000_0000 ==> (r matches Some(pl) && pl.len <= 0x1100_0000),
    {
        if w > usize::MAX - (PLANE_COL_PAD + 2 * ALIGN) {
            return None;
        }
        let stride = Plane::stride_for(w);
        proof {
            if w <= 0x4000 && h <= 0x4000 {
                assert(stride <= w + 192);
                assert((h + 2 * PLANE_ROW_PAD) * stride + 2 * ALIGN + 64 <= 0x1100_0000) by (nonlinear_arith)
                    requires
                        h <= 0x4000,
                        stride <= w + 192,
                        w <= 0x4000,
                ;
                assert(PLANE_ROW_PAD * stride + PLANE_COL_PAD <= 0x10_0000);
            }
        }
        let rows = match h.checked_add(2 * PLANE_ROW_PAD) {
            Some(n) => n,
            None => return None,
        };
        let n = match rows.checked_mul(stride) {
            Some(n) => n,
            None => return None,
        };
        let n = match n.checked_add(2 * ALIGN) {
            Some(n) => n,
            None => return None,
        };
        let len = if n % 64 == 0 {
            n
        } else {
            match (n - n % 64).checked_add(64) {
                Some(m) => m,
                None => return None,
            }
        };
        let origin = match (PLANE_ROW_PAD as usize).checked_mul(stride) {
            Some(o) => match o.checked_add(PLANE_COL_PAD) {
                Some(o2) => o2,
                None => return None,
            },
            None => return None,
        };
        match base.checked_add(len) {
            Some(_) => {},
            None => return None,
        }
        Some(Plane { stride, origin, base, len })
    }

    /// Lays the three planes out for a `width` by `height` frame and clears
    /// them, reusing the block when what is there is already big enough.
    /// Planes follow each other without overlapping, and the first starts
    /// where its visible rows are 64-byte aligned in memory.
    pub fn allocate(&mut self, width: usize, height: usize) -> (r: Result<()>)
        ensures
            r is Ok ==> {
                &&& final(self).is_ready()
                &&& exists|start: int|
                    0 <= start < ALIGN && laid_out(final(self).planes, width as int, height as int, start)
                &&& final(self).planes[2].base + final(self).planes[2].len <= final(self).data@.len()
                &&& forall|i: int|
                    final(self).planes[0].base <= i < final(self).planes[2].base + final(self).planes[2].len
                        ==> #[trigger] final(self).data@[i] == 0
                &&& final(self).data@.len() >= old(self).data@.len()
            },
            r is Err ==> r == Err::<(), Error>(Error::TooLarge) || r == Err::<(), Error>(Error::NoMemory),
            // No frame VP8 can code is too large: only the allocator can fail it.
            width <= 0x4000 && height <= 0x4000 && r is Err ==> r == Err::<(), Error>(Error::NoMemory),
            // A block already big enough is reused, so nothing can fail.
            width <= 0x4000 && height <= 0x4000 && old(self).data@.len() >= lay_total(width as int, height as int) ==> r is Ok,
    {
        let cw = width / 2 + width % 2;
        let ch = height / 2 + height % 2;
        let p0 = match Self::lay_plane(width, height, ALIGN) {
            Some(pl) => pl,
            None => return Err(Error::TooLarge),
        };
        let p1 = match Self::lay_plane(cw, ch, p0.base + p0.len) {
            Some(pl) => pl,
            None => return Err(Error::TooLarge),
        };
        let p2 = match Self::lay_plane(cw, ch, p1.base + p1.len) {
            Some(pl) => pl,
            None => return Err(Error::TooLarge),
        };
        let total = p2.base + p2.len;
        proof {
            assert(width / 2 + width % 2 == (width + 1) / 2);
            assert(height / 2 + height % 2 == (height + 1) / 2);
        }
        if self.data.len() < total {
            self.data.clear();
            if self.data.try_reserve(total).is_err() {
                return Err(Error::NoMemory);
            }
            let mut i: usize = 0;
            while i < total
                invariant
                    i <= total,
                    self.data@.len() == i,
                    forall|k: int| 0 <= k < i ==> #[trigger] self.data@[k] == 0,
                decreases total - i,
            {
                self.data.push(0);
                i = i + 1;
            }
        } else {
            let mut i: usize = 0;
            while i < total
                invariant
                    i <= total,
                    total <= self.data@.len(),
                    self.data@.len() == old(self).data@.len(),
                    forall|k: int| 0 <= k < i ==> #[trigger] self.data@[k] == 0,
                decreases total - i,
            {
                self.data.set(i, 0);
                i = i + 1;
            }
        }
        /* Vec only promises byte alignment; the planes are moved down by up
        to the alignment so that the first one lands on a 64-byte boundary. */
        let addr = address_of(&self.data);
        let pad = (ALIGN - addr % ALIGN) % ALIGN;
        let shift = ALIGN - pad;
        self.planes = [
            Plane { base: p0.base - shift, ..p0 },
            Plane { base: p1.base - shift, ..p1 },
            Plane { base: p2.base - shift, ..p2 },
        ];
        self.ready = true;
        proof {
            assert(laid_out(self.planes, width as int, height as int, pad as int));
        }
        Ok(())
    }

    /// Drops the layout without giving the memory back, which is what a frame
    /// size change does: the next frame lays itself out over the same block.
    pub fn invalidate(&mut self)
        ensures
            !final(self).is_ready(),
            final(self).data@ == old(self).data@,
            forall|p: int| 0 <= p < 3 ==> #[trigger] final(self).planes[p] == (Plane { stride: 0, origin: 0, base: 0, len: 0 }),
    {
        self.planes = [Plane::empty(), Plane::empty(), Plane::empty()];
        self.ready = false;
    }

    pub fn allocated(&self) -> (r: bool)
        ensures
            r == self.is_ready(),
    {
        self.ready
    }

    /// Plane `p`'s own slice, which its offsets are relative to.
    pub fn plane(&self, p: usize) -> (r: &[u8])
        requires
            p < 3,
            self.planes[p as int].base + self.planes[p as int].len <= self.data@.len(),
        ensures
            r@ == self.data@.subrange(
                self.planes[p as int].base as int,
                self.planes[p as int].base + self.planes[p as int].len,
            ),
    {
        let n = self.data.len();
        let base = self.planes[p].base;
        let len = self.planes[p].len;
        &self.data.as_slice()[base..base + len]
    }
}

impl Default for Picture {
    fn default() -> (r: Self)
        ensures
            r.data@.len() == 0,
            !r.is_ready(),
    {
        Picture::new()
    }
}

/// The chroma prediction mode a macroblock actually uses: a DC mode on the
/// top or left edge of the frame falls back to the DC of whichever neighbours
/// exist, or to the flat value where there are none.
pub fn check_intra_pred8x8_mode(mode: usize, mb_x: usize, mb_y: usize) -> (r: usize)
    ensures
        mode != DC_PRED8X8 ==> r == mode,
        mode == DC_PRED8X8 ==> r == if mb_x == 0 {
            if mb_y != 0 { TOP_DC_PRED8X8 } else { DC_128_PRED8X8 }
        } else if mb_y != 0 {
            DC_PRED8X8
        } else {
            LEFT_DC_PRED8X8
        },
{
    if mode != DC_PRED8X8 {
        return mode;
    }
    if mb_x == 0 {
        return if mb_y != 0 {
            TOP_DC_PRED8X8
        } else {
            DC_128_PRED8X8
        };
    }
    if mb_y != 0 {
        mode
    } else {
        LEFT_DC_PRED8X8
    }
}

} // verus!
