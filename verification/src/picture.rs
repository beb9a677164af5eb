//! Pictures, and the two ways the decoder holds one.
//!
//! A [`Buffer`] owns plane memory and is reused frame to frame; a [`Frame`] or
//! [`FrameMut`] is a borrowed view of pixels, which may be a buffer's or one
//! of the codecs'.
//!
//! # Crops and flips
//!
//! A view carries them: `origin` is the offset of row zero and `flip` says
//! the rows come out bottom-first. Every reader goes through [`Frame::row`],
//! which applies both.

use vstd::prelude::*;
use crate::error::{Error, Result};
use crate::image::{ceil_rshift, plane_size, spec_bpp, spec_ceil_rshift, spec_planes, Format, FILE_PADDING};

verus! {

/// How many planes a format hands out.
pub fn planes_of(format: Format) -> (r: usize)
    ensures
        r == spec_planes(format),
{
    match format {
        Format::Yuva420p => 4,
        Format::Yuv420p => 3,
        _ => 1,
    }
}

/// How far plane `p` is subsampled in each direction: by two for the two
/// chroma planes.
pub open spec fn chroma_shift(p: int) -> int {
    if p == 1 || p == 2 {
        1
    } else {
        0
    }
}

fn chroma(p: usize) -> (r: u32)
    ensures
        r as int == chroma_shift(p as int),
{
    if p == 1 || p == 2 {
        1
    } else {
        0
    }
}

/// The width in bytes of plane `p` of a `width`-wide picture in `format`.
pub open spec fn plane_row_len(format: Format, width: int, p: int) -> int {
    if spec_planes(format) == 1 {
        width * spec_bpp(format)
    } else {
        spec_ceil_rshift(width, chroma_shift(p))
    }
}

/// How many rows plane `p` of a `height`-high picture in `format` has.
pub open spec fn plane_rows(format: Format, height: int, p: int) -> int {
    if spec_planes(format) == 1 {
        height
    } else {
        spec_ceil_rshift(height, chroma_shift(p))
    }
}

/// One plane's memory, kept across frames and grown on demand.
pub struct Plane {
    data: Vec<u8>,
    stride: usize,
}

impl Plane {
    pub closed spec fn bytes(&self) -> Seq<u8> {
        self.data@
    }

    pub closed spec fn stride_of(&self) -> usize {
        self.stride
    }

    /// Zeroed room for `rows` rows of `stride` bytes, `size` bytes in all,
    /// reusing what is there when it is already big enough. Only what is
    /// asked for is cleared. When more room is needed and none can be had,
    /// the plane is left empty.
    fn resize(&mut self, stride: usize, rows: i32, size: usize) -> (r: Result<()>)
        requires
            rows >= 0,
        ensures
            r is Ok ==> {
                &&& final(self).stride_of() == stride
                &&& final(self).bytes().len() >= size
                &&& forall|i: int| 0 <= i < size ==> #[trigger] final(self).bytes()[i] == 0
                &&& old(self).bytes().len() >= size ==> final(self).bytes().len() == old(self).bytes().len()
                    && forall|i: int| size <= i < old(self).bytes().len() ==> #[trigger] final(self).bytes()[i]
                    == old(self).bytes()[i]
            },
            r is Err ==> r == Err::<(), Error>(Error::NoMemory) && old(self).bytes().len() < size
                && final(self).bytes().len() == 0,
            old(self).bytes().len() >= size ==> r is Ok,
    {
        if self.data.len() < size {
            self.data.clear();
            if self.data.try_reserve(size).is_err() {
                return Err(Error::NoMemory);
            }
            let mut i: usize = 0;
            while i < size
                invariant
                    i <= size,
                    self.data@.len() == i,
                    forall|k: int| 0 <= k < i ==> #[trigger] self.data@[k] == 0,
                decreases size - i,
            {
                self.data.push(0);
                i = i + 1;
            }
        } else {
            let mut i: usize = 0;
            while i < size
                invariant
                    i <= size,
                    size <= old(self).data@.len(),
                    self.data@.len() == old(self).data@.len(),
                    forall|k: int| 0 <= k < i ==> #[trigger] self.data@[k] == 0,
                    forall|k: int| i <= k < self.data@.len() ==> #[trigger] self.data@[k] == old(self).data@[k],
                decreases size - i,
            {
                self.data.set(i, 0);
                i = i + 1;
            }
        }
        self.stride = stride;
        Ok(())
    }

    fn release(&mut self)
        ensures
            final(self).bytes().len() == 0,
            final(self).stride_of() == 0,
    {
        self.data = Vec::new();
        self.stride = 0;
    }
}

/// Plane memory the decoder owns.
pub struct Buffer {
    pub plane: [Plane; 4],
    pub width: i32,
    pub height: i32,
    pub format: Option<Format>,
    /// Set when the rescaler has brought U and V up to full resolution.
    pub chroma_full: bool,
    /// Set when the colour channels already carry alpha, as the animation
    /// canvas does for a premultiplied output format.
    pub premultiplied: bool,
}

/// A plane `p` holding at least `size` bytes, the first `size` of them zero,
/// at stride `stride`.
pub open spec fn cleared(b: &Buffer, p: int, stride: int, size: int) -> bool {
    &&& b.plane_stride(p) == stride
    &&& b.plane_bytes(p).len() >= size
    &&& forall|i: int| 0 <= i < size ==> #[trigger] b.plane_bytes(p)[i] == 0
}

/// Plane `p` laid out for a `w` by `h` planar picture, its chroma
/// subsampled or not.
pub open spec fn planar_plane_ok(b: &Buffer, p: int, w: int, h: int, subsample: bool) -> bool {
    let s = if subsample { chroma_shift(p) } else { 0 };
    let pw = spec_ceil_rshift(w, s);
    let ph = spec_ceil_rshift(h, s);
    cleared(b, p, pw, plane_room(pw, ph, 1)->0)
}

/// The room plane `p` of a `w` by `h` planar picture takes, its chroma
/// subsampled or not, when there is such a plane.
pub open spec fn planar_room(w: int, h: int, subsample: bool, p: int) -> Option<int> {
    let s = if subsample { chroma_shift(p) } else { 0 };
    plane_room(spec_ceil_rshift(w, s), spec_ceil_rshift(h, s), 1)
}

/// Whether every plane of `b` already holds the room a `w` by `h` planar
/// picture needs of it.
pub open spec fn planar_fits(b: &Buffer, w: int, h: int, subsample: bool) -> bool {
    forall|p: int| 0 <= p < 4 ==> #[trigger] planar_room(w, h, subsample, p) is Some
        && b.plane_bytes(p).len() >= planar_room(w, h, subsample, p)->0
}

/// The room a `w` by `h` plane of `bpp` bytes per pixel takes, when there is
/// such a plane.
pub open spec fn plane_room(w: int, h: int, bpp: int) -> Option<int> {
    if w > 0 && h > 0 && w * bpp * h + FILE_PADDING <= usize::MAX {
        Some(w * bpp * h + FILE_PADDING)
    } else {
        None
    }
}

impl Buffer {
    pub closed spec fn plane_bytes(&self, p: int) -> Seq<u8> {
        self.plane[p].data@
    }

    pub closed spec fn plane_stride(&self, p: int) -> usize {
        self.plane[p].stride
    }

    /// A buffer that holds nothing.
    pub fn new() -> (r: Buffer)
        ensures
            r.is_released(),
    {
        Buffer {
            plane: [
                Plane { data: Vec::new(), stride: 0 },
                Plane { data: Vec::new(), stride: 0 },
                Plane { data: Vec::new(), stride: 0 },
                Plane { data: Vec::new(), stride: 0 },
            ],
            width: 0,
            height: 0,
            format: None,
            chroma_full: false,
            premultiplied: false,
        }
    }

    /// Whether every plane is empty and the description is reset.
    pub open spec fn is_released(&self) -> bool {
        &&& forall|p: int| 0 <= p < 4 ==> #[trigger] self.plane_bytes(p).len() == 0 && self.plane_stride(p) == 0
        &&& self.width == 0
        &&& self.height == 0
        &&& self.format is None
        &&& !self.chroma_full
        &&& !self.premultiplied
    }

    pub fn is_empty(&self) -> (r: bool)
        ensures
            r == (self.plane_bytes(0).len() == 0),
    {
        self.plane[0].data.len() == 0
    }

    /// Gives every plane's memory back.
    pub fn release(&mut self)
        ensures
            final(self).is_released(),
    {
        self.plane[0].release();
        self.plane[1].release();
        self.plane[2].release();
        self.plane[3].release();
        self.width = 0;
        self.height = 0;
        self.format = None;
        self.chroma_full = false;
        self.premultiplied = false;
    }

    /// One plane of `bpp` bytes per pixel, and nothing in the other three.
    pub fn alloc_packed(&mut self, w: i32, h: i32, bpp: usize, format: Format) -> (r: Result<()>)
        ensures
            plane_room(w as int, h as int, bpp as int) is None ==> r == Err::<(), Error>(Error::TooLarge)
                && *final(self) == *old(self),
            r is Ok ==> {
                &&& cleared(final(self), 0, w * bpp, plane_room(w as int, h as int, bpp as int)->0)
                &&& forall|p: int| 1 <= p < 4 ==> #[trigger] final(self).plane_bytes(p).len() == 0
                &&& final(self).width == w
                &&& final(self).height == h
                &&& final(self).format == Some(format)
                &&& final(self).chroma_full == old(self).chroma_full
                &&& final(self).premultiplied == old(self).premultiplied
            },
            plane_room(w as int, h as int, bpp as int) is Some && r is Err ==> r == Err::<(), Error>(Error::NoMemory),
            plane_room(w as int, h as int, bpp as int) matches Some(n) && old(self).plane_bytes(0).len() >= n ==> r is Ok,
    {
        let size = match plane_size(w, h, bpp) {
            Ok(n) => n,
            Err(e) => {
                return Err(e);
            },
        };
        proof {
            assert(w * bpp <= w * bpp * h) by (nonlinear_arith)
                requires
                    h >= 1,
                    w * bpp >= 0,
            ;
        }
        self.plane[1].release();
        self.plane[2].release();
        self.plane[3].release();
        match self.plane[0].resize(w as usize * bpp, h, size) {
            Ok(()) => {},
            Err(e) => {
                return Err(e);
            },
        }
        self.width = w;
        self.height = h;
        self.format = Some(format);
        Ok(())
    }

    pub fn alloc_argb(&mut self, w: i32, h: i32) -> (r: Result<()>)
        ensures
            plane_room(w as int, h as int, 4) is None ==> r == Err::<(), Error>(Error::TooLarge)
                && *final(self) == *old(self),
            r is Ok ==> {
                &&& cleared(final(self), 0, w * 4, plane_room(w as int, h as int, 4)->0)
                &&& forall|p: int| 1 <= p < 4 ==> #[trigger] final(self).plane_bytes(p).len() == 0
                &&& final(self).width == w
                &&& final(self).height == h
                &&& final(self).format == Some(Format::Argb)
            },
            plane_room(w as int, h as int, 4) is Some && r is Err ==> r == Err::<(), Error>(Error::NoMemory),
            plane_room(w as int, h as int, 4) matches Some(n) && old(self).plane_bytes(0).len() >= n ==> r is Ok,
    {
        self.alloc_packed(w, h, 4, Format::Argb)
    }

    /// Four planes, chroma subsampled or not.
    ///
    /// The unsubsampled shape is what the rescaler fills when it brings chroma
    /// up to the output size; both are labelled YUVA, and `chroma_full` is
    /// what tells them apart.
    pub fn alloc_planar(&mut self, w: i32, h: i32, subsample: bool) -> (r: Result<()>)
        ensures
            w <= 0 || h <= 0 ==> r == Err::<(), Error>(Error::TooLarge) && *final(self) == *old(self),
            r is Ok ==> {
                &&& forall|p: int|
                    0 <= p < 4 ==> #[trigger] planar_plane_ok(final(self), p, w as int, h as int, subsample)
                &&& final(self).width == w
                &&& final(self).height == h
                &&& final(self).format == Some(Format::Yuva420p)
            },
            r is Err ==> r == Err::<(), Error>(Error::TooLarge) || r == Err::<(), Error>(Error::NoMemory),
            // Too large is the luma plane not fitting in memory's address
            // range; every other failure is the allocator's.
            w > 0 && h > 0 && plane_room(w as int, h as int, 1) is None ==> r == Err::<(), Error>(Error::TooLarge)
                && *final(self) == *old(self),
            plane_room(w as int, h as int, 1) is Some && r is Err ==> r == Err::<(), Error>(Error::NoMemory),
            // Planes that already hold their room are reused, so nothing can fail.
            w > 0 && h > 0 && planar_fits(old(self), w as int, h as int, subsample) ==> r is Ok,
    {
        if w <= 0 || h <= 0 {
            return Err(Error::TooLarge);
        }
        let mut p: usize = 0;
        while p < 4
            invariant
                w > 0,
                h > 0,
                p <= 4,
                forall|q: int|
                    0 <= q < p ==> #[trigger] planar_plane_ok(self, q, w as int, h as int, subsample),
                p == 0 ==> *self == *old(self),
                p > 0 ==> plane_room(w as int, h as int, 1) is Some,
                forall|q: int| p <= q < 4 ==> #[trigger] self.plane[q] == old(self).plane[q],
            decreases 4 - p,
        {
            let shift = if subsample {
                chroma(p)
            } else {
                0
            };
            let pw = ceil_rshift(w, shift);
            let ph = ceil_rshift(h, shift);
            proof {
                if shift == 1 && plane_room(w as int, h as int, 1) is Some {
                    assert(pw * 1 * ph <= w * 1 * h) by (nonlinear_arith)
                        requires
                            1 <= pw <= w,
                            1 <= ph <= h,
                    ;
                }
            }
            let size = match plane_size(pw, ph, 1) {
                Ok(n) => n,
                Err(e) => {
                    return Err(e);
                },
            };
            let ghost before = *self;
            proof {
                assert(planar_room(w as int, h as int, subsample, p as int) == plane_room(pw as int, ph as int, 1));
            }
            match self.plane[p].resize(pw as usize, ph, size) {
                Ok(()) => {},
                Err(e) => {
                    self.release();
                    return Err(e);
                },
            }
            proof {
                assert forall|q: int| 0 <= q < p + 1 implies #[trigger] planar_plane_ok(self, q, w as int, h as int, subsample) by {
                    if q < p {
                        assert(planar_plane_ok(&before, q, w as int, h as int, subsample));
                        assert(self.plane[q] == before.plane[q]);
                    }
                }
                assert forall|q: int| p + 1 <= q < 4 implies #[trigger] self.plane[q] == old(self).plane[q] by {
                    assert(self.plane[q] == before.plane[q]);
                }
            }
            p = p + 1;
        }
        let ghost laid = *self;
        self.width = w;
        self.height = h;
        self.format = Some(Format::Yuva420p);
        proof {
            assert forall|q: int| 0 <= q < 4 implies #[trigger] planar_plane_ok(self, q, w as int, h as int, subsample) by {
                assert(planar_plane_ok(&laid, q, w as int, h as int, subsample));
                assert(self.plane[q] == laid.plane[q]);
            }
        }
        Ok(())
    }

    /// A read-only view of the whole picture.
    pub fn frame(&self) -> (f: Frame<'_>)
        ensures
            forall|p: int|
                0 <= p < 4 ==> #[trigger] f.plane[p].bytes() == self.plane_bytes(p) && f.plane[p].stride_of()
                    == self.plane_stride(p) && f.plane[p].origin_of() == 0,
            f.width == self.width,
            f.height == self.height,
            f.format == (match self.format {
                Some(fm) => fm,
                None => Format::Argb,
            }),
            f.chroma_full == self.chroma_full,
            f.premultiplied == self.premultiplied,
            !f.flip,
    {
        Frame {
            plane: [
                PlaneRef::new(&self.plane[0]),
                PlaneRef::new(&self.plane[1]),
                PlaneRef::new(&self.plane[2]),
                PlaneRef::new(&self.plane[3]),
            ],
            width: self.width,
            height: self.height,
            format: match self.format {
                Some(fm) => fm,
                None => Format::Argb,
            },
            chroma_full: self.chroma_full,
            premultiplied: self.premultiplied,
            flip: false,
        }
    }

    /// A writable view of the whole picture: what is written through it is
    /// what the buffer holds afterwards.
    pub fn frame_mut(&mut self) -> (f: FrameMut<'_>)
        ensures
            forall|p: int|
                0 <= p < 4 ==> #[trigger] f.plane[p].data@ == old(self).plane_bytes(p) && f.plane[p].stride
                    == old(self).plane_stride(p) && f.plane[p].origin == 0,
            forall|p: int| 0 <= p < 4 ==> #[trigger] final(self).plane_bytes(p) == final(f.plane[p].data)@,
            forall|p: int| 0 <= p < 4 ==> #[trigger] final(self).plane_stride(p) == old(self).plane_stride(p),
            f.width == old(self).width,
            f.height == old(self).height,
            f.format == (match old(self).format {
                Some(fm) => fm,
                None => Format::Argb,
            }),
            final(self).width == old(self).width,
            final(self).height == old(self).height,
            final(self).format == old(self).format,
            final(self).chroma_full == old(self).chroma_full,
            final(self).premultiplied == old(self).premultiplied,
    {
        let width = self.width;
        let height = self.height;
        let format = match self.format {
            Some(fm) => fm,
            None => Format::Argb,
        };
        let (a, rest) = self.plane.split_at_mut(1);
        let (b, rest) = rest.split_at_mut(1);
        let (c, d) = rest.split_at_mut(1);
        FrameMut {
            plane: [PlaneMut::new(&mut a[0]), PlaneMut::new(&mut b[0]), PlaneMut::new(&mut c[0]), PlaneMut::new(&mut d[0])],
            width,
            height,
            format,
        }
    }
}

impl Default for Buffer {
    fn default() -> (r: Self)
        ensures
            r.is_released(),
    {
        Buffer::new()
    }
}

/// One plane of a borrowed picture.
#[derive(Clone, Copy)]
pub struct PlaneRef<'a> {
    data: &'a [u8],
    stride: usize,
    /// Offset of row zero, which a crop moves.
    origin: usize,
}

impl<'a> PlaneRef<'a> {
    pub closed spec fn bytes(&self) -> Seq<u8> {
        self.data@
    }

    pub closed spec fn stride_of(&self) -> usize {
        self.stride
    }

    pub closed spec fn origin_of(&self) -> usize {
        self.origin
    }

    fn new(plane: &'a Plane) -> (r: Self)
        ensures
            r.bytes() == plane.bytes(),
            r.stride_of() == plane.stride_of(),
            r.origin_of() == 0,
    {
        PlaneRef { data: plane.data.as_slice(), stride: plane.stride, origin: 0 }
    }

    /// A plane whose memory the caller holds.
    pub fn borrowed(data: &'a [u8], stride: usize) -> (r: Self)
        ensures
            r.bytes() == data@,
            r.stride_of() == stride,
            r.origin_of() == 0,
    {
        PlaneRef { data, stride, origin: 0 }
    }

    pub fn stride(&self) -> (r: usize)
        ensures
            r == self.stride_of(),
    {
        self.stride
    }

    pub fn is_empty(&self) -> (r: bool)
        ensures
            r == (self.bytes().len() == 0),
    {
        self.data.len() == 0
    }

    /// Where `from` bytes into row `y` lies.
    pub open spec fn offset(&self, y: int, from: int) -> int {
        self.origin_of() + y * self.stride_of() + from
    }

    /// `len` bytes of row `y`, starting `from` bytes in.
    pub fn row(&self, y: i32, from: usize, len: usize) -> (r: &'a [u8])
        requires
            y >= 0,
            self.offset(y as int, from as int) + len <= self.bytes().len(),
        ensures
            r@ == self.bytes().subrange(self.offset(y as int, from as int), self.offset(y as int, from as int) + len),
    {
        let n = self.data.len();
        let yy = y as usize;
        proof {
            assert(yy as int == y as int);
            assert(0 <= yy * self.stride) by (nonlinear_arith)
                requires
                    yy >= 0,
            ;
        }
        let at = self.origin + yy * self.stride + from;
        &self.data[at..at + len]
    }
}

/// One plane of a borrowed writable picture.
pub struct PlaneMut<'a> {
    pub data: &'a mut [u8],
    pub stride: usize,
    /// Offset of row zero.
    pub origin: usize,
}

impl<'a> PlaneMut<'a> {
    fn new(plane: &'a mut Plane) -> (r: Self)
        ensures
            r.data@ == old(plane).bytes(),
            r.stride == old(plane).stride_of(),
            r.origin == 0,
            final(plane).bytes() == final(r.data)@,
            final(plane).stride_of() == old(plane).stride_of(),
    {
        PlaneMut { data: plane.data.as_mut_slice(), stride: plane.stride, origin: 0 }
    }

    /// A plane whose memory the caller holds.
    pub fn borrowed(data: &'a mut [u8], stride: usize) -> (r: Self)
        ensures
            r.data@ == old(data)@,
            final(data)@ == final(r.data)@,
            r.stride == stride,
            r.origin == 0,
    {
        PlaneMut { data, stride, origin: 0 }
    }

    pub fn stride(&self) -> (r: usize)
        ensures
            r == self.stride,
    {
        self.stride
    }

    /// Where `from` bytes into row `y` lies.
    pub open spec fn offset(&self, y: int, from: int) -> int {
        self.origin + y * self.stride + from
    }

    /// What the plane holds now.
    pub open spec fn bytes(&self) -> Seq<u8> {
        self.data@
    }

    pub fn row(&self, y: i32, from: usize, len: usize) -> (r: &[u8])
        requires
            y >= 0,
            self.offset(y as int, from as int) + len <= self.bytes().len(),
        ensures
            r@ == self.bytes().subrange(self.offset(y as int, from as int), self.offset(y as int, from as int) + len),
    {
        let n = self.data.len();
        let yy = y as usize;
        proof {
            assert(yy as int == y as int);
            assert(0 <= yy * self.stride) by (nonlinear_arith)
                requires
                    yy >= 0,
            ;
        }
        let at = self.origin + yy * self.stride + from;
        &self.data[at..at + len]
    }

    /// `len` bytes of row `y`, starting `from` bytes in, to write: what is
    /// written there is what the plane holds afterwards.
    pub fn row_mut(&mut self, y: i32, from: usize, len: usize) -> (r: &mut [u8])
        requires
            y >= 0,
            old(self).offset(y as int, from as int) + len <= old(self).data@.len(),
        ensures
            r@ == old(self).data@.subrange(
                old(self).offset(y as int, from as int),
                old(self).offset(y as int, from as int) + len,
            ),
            final(self).data@ == old(self).data@.subrange(0, old(self).offset(y as int, from as int)) + final(r)@
                + old(self).data@.subrange(old(self).offset(y as int, from as int) + len, old(self).data@.len() as int),
            final(self).stride == old(self).stride,
            final(self).origin == old(self).origin,
    {
        let n = self.data.len();
        let yy = y as usize;
        proof {
            assert(yy as int == y as int);
            assert(0 <= yy * self.stride) by (nonlinear_arith)
                requires
                    yy >= 0,
            ;
        }
        let at = self.origin + yy * self.stride + from;
        let (_, tail) = self.data.split_at_mut(at);
        let (mid, _) = tail.split_at_mut(len);
        mid
    }
}

/// A picture the decoder may read: a buffer's, a codec's, or a crop of either.
#[derive(Clone, Copy)]
pub struct Frame<'a> {
    pub plane: [PlaneRef<'a>; 4],
    pub width: i32,
    pub height: i32,
    pub format: Format,
    pub chroma_full: bool,
    pub premultiplied: bool,
    /// Whether the rows come out bottom-first.
    pub flip: bool,
}

impl<'a> Frame<'a> {
    /// A picture whose four planes the caller already holds.
    pub fn borrowed(plane: [PlaneRef<'a>; 4], width: i32, height: i32, format: Format) -> (f: Self)
        ensures
            f.plane == plane,
            f.width == width,
            f.height == height,
            f.format == format,
            !f.chroma_full,
            !f.premultiplied,
            !f.flip,
    {
        Frame { plane, width, height, format, chroma_full: false, premultiplied: false, flip: false }
    }

    /// A picture made of one packed plane the caller already holds.
    pub fn packed(data: &'a [u8], stride: usize, w: i32, h: i32, format: Format) -> (f: Self)
        ensures
            f.plane[0].bytes() == data@,
            f.plane[0].stride_of() == stride,
            f.plane[0].origin_of() == 0,
            forall|p: int| 1 <= p < 4 ==> #[trigger] f.plane[p].bytes().len() == 0,
            f.width == w,
            f.height == h,
            f.format == format,
            !f.chroma_full,
            !f.premultiplied,
            !f.flip,
    {
        let empty = PlaneRef { data: &[], stride: 0, origin: 0 };
        Frame {
            plane: [PlaneRef { data, stride, origin: 0 }, empty, empty, empty],
            width: w,
            height: h,
            format,
            chroma_full: false,
            premultiplied: false,
            flip: false,
        }
    }

    /// The width of plane `p` in bytes.
    pub fn row_len(&self, p: usize) -> (r: usize)
        requires
            self.width >= 0,
            plane_row_len(self.format, self.width as int, p as int) <= usize::MAX,
        ensures
            r == plane_row_len(self.format, self.width as int, p as int),
    {
        if planes_of(self.format) == 1 {
            self.width as usize * self.format.bpp()
        } else {
            ceil_rshift(self.width, chroma(p)) as usize
        }
    }

    /// How many rows plane `p` has.
    pub fn rows(&self, p: usize) -> (r: i32)
        requires
            self.height >= 0,
        ensures
            r == plane_rows(self.format, self.height as int, p as int),
    {
        if planes_of(self.format) == 1 {
            self.height
        } else {
            ceil_rshift(self.height, chroma(p))
        }
    }

    /// Which stored row row `y` of plane `p` is, the flip applied.
    pub open spec fn stored_row(&self, p: int, y: int) -> int {
        if self.flip {
            plane_rows(self.format, self.height as int, p) - 1 - y
        } else {
            y
        }
    }

    /// Where row `y` of plane `p` starts, with the crop and the flip applied.
    pub open spec fn row_start(&self, p: int, y: int) -> int {
        self.plane[p].origin_of() + self.stored_row(p, y) * self.plane[p].stride_of()
    }

    /// The bytes of row `y` of plane `p`, with the crop and the flip applied.
    pub open spec fn row_bytes(&self, p: int, y: int) -> Seq<u8> {
        self.plane[p].bytes().subrange(
            self.row_start(p, y),
            self.row_start(p, y) + plane_row_len(self.format, self.width as int, p),
        )
    }

    /// Every row of every plane the format hands out lies inside that
    /// plane's bytes.
    pub open spec fn wf(&self) -> bool {
        &&& self.width >= 0
        &&& self.height >= 0
        &&& forall|p: int, y: int|
            0 <= p < spec_planes(self.format) && 0 <= y < plane_rows(self.format, self.height as int, p)
                ==> 0 <= #[trigger] self.row_start(p, y) && self.row_start(p, y) + plane_row_len(
                self.format,
                self.width as int,
                p,
            ) <= self.plane[p].bytes().len()
    }

    /// Row `y` of plane `p`, with the crop and the flip applied.
    pub fn row(&self, p: usize, y: i32) -> (r: &'a [u8])
        requires
            p < 4,
            self.width >= 0,
            self.height >= 0,
            self.stored_row(p as int, y as int) >= 0,
            self.flip ==> plane_rows(self.format, self.height as int, p as int) - 1 - y <= i32::MAX,
            self.row_start(p as int, y as int) + plane_row_len(self.format, self.width as int, p as int)
                <= self.plane[p as int].bytes().len(),
        ensures
            r@ == self.plane[p as int].bytes().subrange(
                self.row_start(p as int, y as int),
                self.row_start(p as int, y as int) + plane_row_len(self.format, self.width as int, p as int),
            ),
            r@ == self.row_bytes(p as int, y as int),
    {
        proof {
            let s = self.stored_row(p as int, y as int);
            let st = self.plane[p as int].stride_of();
            assert(0 <= s * st) by (nonlinear_arith)
                requires
                    s >= 0,
                    st >= 0,
            ;
        }
        let n = self.plane[p].data.len();
        let len = self.row_len(p);
        let y = if self.flip {
            self.rows(p) - 1 - y
        } else {
            y
        };
        let yy = y as usize;
        proof {
            assert(0 <= yy * self.plane[p as int].stride) by (nonlinear_arith)
                requires
                    yy >= 0,
            ;
        }
        let at = self.plane[p].origin + yy * self.plane[p].stride;
        &self.plane[p].data[at..at + len]
    }

    /// Flipping a picture reads row `y` where row `rows - 1 - y` was, and
    /// flipping it twice gives back the picture itself.
    pub proof fn law_flipping_reverses_the_rows(self, p: int, y: int)
        requires
            0 <= p < 4,
        ensures
            (Frame { flip: !self.flip, ..self }).row_start(p, y) == self.row_start(
                p,
                plane_rows(self.format, self.height as int, p) - 1 - y,
            ),
            (Frame { flip: !(Frame { flip: !self.flip, ..self }).flip, ..(Frame { flip: !self.flip, ..self }) }) == self,
    {
    }

    /// Flipping moves no bytes: row `y` of the flipped picture holds the
    /// bytes of row `rows - 1 - y` of the picture, and a picture is valid
    /// exactly when its flip is.
    pub proof fn law_a_flipped_row_is_the_mirrored_row(self, p: int, y: int)
        requires
            0 <= p < 4,
        ensures
            (Frame { flip: !self.flip, ..self }).row_bytes(p, y) == self.row_bytes(
                p,
                plane_rows(self.format, self.height as int, p) - 1 - y,
            ),
            (Frame { flip: !self.flip, ..self }).wf() == self.wf(),
    {
        let g = Frame { flip: !self.flip, ..self };
        assert forall|q: int, z: int|
            0 <= q < spec_planes(self.format) && 0 <= z < plane_rows(self.format, self.height as int, q)
                implies #[trigger] g.row_start(q, z) == self.row_start(q, plane_rows(self.format, self.height as int, q) - 1 - z)
            by {}
        if self.wf() {
            assert forall|q: int, z: int|
                0 <= q < spec_planes(g.format) && 0 <= z < plane_rows(g.format, g.height as int, q)
                    implies 0 <= #[trigger] g.row_start(q, z) && g.row_start(q, z) + plane_row_len(g.format, g.width as int, q)
                    <= g.plane[q].bytes().len() by {
                let z2 = plane_rows(self.format, self.height as int, q) - 1 - z;
                assert(self.row_start(q, z2) == g.row_start(q, z));
            }
        }
        if g.wf() {
            assert forall|q: int, z: int|
                0 <= q < spec_planes(self.format) && 0 <= z < plane_rows(self.format, self.height as int, q)
                    implies 0 <= #[trigger] self.row_start(q, z) && self.row_start(q, z) + plane_row_len(self.format, self.width as int, q)
                    <= self.plane[q].bytes().len() by {
                let z2 = plane_rows(self.format, self.height as int, q) - 1 - z;
                assert(g.row_start(q, z2) == self.row_start(q, z));
            }
        }
    }

    /// A window of a valid, unflipped picture of one packed plane reads, in
    /// its row `j`, the `w` pixels of row `y + j` of the picture from column
    /// `x` on, with the stride unchanged; `v` is what [`Self::window`] gave.
    pub proof fn law_a_window_row_is_part_of_a_picture_row(self, v: Self, x: int, y: int, w: int, h: int, j: int)
        requires
            self.wf(),
            spec_planes(self.format) == 1,
            !self.flip,
            0 <= x,
            0 <= w,
            x + w <= self.width,
            0 <= y,
            0 <= j < h,
            y + h <= self.height,
            v.plane[0].origin_of() == self.plane[0].origin_of() + window_shift(self.format, 0, y)
                * self.plane[0].stride_of() + window_shift(self.format, 0, x) * window_bpp(self.format),
            v.plane[0].bytes() == self.plane[0].bytes(),
            v.plane[0].stride_of() == self.plane[0].stride_of(),
            v.width == w,
            v.height == h,
            v.format == self.format,
            v.flip == self.flip,
        ensures
            v.row_bytes(0, j) == self.row_bytes(0, y + j).subrange(
                x * spec_bpp(self.format),
                (x + w) * spec_bpp(self.format),
            ),
            v.plane[0].stride_of() == self.plane[0].stride_of(),
    {
        let b = spec_bpp(self.format) as int;
        let st = self.plane[0].stride_of() as int;
        assert(0 <= y + j < plane_rows(self.format, self.height as int, 0));
        assert(v.row_start(0, j) == self.row_start(0, y + j) + x * b) by (nonlinear_arith)
            requires
                v.row_start(0, j) == v.plane[0].origin_of() + j * st,
                self.row_start(0, y + j) == self.plane[0].origin_of() + (y + j) * st,
                v.plane[0].origin_of() == self.plane[0].origin_of() + y * st + x * b,
        ;
        assert(x * b + w * b == (x + w) * b) by (nonlinear_arith);
        assert((x + w) * b <= self.width * b) by (nonlinear_arith)
            requires
                x + w <= self.width,
                b >= 0,
        ;
        assert(0 <= x * b) by (nonlinear_arith)
            requires
                x >= 0,
                b >= 0,
        ;
        assert(v.row_bytes(0, j) =~= self.row_bytes(0, y + j).subrange(x * b, (x + w) * b));
    }

    /// The same picture read bottom-first.
    pub fn flipped(self) -> (f: Self)
        ensures
            f == (Frame { flip: !self.flip, ..self }),
    {
        let mut f = self;
        f.flip = !f.flip;
        f
    }

    /// The `w` by `h` window whose top-left corner is at `(x, y)`.
    ///
    /// The corner is in luma coordinates and is halved for the chroma planes,
    /// which is why a crop of a planar picture only lands where the caller
    /// expects on an even boundary.
    pub fn window(&self, x: i32, y: i32, w: i32, h: i32) -> (f: Self)
        requires
            x >= 0,
            y >= 0,
            forall|p: int|
                0 <= p < 4 ==> #[trigger] self.plane[p].origin_of() + window_shift(self.format, p, y as int)
                    * self.plane[p].stride_of() + window_shift(self.format, p, x as int) * window_bpp(self.format)
                    <= usize::MAX,
        ensures
            forall|p: int|
                0 <= p < 4 ==> #[trigger] f.plane[p].origin_of() == self.plane[p].origin_of() + window_shift(
                    self.format,
                    p,
                    y as int,
                ) * self.plane[p].stride_of() + window_shift(self.format, p, x as int) * window_bpp(self.format)
                    && f.plane[p].bytes() == self.plane[p].bytes() && f.plane[p].stride_of()
                    == self.plane[p].stride_of(),
            f.width == w,
            f.height == h,
            f.format == self.format,
            f.chroma_full == self.chroma_full,
            f.premultiplied == self.premultiplied,
            f.flip == self.flip,
    {
        let mut out = *self;
        let mut p: usize = 0;
        while p < 4
            invariant
                x >= 0,
                y >= 0,
                p <= 4,
                forall|q: int|
                    0 <= q < 4 ==> #[trigger] self.plane[q].origin_of() + window_shift(self.format, q, y as int)
                        * self.plane[q].stride_of() + window_shift(self.format, q, x as int) * window_bpp(
                        self.format,
                    ) <= usize::MAX,
                forall|q: int|
                    0 <= q < p ==> #[trigger] out.plane[q].origin_of() == self.plane[q].origin_of() + window_shift(
                        self.format,
                        q,
                        y as int,
                    ) * self.plane[q].stride_of() + window_shift(self.format, q, x as int) * window_bpp(
                        self.format,
                    ),
                forall|q: int| p <= q < 4 ==> #[trigger] out.plane[q].origin_of() == self.plane[q].origin_of(),
                forall|q: int|
                    0 <= q < 4 ==> #[trigger] out.plane[q].bytes() == self.plane[q].bytes() && out.plane[q].stride_of()
                        == self.plane[q].stride_of(),
                out.width == self.width,
                out.height == self.height,
                out.format == self.format,
                out.chroma_full == self.chroma_full,
                out.premultiplied == self.premultiplied,
                out.flip == self.flip,
            decreases 4 - p,
        {
            let packed = planes_of(self.format) == 1;
            let shift = if packed {
                0
            } else {
                chroma(p)
            };
            let bpp = if packed {
                self.format.bpp()
            } else {
                1
            };
            let dy = (if shift == 0 {
                y
            } else {
                y / 2
            }) as usize;
            let dx = (if shift == 0 {
                x
            } else {
                x / 2
            }) as usize;
            let st = self.plane[p].stride;
            proof {
                assert(self.plane[p as int].origin_of() + window_shift(self.format, p as int, y as int)
                    * self.plane[p as int].stride_of() + window_shift(self.format, p as int, x as int) * window_bpp(self.format)
                    <= usize::MAX);
                assert(out.plane[p as int].origin_of() == self.plane[p as int].origin_of());
                assert(out.plane[p as int].bytes() == self.plane[p as int].bytes());
                assert(dy == window_shift(self.format, p as int, y as int));
                assert(dx == window_shift(self.format, p as int, x as int));
                assert(bpp == window_bpp(self.format));
                assert(0 <= dy * st && 0 <= dx * bpp) by (nonlinear_arith)
                    requires
                        dy >= 0,
                        dx >= 0,
                        st >= 0,
                        bpp >= 0,
                ;
            }
            let add = dy * st + dx * bpp;
            let ghost prev = out;
            let mut pl = out.plane[p];
            pl.origin = pl.origin + add;
            out.plane[p] = pl;
            proof {
                assert forall|q: int| 0 <= q < 4 && q != p implies #[trigger] out.plane[q] == prev.plane[q] by {}
                assert forall|q: int| 0 <= q < 4 implies #[trigger] out.plane[q].bytes() == self.plane[q].bytes()
                    && out.plane[q].stride_of() == self.plane[q].stride_of() by {
                    assert(prev.plane[q].bytes() == self.plane[q].bytes());
                }
                assert forall|q: int| 0 <= q < p + 1 implies #[trigger] out.plane[q].origin_of() == self.plane[q].origin_of()
                    + window_shift(self.format, q, y as int) * self.plane[q].stride_of() + window_shift(self.format, q, x as int)
                    * window_bpp(self.format) by {
                    if q < p {
                        assert(prev.plane[q].origin_of() == self.plane[q].origin_of() + window_shift(self.format, q, y as int)
                            * self.plane[q].stride_of() + window_shift(self.format, q, x as int) * window_bpp(self.format));
                    }
                }
                assert forall|q: int| p + 1 <= q < 4 implies #[trigger] out.plane[q].origin_of() == self.plane[q].origin_of() by {
                    assert(prev.plane[q].origin_of() == self.plane[q].origin_of());
                }
            }
            p = p + 1;
        }
        out.width = w;
        out.height = h;
        out
    }
}

/// The corner coordinate `v` as plane `p` of a picture in `format` sees it.
pub open spec fn window_shift(format: Format, p: int, v: int) -> int {
    if spec_planes(format) == 1 || chroma_shift(p) == 0 {
        v
    } else {
        v / 2
    }
}

/// The bytes a pixel takes in each plane of a picture in `format`.
pub open spec fn window_bpp(format: Format) -> int {
    if spec_planes(format) == 1 {
        spec_bpp(format) as int
    } else {
        1
    }
}

/// A picture the decoder may write.
pub struct FrameMut<'a> {
    pub plane: [PlaneMut<'a>; 4],
    pub width: i32,
    pub height: i32,
    pub format: Format,
}

impl<'a> FrameMut<'a> {
    /// A picture whose four planes the caller already holds.
    pub fn borrowed(plane: [PlaneMut<'a>; 4], width: i32, height: i32, format: Format) -> (f: Self)
        ensures
            f.plane == plane,
            f.width == width,
            f.height == height,
            f.format == format,
    {
        FrameMut { plane, width, height, format }
    }

    /// The four planes, each separately borrowed.
    pub fn planes_mut(&mut self) -> (r: &mut [PlaneMut<'a>; 4])
        ensures
            *r == old(self).plane,
            final(self).plane == *final(r),
            final(self).width == old(self).width,
            final(self).height == old(self).height,
            final(self).format == old(self).format,
    {
        &mut self.plane
    }

    pub fn row_len(&self, p: usize) -> (r: usize)
        requires
            self.width >= 0,
            plane_row_len(self.format, self.width as int, p as int) <= usize::MAX,
        ensures
            r == plane_row_len(self.format, self.width as int, p as int),
    {
        if planes_of(self.format) == 1 {
            self.width as usize * self.format.bpp()
        } else {
            ceil_rshift(self.width, chroma(p)) as usize
        }
    }

    pub fn rows(&self, p: usize) -> (r: i32)
        requires
            self.height >= 0,
        ensures
            r == plane_rows(self.format, self.height as int, p as int),
    {
        if planes_of(self.format) == 1 {
            self.height
        } else {
            ceil_rshift(self.height, chroma(p))
        }
    }

    /// Row `y` of plane `p`, to write.
    pub fn row(&mut self, p: usize, y: i32) -> (r: &mut [u8])
        requires
            p < 4,
            y >= 0,
            old(self).width >= 0,
            old(self).plane[p as int].offset(y as int, 0) + plane_row_len(old(self).format, old(self).width as int, p as int)
                <= old(self).plane[p as int].data@.len(),
        ensures
            ({
                let at = old(self).plane[p as int].offset(y as int, 0);
                let len = plane_row_len(old(self).format, old(self).width as int, p as int);
                let d = old(self).plane[p as int].data@;
                &&& r@ == d.subrange(at, at + len)
                &&& final(self).plane[p as int].data@ == d.subrange(0, at) + final(r)@ + d.subrange(at + len, d.len() as int)
            }),
            forall|q: int| 0 <= q < 4 && q != p ==> #[trigger] final(self).plane[q] == old(self).plane[q],
            final(self).plane[p as int].stride == old(self).plane[p as int].stride,
            final(self).plane[p as int].origin == old(self).plane[p as int].origin,
            final(self).width == old(self).width,
            final(self).height == old(self).height,
            final(self).format == old(self).format,
    {
        let n = self.plane[p].data.len();
        let len = self.row_len(p);
        self.plane[p].row_mut(y, 0, len)
    }

    /// Rows `y` of two planes at once, which the chroma kernels need. The
    /// planes are given in order.
    pub fn row_pair(&mut self, a: usize, b: usize, y: i32) -> (r: (&mut [u8], &mut [u8]))
        requires
            a < b < 4,
            y >= 0,
            old(self).width >= 0,
            old(self).plane[a as int].offset(y as int, 0) + plane_row_len(old(self).format, old(self).width as int, a as int)
                <= old(self).plane[a as int].data@.len(),
            old(self).plane[b as int].offset(y as int, 0) + plane_row_len(old(self).format, old(self).width as int, b as int)
                <= old(self).plane[b as int].data@.len(),
        ensures
            ({
                let at = old(self).plane[a as int].offset(y as int, 0);
                let len = plane_row_len(old(self).format, old(self).width as int, a as int);
                let d = old(self).plane[a as int].data@;
                &&& r.0@ == d.subrange(at, at + len)
                &&& final(self).plane[a as int].data@ == d.subrange(0, at) + final(r.0)@ + d.subrange(at + len, d.len() as int)
            }),
            ({
                let at = old(self).plane[b as int].offset(y as int, 0);
                let len = plane_row_len(old(self).format, old(self).width as int, b as int);
                let d = old(self).plane[b as int].data@;
                &&& r.1@ == d.subrange(at, at + len)
                &&& final(self).plane[b as int].data@ == d.subrange(0, at) + final(r.1)@ + d.subrange(at + len, d.len() as int)
            }),
            forall|q: int| 0 <= q < 4 && q != a && q != b ==> #[trigger] final(self).plane[q] == old(self).plane[q],
            final(self).width == old(self).width,
            final(self).height == old(self).height,
            final(self).format == old(self).format,
    {
        let na = self.plane[a].data.len();
        let nb = self.plane[b].data.len();
        let len_a = self.row_len(a);
        let len_b = self.row_len(b);
        let (lo, hi) = self.plane.split_at_mut(b);
        let x = lo[a].row_mut(y, 0, len_a);
        let z = hi[0].row_mut(y, 0, len_b);
        (x, z)
    }
}

} // verus!
