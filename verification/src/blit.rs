//! Painting one picture onto another, which is what compositing an animation
//! frame comes down to.
//!
//! Each takes a rectangle in the source's coordinates and a corner in the
//! destination's, because an animation lands a sub-frame at its own position
//! on the canvas. Which one runs is the compositor's decision; these only walk
//! rows, and each contract states the destination plane as the rows written
//! into it one after another.

use vstd::prelude::*;
use crate::dsp::vp8l::{blend_byte, blend_premult_byte, blend_row_argb, blend_row_argb_premult};
use crate::image::{ceil_rshift, spec_ceil_rshift, spec_planes, Format};
use crate::picture::{Frame, FrameMut, PlaneMut, PlaneRef};

verus! {

/// A rectangle of the source picture.
#[derive(Clone, Copy, Debug, PartialEq, Eq, Structural)]
pub struct Rect {
    pub x: i32,
    pub y: i32,
    pub w: i32,
    pub h: i32,
}

/// `d` with `row` written over it at `at`.
pub open spec fn splice(d: Seq<u8>, at: int, row: Seq<u8>) -> Seq<u8> {
    d.subrange(0, at) + row + d.subrange(at + row.len(), d.len() as int)
}

/// A plane after rows `0 .. n` of `row` have been written, one after another,
/// at column `dx` of its rows `dy ..`.
pub open spec fn rows_written(
    d: Seq<u8>,
    stride: int,
    origin: int,
    n: int,
    dy: int,
    dx: int,
    row: spec_fn(int) -> Seq<u8>,
) -> Seq<u8>
    decreases n,
{
    if n <= 0 {
        d
    } else {
        splice(rows_written(d, stride, origin, n - 1, dy, dx, row), origin + (dy + n - 1) * stride + dx, row(n - 1))
    }
}

/// Rows `y .. y + n` of a plane, `len` bytes from column `x`, all lie within
/// its `len_total` bytes.
pub open spec fn rows_fit(origin: int, stride: int, len_total: int, y: int, n: int, x: int, len: int) -> bool {
    &&& y >= 0
    &&& x >= 0
    &&& y + n <= i32::MAX
    &&& forall|k: int| 0 <= k < n ==> #[trigger] (origin + (y + k) * stride) + x + len <= len_total
}

/// Bytes `x .. x + len` of row `y` of a borrowed plane.
pub open spec fn src_row(src: PlaneRef, y: int, x: int, len: int) -> Seq<u8> {
    src.bytes().subrange(src.offset(y, x), src.offset(y, x) + len)
}

proof fn lemma_row_at(origin: int, stride: int, y: int, x: int)
    requires
        y >= 0,
        stride >= 0,
        origin >= 0,
        x >= 0,
    ensures
        origin + y * stride + x >= 0,
{
    assert(y * stride >= 0) by (nonlinear_arith)
        requires
            y >= 0,
            stride >= 0,
    ;
}

/// Writes `row` over `len` bytes of row `y` of `dst`, from column `x`.
fn put_row(dst: &mut PlaneMut, y: i32, x: usize, row: &[u8])
    requires
        y >= 0,
        old(dst).offset(y as int, x as int) + row@.len() <= old(dst).bytes().len(),
    ensures
        final(dst).bytes() == splice(old(dst).bytes(), old(dst).offset(y as int, x as int), row@),
        final(dst).stride == old(dst).stride,
        final(dst).origin == old(dst).origin,
{
    proof {
        lemma_row_at(dst.origin as int, dst.stride as int, y as int, x as int);
    }
    let len = row.len();
    let out = dst.row_mut(y, x, len);
    let mut i: usize = 0;
    while i < len
        invariant
            i <= len,
            len == row@.len(),
            out@.len() == len,
            forall|k: int| 0 <= k < i ==> #[trigger] out@[k] == row@[k],
        decreases len - i,
    {
        out[i] = row[i];
        i = i + 1;
    }
    proof {
        assert(out@ =~= row@);
    }
}

/// Copies rows `sy .. sy + n` of `src`, `len` bytes from column `sx`, to rows
/// `dy ..` of `dst` from column `dx`.
fn copy_rows(dst: &mut PlaneMut, src: PlaneRef, n: i32, sy: i32, sx: usize, dy: i32, dx: usize, len: usize)
    requires
        n >= 0,
        rows_fit(src.origin_of() as int, src.stride_of() as int, src.bytes().len() as int, sy as int, n as int, sx as int, len as int),
        rows_fit(old(dst).origin as int, old(dst).stride as int, old(dst).bytes().len() as int, dy as int, n as int, dx as int, len as int),
    ensures
        final(dst).bytes() == rows_written(
            old(dst).bytes(),
            old(dst).stride as int,
            old(dst).origin as int,
            n as int,
            dy as int,
            dx as int,
            |k: int| src_row(src, sy + k, sx as int, len as int),
        ),
        final(dst).stride == old(dst).stride,
        final(dst).origin == old(dst).origin,
{
    let ghost f = |k: int| src_row(src, sy + k, sx as int, len as int);
    let mut k: i32 = 0;
    while k < n
        invariant
            0 <= k <= n,
            rows_fit(src.origin_of() as int, src.stride_of() as int, src.bytes().len() as int, sy as int, n as int, sx as int, len as int),
            rows_fit(old(dst).origin as int, old(dst).stride as int, old(dst).bytes().len() as int, dy as int, n as int, dx as int, len as int),
            dst.stride == old(dst).stride,
            dst.origin == old(dst).origin,
            dst.bytes().len() == old(dst).bytes().len(),
            f == (|k: int| src_row(src, sy + k, sx as int, len as int)),
            dst.bytes() == rows_written(old(dst).bytes(), old(dst).stride as int, old(dst).origin as int, k as int, dy as int, dx as int, f),
        decreases n - k,
    {
        assert((src.origin_of() + (sy + k) * src.stride_of()) + sx + len <= src.bytes().len());
        assert((dst.origin + (dy + k) * dst.stride) + dx + len <= dst.bytes().len());
        proof {
            lemma_row_at(src.origin_of() as int, src.stride_of() as int, (sy + k) as int, sx as int);
        }
        let s = src.row(sy + k, sx, len);
        put_row(dst, dy + k, dx, s);
        k = k + 1;
    }
}


/// A row of `len` bytes repeating `pattern`.
pub open spec fn repeated(pattern: Seq<u8>, len: int) -> Seq<u8> {
    Seq::new(len as nat, |i: int| pattern[i % pattern.len() as int])
}

/// Fills rows `dy .. dy + n` of `dst`, `len` bytes from column `dx`, with
/// `pattern` over and over.
fn fill_rows(dst: &mut PlaneMut, n: i32, dy: i32, dx: usize, len: usize, pattern: &[u8])
    requires
        n >= 0,
        pattern@.len() >= 1,
        rows_fit(old(dst).origin as int, old(dst).stride as int, old(dst).bytes().len() as int, dy as int, n as int, dx as int, len as int),
    ensures
        final(dst).bytes() == rows_written(
            old(dst).bytes(),
            old(dst).stride as int,
            old(dst).origin as int,
            n as int,
            dy as int,
            dx as int,
            |k: int| repeated(pattern@, len as int),
        ),
        final(dst).stride == old(dst).stride,
        final(dst).origin == old(dst).origin,
{
    let ghost f = |k: int| repeated(pattern@, len as int);
    let mut row: Vec<u8> = Vec::new();
    let mut i: usize = 0;
    while i < len
        invariant
            i <= len,
            pattern@.len() >= 1,
            row@.len() == i,
            forall|m: int| 0 <= m < i ==> #[trigger] row@[m] == pattern@[m % pattern@.len() as int],
        decreases len - i,
    {
        row.push(pattern[i % pattern.len()]);
        i = i + 1;
    }
    proof {
        assert(row@ =~= repeated(pattern@, len as int));
    }
    let mut k: i32 = 0;
    while k < n
        invariant
            0 <= k <= n,
            row@ == repeated(pattern@, len as int),
            row@.len() == len,
            rows_fit(old(dst).origin as int, old(dst).stride as int, old(dst).bytes().len() as int, dy as int, n as int, dx as int, len as int),
            dst.stride == old(dst).stride,
            dst.origin == old(dst).origin,
            dst.bytes().len() == old(dst).bytes().len(),
            f == (|k: int| repeated(pattern@, len as int)),
            dst.bytes() == rows_written(old(dst).bytes(), old(dst).stride as int, old(dst).origin as int, k as int, dy as int, dx as int, f),
        decreases n - k,
    {
        assert((dst.origin + (dy + k) * dst.stride) + dx + len <= dst.bytes().len());
        put_row(dst, dy + k, dx, row.as_slice());
        k = k + 1;
    }
}

/// The columns and rows a rectangle takes in plane `p` of a planar picture,
/// and where its corner lands there.
pub open spec fn plane_shift(p: int) -> int {
    if p == 1 || p == 2 {
        1
    } else {
        0
    }
}

/// Copies an ARGB region, alpha and all.
pub fn copy_argb(dst: &mut FrameMut, src: &Frame, r: Rect, dst_x: i32, dst_y: i32)
    requires
        r.w >= 0,
        r.x >= 0,
        dst_x + r.x >= 0,
        dst_x + r.x <= i32::MAX,
        dst_y + r.y <= i32::MAX,
        4 * (dst_x + r.x) + 4 * r.w <= usize::MAX,
        4 * r.x + 4 * r.w <= usize::MAX,
        rows_fit(src.plane[0].origin_of() as int, src.plane[0].stride_of() as int, src.plane[0].bytes().len() as int, r.y as int,
            if r.h > 0 { r.h as int } else { 0 }, 4 * r.x, 4 * r.w),
        rows_fit(old(dst).plane[0].origin as int, old(dst).plane[0].stride as int, old(dst).plane[0].bytes().len() as int, dst_y + r.y,
            if r.h > 0 { r.h as int } else { 0 }, 4 * (dst_x + r.x), 4 * r.w),
    ensures
        final(dst).plane[0].bytes() == rows_written(
            old(dst).plane[0].bytes(),
            old(dst).plane[0].stride as int,
            old(dst).plane[0].origin as int,
            if r.h > 0 { r.h as int } else { 0 },
            dst_y + r.y,
            4 * (dst_x + r.x),
            |k: int| src_row(src.plane[0], r.y + k, 4 * r.x, 4 * r.w),
        ),
        forall|p: int| 1 <= p < 4 ==> #[trigger] final(dst).plane[p] == old(dst).plane[p],
        final(dst).plane[0].stride == old(dst).plane[0].stride,
        final(dst).plane[0].origin == old(dst).plane[0].origin,
        final(dst).width == old(dst).width,
        final(dst).height == old(dst).height,
        final(dst).format == old(dst).format,
{
    let wu = r.w as usize;
    let xu = r.x as usize;
    let du = (dst_x + r.x) as usize;
    assert(wu == r.w && xu == r.x && du == dst_x + r.x);
    let len = wu * 4;
    let from_src = xu * 4;
    let from_dst = du * 4;
    let n = if r.h > 0 {
        r.h
    } else {
        0
    };
    let planes = dst.planes_mut();
    copy_rows(&mut planes[0], src.plane[0], n, r.y, from_src, dst_y + r.y, from_dst, len);
}

/// A destination row blended with a source row, four bytes a pixel.
pub open spec fn blended(d: Seq<u8>, s: Seq<u8>, premultiplied: bool) -> Seq<u8> {
    Seq::new(
        d.len(),
        |i: int|
            if i < d.len() / 4 * 4 && i < s.len() / 4 * 4 {
                if premultiplied {
                    blend_premult_byte(d.subrange(i - i % 4, i - i % 4 + 4), s.subrange(i - i % 4, i - i % 4 + 4), i % 4)
                } else {
                    blend_byte(d.subrange(i - i % 4, i - i % 4 + 4), s.subrange(i - i % 4, i - i % 4 + 4), i % 4)
                }
            } else {
                d[i]
            },
    )
}

/// A plane after rows `0 .. n` of `src` have been blended, one after another,
/// over its rows `dy ..` at column `dx`, `len` bytes each.
pub open spec fn rows_blended(
    d: Seq<u8>,
    stride: int,
    origin: int,
    n: int,
    dy: int,
    dx: int,
    len: int,
    src: spec_fn(int) -> Seq<u8>,
    premultiplied: bool,
) -> Seq<u8>
    decreases n,
{
    if n <= 0 {
        d
    } else {
        let p = rows_blended(d, stride, origin, n - 1, dy, dx, len, src, premultiplied);
        let at = origin + (dy + n - 1) * stride + dx;
        splice(p, at, blended(p.subrange(at, at + len), src(n - 1), premultiplied))
    }
}

/// Alpha-blends an ARGB region, with the premultiplied blend where the
/// canvas carries alpha in its colours.
pub fn blend_argb(premultiply: bool, dst: &mut FrameMut, src: &Frame, r: Rect, dst_x: i32, dst_y: i32)
    requires
        r.w >= 0,
        r.x >= 0,
        dst_x + r.x >= 0,
        dst_x + r.x <= i32::MAX,
        dst_y + r.y <= i32::MAX,
        4 * (dst_x + r.x) + 4 * r.w <= usize::MAX,
        4 * r.x + 4 * r.w <= usize::MAX,
        rows_fit(src.plane[0].origin_of() as int, src.plane[0].stride_of() as int, src.plane[0].bytes().len() as int, r.y as int,
            if r.h > 0 { r.h as int } else { 0 }, 4 * r.x, 4 * r.w),
        rows_fit(old(dst).plane[0].origin as int, old(dst).plane[0].stride as int, old(dst).plane[0].bytes().len() as int, dst_y + r.y,
            if r.h > 0 { r.h as int } else { 0 }, 4 * (dst_x + r.x), 4 * r.w),
    ensures
        final(dst).plane[0].bytes() == rows_blended(
            old(dst).plane[0].bytes(),
            old(dst).plane[0].stride as int,
            old(dst).plane[0].origin as int,
            if r.h > 0 { r.h as int } else { 0 },
            dst_y + r.y,
            4 * (dst_x + r.x),
            4 * r.w,
            |k: int| src_row(src.plane[0], r.y + k, 4 * r.x, 4 * r.w),
            premultiply,
        ),
        forall|p: int| 1 <= p < 4 ==> #[trigger] final(dst).plane[p] == old(dst).plane[p],
        final(dst).plane[0].stride == old(dst).plane[0].stride,
        final(dst).plane[0].origin == old(dst).plane[0].origin,
        final(dst).width == old(dst).width,
        final(dst).height == old(dst).height,
        final(dst).format == old(dst).format,
{
    let wu = r.w as usize;
    let xu = r.x as usize;
    let du = (dst_x + r.x) as usize;
    assert(wu == r.w && xu == r.x && du == dst_x + r.x);
    let len = wu * 4;
    let from_src = xu * 4;
    let from_dst = du * 4;
    let n = if r.h > 0 {
        r.h
    } else {
        0
    };
    let dy = dst_y + r.y;
    let planes = dst.planes_mut();
    let plane = &mut planes[0];
    let ghost f = |k: int| src_row(src.plane[0], r.y + k, 4 * r.x, 4 * r.w);
    let ghost d0 = plane.bytes();
    let mut k: i32 = 0;
    while k < n
        invariant
            0 <= k <= n,
            len == 4 * r.w,
            from_src == 4 * r.x,
            from_dst == 4 * (dst_x + r.x),
            dy == dst_y + r.y,
            rows_fit(src.plane[0].origin_of() as int, src.plane[0].stride_of() as int, src.plane[0].bytes().len() as int, r.y as int, n as int, from_src as int, len as int),
            rows_fit(old(dst).plane[0].origin as int, old(dst).plane[0].stride as int, d0.len() as int, dy as int, n as int, from_dst as int, len as int),
            plane.stride == old(dst).plane[0].stride,
            plane.origin == old(dst).plane[0].origin,
            plane.bytes().len() == d0.len(),
            d0 == old(dst).plane[0].bytes(),
            f == (|k: int| src_row(src.plane[0], r.y + k, 4 * r.x, 4 * r.w)),
            plane.bytes() == rows_blended(d0, plane.stride as int, plane.origin as int, k as int, dy as int, from_dst as int, len as int, f, premultiply),
        decreases n - k,
    {
        assert((src.plane[0].origin_of() + (r.y + k) * src.plane[0].stride_of()) + from_src + len <= src.plane[0].bytes().len());
        assert((plane.origin + (dy + k) * plane.stride) + from_dst + len <= plane.bytes().len());
        proof {
            lemma_row_at(src.plane[0].origin_of() as int, src.plane[0].stride_of() as int, (r.y + k) as int, from_src as int);
            lemma_row_at(plane.origin as int, plane.stride as int, (dy + k) as int, from_dst as int);
        }
        let s = src.plane[0].row(r.y + k, from_src, len);
        let ghost before = plane.bytes();
        let d = plane.row_mut(dy + k, from_dst, len);
        let ghost drow = d@;
        if premultiply {
            blend_row_argb_premult(d, s);
        } else {
            blend_row_argb(d, s);
        }
        proof {
            let at = plane.origin + (dy + k) * plane.stride + from_dst;
            assert(drow == before.subrange(at, at + len));
            assert(d@ =~= blended(drow, s@, premultiply));
        }
        k = k + 1;
    }
}

/// Whether a picture in `format` carries its own alpha plane.
pub fn has_alpha_plane(format: Format) -> (r: bool)
    ensures
        r == (format != Format::Yuv420p),
{
    !matches!(format, Format::Yuv420p)
}


/// `v` in plane `p`'s resolution, for a non-negative `v`.
pub open spec fn shifted(v: int, p: int) -> int {
    if plane_shift(p) == 1 {
        v / 2
    } else {
        v
    }
}

/// A length `v` in plane `p`'s resolution, rounded up.
pub open spec fn ceil_shifted(v: int, p: int) -> int {
    spec_ceil_rshift(v, plane_shift(p))
}

/// Plane `p` of a planar picture after a clear of `r` to `value`.
pub open spec fn plane_cleared(d: Seq<u8>, stride: int, origin: int, r: Rect, p: int, value: u8) -> Seq<u8> {
    rows_written(
        d,
        stride,
        origin,
        ceil_shifted(r.h as int, p),
        shifted(r.y as int, p),
        shifted(r.x as int, p),
        |k: int| repeated(seq![value], ceil_shifted(r.w as int, p)),
    )
}

/// Whether the rectangle `r`, in plane `p`'s resolution, lies within plane
/// `p` of `dst`.
pub open spec fn planar_rect_fits(dst: PlaneMut, r: Rect, p: int) -> bool {
    rows_fit(
        dst.origin as int,
        dst.stride as int,
        dst.bytes().len() as int,
        shifted(r.y as int, p),
        ceil_shifted(r.h as int, p),
        shifted(r.x as int, p),
        ceil_shifted(r.w as int, p),
    )
}

fn shift_of(p: usize) -> (r: u32)
    ensures
        r as int == plane_shift(p as int),
{
    if p == 1 || p == 2 {
        1
    } else {
        0
    }
}

fn shift_down(v: i32, s: u32) -> (r: i32)
    requires
        v >= 0,
        s <= 1,
    ensures
        r == if s == 1 { v / 2 } else { v as int },
        r >= 0,
{
    if s == 1 {
        v / 2
    } else {
        v
    }
}

/// Fills a rectangle with one colour, in whichever of the two canvas formats
/// is in use: four bytes a pixel on the one packed plane, or one value a
/// plane with the chroma halved.
pub fn clear(dst: &mut FrameMut, argb: bool, colour: [u8; 4], r: Rect)
    requires
        r.x >= 0,
        r.y >= 0,
        r.w >= 0,
        r.h >= 0,
        4 * r.x + 4 * r.w <= usize::MAX,
        argb ==> rows_fit(old(dst).plane[0].origin as int, old(dst).plane[0].stride as int, old(dst).plane[0].bytes().len() as int,
            r.y as int, r.h as int, 4 * r.x, 4 * r.w),
        !argb ==> forall|p: int| 0 <= p < 4 ==> #[trigger] planar_rect_fits(old(dst).plane[p], r, p),
    ensures
        argb ==> final(dst).plane[0].bytes() == rows_written(
            old(dst).plane[0].bytes(),
            old(dst).plane[0].stride as int,
            old(dst).plane[0].origin as int,
            r.h as int,
            r.y as int,
            4 * r.x,
            |k: int| repeated(colour@, 4 * r.w),
        ) && forall|p: int| 1 <= p < 4 ==> #[trigger] final(dst).plane[p] == old(dst).plane[p],
        !argb ==> forall|p: int| 0 <= p < 4 ==> #[trigger] final(dst).plane[p].bytes() == plane_cleared(
            old(dst).plane[p].bytes(),
            old(dst).plane[p].stride as int,
            old(dst).plane[p].origin as int,
            r,
            p,
            colour@[p],
        ),
        forall|p: int| 0 <= p < 4 ==> #[trigger] final(dst).plane[p].stride == old(dst).plane[p].stride
            && final(dst).plane[p].origin == old(dst).plane[p].origin,
        final(dst).width == old(dst).width,
        final(dst).height == old(dst).height,
        final(dst).format == old(dst).format,
{
    let planes = dst.planes_mut();
    if argb {
        let wu = r.w as usize;
        let xu = r.x as usize;
        assert(wu == r.w && xu == r.x);
        fill_rows(&mut planes[0], r.h, r.y, xu * 4, wu * 4, colour.as_slice());
        return;
    }
    let ghost start = *planes;
    let mut comp: usize = 0;
    while comp < 4
        invariant
            comp <= 4,
            r.x >= 0,
            r.y >= 0,
            r.w >= 0,
            r.h >= 0,
            forall|p: int| 0 <= p < 4 ==> #[trigger] planar_rect_fits(start[p], r, p),
            forall|p: int| 0 <= p < comp ==> #[trigger] planes[p].bytes() == plane_cleared(
                start[p].bytes(),
                start[p].stride as int,
                start[p].origin as int,
                r,
                p,
                colour@[p],
            ),
            forall|p: int| comp <= p < 4 ==> #[trigger] planes[p] == start[p],
            forall|p: int| 0 <= p < 4 ==> #[trigger] planes[p].stride == start[p].stride && planes[p].origin
                == start[p].origin,
        decreases 4 - comp,
    {
        let s = shift_of(comp);
        let from = shift_down(r.x, s) as usize;
        let len = ceil_rshift(r.w, s) as usize;
        let n = ceil_rshift(r.h, s);
        let y0 = shift_down(r.y, s);
        let value = [colour[comp]];
        proof {
            assert(planar_rect_fits(start[comp as int], r, comp as int));
            assert(value@ =~= seq![colour@[comp as int]]);
        }
        let ghost before = *planes;
        fill_rows(&mut planes[comp], n, y0, from, len, value.as_slice());
        proof {
            assert forall|p: int| 0 <= p < 4 && p != comp implies #[trigger] planes[p] == before[p] by {}
        }
        comp = comp + 1;
    }
}

/// Plane `p` of a planar picture after a copy of `r` from `src`, landing at
/// `(base_x, base_y)`.
pub open spec fn plane_copied(d: Seq<u8>, stride: int, origin: int, src: PlaneRef, r: Rect, p: int, base_x: int, base_y: int) -> Seq<u8> {
    rows_written(
        d,
        stride,
        origin,
        ceil_shifted(r.h as int, p),
        shifted(base_y, p),
        shifted(base_x, p),
        |k: int| src_row(src, shifted(r.y as int, p) + k, shifted(r.x as int, p), ceil_shifted(r.w as int, p)),
    )
}

/// The planes of a layout, each at its own stride and origin.
pub open spec fn same_layout(a: [PlaneMut; 4], b: [PlaneMut; 4]) -> bool {
    forall|p: int| 0 <= p < 4 ==> #[trigger] a[p].stride == b[p].stride && a[p].origin == b[p].origin
}

/// Whether the rectangle `r` of each of the first `nb` planes of `src` lies
/// within `src`, and, landed at `(base_x, base_y)`, within `dst`.
pub open spec fn yuva_rect_fits(dst: [PlaneMut; 4], src: Frame, nb: int, r: Rect, base_x: int, base_y: int) -> bool {
    forall|p: int|
        0 <= p < nb ==> #[trigger] rows_fit(
            src.plane[p].origin_of() as int,
            src.plane[p].stride_of() as int,
            src.plane[p].bytes().len() as int,
            shifted(r.y as int, p),
            ceil_shifted(r.h as int, p),
            shifted(r.x as int, p),
            ceil_shifted(r.w as int, p),
        ) && rows_fit(
            dst[p].origin as int,
            dst[p].stride as int,
            dst[p].bytes().len() as int,
            shifted(base_y, p),
            ceil_shifted(r.h as int, p),
            shifted(base_x, p),
            ceil_shifted(r.w as int, p),
        )
}

/// Copies the rectangle of the first `nb` planes.
fn copy_planes(planes: &mut [PlaneMut; 4], src: &Frame, nb: usize, r: Rect, base_x: i32, base_y: i32)
    requires
        nb <= 4,
        r.x >= 0,
        r.y >= 0,
        r.w >= 0,
        r.h >= 0,
        base_x >= 0,
        base_y >= 0,
        yuva_rect_fits(*old(planes), *src, nb as int, r, base_x as int, base_y as int),
    ensures
        forall|p: int|
            0 <= p < 4 ==> #[trigger] final(planes)[p].bytes() == if p < nb {
                plane_copied(
                    old(planes)[p].bytes(),
                    old(planes)[p].stride as int,
                    old(planes)[p].origin as int,
                    src.plane[p],
                    r,
                    p,
                    base_x as int,
                    base_y as int,
                )
            } else {
                old(planes)[p].bytes()
            },
        same_layout(*final(planes), *old(planes)),
{
    let ghost start = *planes;
    let mut comp: usize = 0;
    while comp < nb
        invariant
            nb <= 4,
            comp <= nb,
            r.x >= 0,
            r.y >= 0,
            r.w >= 0,
            r.h >= 0,
            base_x >= 0,
            base_y >= 0,
            start == *old(planes),
            yuva_rect_fits(start, *src, nb as int, r, base_x as int, base_y as int),
            forall|p: int| 0 <= p < comp ==> #[trigger] planes[p].bytes() == plane_copied(
                start[p].bytes(),
                start[p].stride as int,
                start[p].origin as int,
                src.plane[p],
                r,
                p,
                base_x as int,
                base_y as int,
            ),
            forall|p: int| comp <= p < 4 ==> #[trigger] planes[p] == start[p],
            same_layout(*planes, start),
        decreases nb - comp,
    {
        let s = shift_of(comp);
        let len = ceil_rshift(r.w, s) as usize;
        let n = ceil_rshift(r.h, s);
        let from_src = shift_down(r.x, s) as usize;
        let from_dst = shift_down(base_x, s) as usize;
        let sy = shift_down(r.y, s);
        let dy = shift_down(base_y, s);
        proof {
            assert(rows_fit(
                src.plane[comp as int].origin_of() as int,
                src.plane[comp as int].stride_of() as int,
                src.plane[comp as int].bytes().len() as int,
                shifted(r.y as int, comp as int),
                ceil_shifted(r.h as int, comp as int),
                shifted(r.x as int, comp as int),
                ceil_shifted(r.w as int, comp as int),
            ));
        }
        let ghost before = *planes;
        copy_rows(&mut planes[comp], src.plane[comp], n, sy, from_src, dy, from_dst, len);
        proof {
            assert forall|p: int| 0 <= p < 4 && p != comp implies #[trigger] planes[p] == before[p] by {}
        }
        comp = comp + 1;
    }
}

/// Copies a YUVA region. A source with no alpha plane leaves the destination's
/// opaque, which is what a frame coded without one means.
pub fn copy_yuva(dst: &mut FrameMut, src: &Frame, r: Rect, dst_x: i32, dst_y: i32)
    requires
        r.x >= 0,
        r.y >= 0,
        r.w >= 0,
        r.h >= 0,
        dst_x + r.x >= 0,
        dst_y + r.y >= 0,
        dst_x + r.x <= i32::MAX,
        dst_y + r.y <= i32::MAX,
        yuva_rect_fits(old(dst).plane, *src, spec_planes(src.format) as int, r, dst_x + r.x, dst_y + r.y),
        spec_planes(src.format) < 4 ==> rows_fit(
            old(dst).plane[3].origin as int,
            old(dst).plane[3].stride as int,
            old(dst).plane[3].bytes().len() as int,
            dst_y + r.y,
            r.h as int,
            dst_x + r.x,
            r.w as int,
        ),
    ensures
        forall|p: int|
            0 <= p < 4 ==> #[trigger] final(dst).plane[p].bytes() == if p < spec_planes(src.format) {
                plane_copied(
                    old(dst).plane[p].bytes(),
                    old(dst).plane[p].stride as int,
                    old(dst).plane[p].origin as int,
                    src.plane[p],
                    r,
                    p,
                    dst_x + r.x,
                    dst_y + r.y,
                )
            } else if p == 3 {
                rows_written(
                    old(dst).plane[3].bytes(),
                    old(dst).plane[3].stride as int,
                    old(dst).plane[3].origin as int,
                    r.h as int,
                    dst_y + r.y,
                    dst_x + r.x,
                    |k: int| repeated(seq![255u8], r.w as int),
                )
            } else {
                old(dst).plane[p].bytes()
            },
        same_layout(final(dst).plane, old(dst).plane),
        final(dst).width == old(dst).width,
        final(dst).height == old(dst).height,
        final(dst).format == old(dst).format,
{
    let nb = src.format.nb_components();
    let base_x = dst_x + r.x;
    let base_y = dst_y + r.y;
    let planes = dst.planes_mut();
    copy_planes(planes, src, nb, r, base_x, base_y);
    if nb < 4 {
        let ghost looped = *planes;
        fill_rows(&mut planes[3], r.h, base_y, base_x as usize, r.w as usize, [255u8].as_slice());
        proof {
            assert([255u8]@ =~= seq![255u8]);
            assert forall|p: int| 0 <= p < 3 implies #[trigger] planes[p] == looped[p] by {}
        }
    }
}

} // verus!
