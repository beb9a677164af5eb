//! What the driver needs to know of an output format given by number.

use vstd::prelude::*;
use crate::image::{ceil_rshift, format_of, spec_bpp, spec_ceil_rshift, spec_planes, spec_premultiplied, Format};
use crate::picture::chroma_shift;
use super::ANIM_SUBFRAME;

verus! {

pub fn format_is_packed(format: i32) -> (r: bool)
    ensures
        r == (format_of(format as int) matches Some(f) && spec_planes(f) == 1),
{
    match Format::from_raw(format) {
        Some(f) => f.is_packed(),
        None => false,
    }
}

/// Bytes per pixel, four when the number names no format.
pub fn format_bpp(format: i32) -> (r: usize)
    ensures
        r == match format_of(format as int) {
            Some(f) => spec_bpp(f),
            None => 4,
        },
{
    match Format::from_raw(format) {
        Some(f) => f.bpp(),
        None => 4,
    }
}

pub fn format_is_premultiplied(format: i32) -> (r: bool)
    ensures
        r == (format_of(format as int) matches Some(f) && spec_premultiplied(f)),
{
    match Format::from_raw(format) {
        Some(f) => f.is_premultiplied(),
        None => false,
    }
}

pub fn format_valid(format: i32) -> (r: bool)
    ensures
        r == format_of(format as int) is Some,
{
    Format::from_raw(format).is_some()
}

/// How many planes a format hands out, one when the number names none.
pub fn format_planes(format: i32) -> (r: usize)
    ensures
        r == match format_of(format as int) {
            Some(f) => spec_planes(f),
            None => 1,
        },
{
    match Format::from_raw(format) {
        Some(f) => f.nb_components(),
        None => 1,
    }
}

/// `v`, or 0 when it is negative.
pub open spec fn nonneg(v: int) -> int {
    if v < 0 {
        0
    } else {
        v
    }
}

/// The width in bytes and the height of plane `p` of a `w` by `h` picture.
pub fn format_plane_dims(format: i32, p: usize, w: i32, h: i32) -> (r: (usize, usize))
    requires
        nonneg(w as int) * 4 <= usize::MAX,
    ensures
        ({
            let planes = match format_of(format as int) {
                Some(f) => spec_planes(f),
                None => 1,
            };
            let bpp = match format_of(format as int) {
                Some(f) => spec_bpp(f),
                None => 4,
            };
            if planes == 1 {
                r.0 == nonneg(w as int) * bpp && r.1 == nonneg(h as int)
            } else {
                r.0 == spec_ceil_rshift(nonneg(w as int), chroma_shift(p as int)) && r.1 == spec_ceil_rshift(
                    nonneg(h as int),
                    chroma_shift(p as int),
                )
            }
        }),
{
    let w0 = if w < 0 {
        0
    } else {
        w
    };
    let h0 = if h < 0 {
        0
    } else {
        h
    };
    if format_planes(format) == 1 {
        let bpp = format_bpp(format);
        let wu = w0 as usize;
        proof {
            assert(wu as int == w0 as int);
            assert(wu * bpp <= wu * 4) by (nonlinear_arith)
                requires
                    0 <= wu,
                    bpp <= 4,
            ;
        }
        return (wu * bpp, h0 as usize);
    }
    let shift: u32 = if p == 1 || p == 2 {
        1
    } else {
        0
    };
    (ceil_rshift(w0, shift) as usize, ceil_rshift(h0, shift) as usize)
}

/// Whether premultiplication happens after packing: always for stills and
/// for sub-frames, while a composited animation premultiplies its canvas.
pub fn premultiply_after_pack(animation: bool, anim_mode: i32) -> (r: bool)
    ensures
        r == (!animation || anim_mode == ANIM_SUBFRAME),
{
    !animation || anim_mode == ANIM_SUBFRAME
}

} // verus!
