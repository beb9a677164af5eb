//! Pixel formats, and the size arithmetic every picture shares.

use crate::error::{Error, Result};
use vstd::prelude::*;

verus! {

/// The slack every buffer keeps past its last byte, so a kernel may read a
/// little past the end of a row without leaving the allocation.
pub const FILE_PADDING: usize = 64;

/// The layouts a picture can be handed out in.
#[derive(Clone, Copy, PartialEq, Eq, Debug, Structural)]
pub enum Format {
    Yuv420p,
    Yuva420p,
    Argb,
    Rgba,
    Bgra,
    Rgb,
    Bgr,
    ArgbPre,
    RgbaPre,
    BgraPre,
    Rgb565,
    Rgba4444,
    Rgba4444Pre,
    Bgr565,
    Bgra4444,
    Bgra4444Pre,
}

/// The number a format is known by across the C ABI.
pub open spec fn format_number(f: Format) -> int {
    match f {
        Format::Yuv420p => 0,
        Format::Yuva420p => 1,
        Format::Argb => 2,
        Format::Rgba => 3,
        Format::Bgra => 4,
        Format::Rgb => 5,
        Format::Bgr => 6,
        Format::ArgbPre => 7,
        Format::RgbaPre => 8,
        Format::BgraPre => 9,
        Format::Rgb565 => 10,
        Format::Rgba4444 => 11,
        Format::Rgba4444Pre => 12,
        Format::Bgr565 => 13,
        Format::Bgra4444 => 14,
        Format::Bgra4444Pre => 15,
    }
}

pub open spec fn spec_bpp(f: Format) -> usize {
    match f {
        Format::Yuv420p | Format::Yuva420p => 1,
        Format::Rgb | Format::Bgr => 3,
        Format::Rgb565 | Format::Rgba4444 | Format::Rgba4444Pre | Format::Bgr565
        | Format::Bgra4444 | Format::Bgra4444Pre => 2,
        _ => 4,
    }
}

pub open spec fn spec_planes(f: Format) -> usize {
    match f {
        Format::Yuv420p => 3,
        Format::Yuva420p => 4,
        _ => 1,
    }
}

pub open spec fn spec_premultiplied(f: Format) -> bool {
    match f {
        Format::ArgbPre | Format::RgbaPre | Format::BgraPre | Format::Rgba4444Pre
        | Format::Bgra4444Pre => true,
        _ => false,
    }
}

/// The format numbered `raw`, if there is one.
pub open spec fn format_of(raw: int) -> Option<Format> {
    if raw == 0 {
        Some(Format::Yuv420p)
    } else if raw == 1 {
        Some(Format::Yuva420p)
    } else if raw == 2 {
        Some(Format::Argb)
    } else if raw == 3 {
        Some(Format::Rgba)
    } else if raw == 4 {
        Some(Format::Bgra)
    } else if raw == 5 {
        Some(Format::Rgb)
    } else if raw == 6 {
        Some(Format::Bgr)
    } else if raw == 7 {
        Some(Format::ArgbPre)
    } else if raw == 8 {
        Some(Format::RgbaPre)
    } else if raw == 9 {
        Some(Format::BgraPre)
    } else if raw == 10 {
        Some(Format::Rgb565)
    } else if raw == 11 {
        Some(Format::Rgba4444)
    } else if raw == 12 {
        Some(Format::Rgba4444Pre)
    } else if raw == 13 {
        Some(Format::Bgr565)
    } else if raw == 14 {
        Some(Format::Bgra4444)
    } else if raw == 15 {
        Some(Format::Bgra4444Pre)
    } else {
        None
    }
}

impl Format {
    /// The format numbered `raw`, if there is one.
    pub fn from_raw(raw: i32) -> (r: Option<Format>)
        ensures
            r matches Some(f) ==> format_number(f) == raw,
            r is None <==> !(0 <= raw < 16),
            r == format_of(raw as int),
    {
        match raw {
            0 => Some(Format::Yuv420p),
            1 => Some(Format::Yuva420p),
            2 => Some(Format::Argb),
            3 => Some(Format::Rgba),
            4 => Some(Format::Bgra),
            5 => Some(Format::Rgb),
            6 => Some(Format::Bgr),
            7 => Some(Format::ArgbPre),
            8 => Some(Format::RgbaPre),
            9 => Some(Format::BgraPre),
            10 => Some(Format::Rgb565),
            11 => Some(Format::Rgba4444),
            12 => Some(Format::Rgba4444Pre),
            13 => Some(Format::Bgr565),
            14 => Some(Format::Bgra4444),
            15 => Some(Format::Bgra4444Pre),
            _ => None,
        }
    }

    /// The number [`Format::from_raw`] takes back.
    pub fn raw(self) -> (r: i32)
        ensures
            r == format_number(self),
    {
        match self {
            Format::Yuv420p => 0,
            Format::Yuva420p => 1,
            Format::Argb => 2,
            Format::Rgba => 3,
            Format::Bgra => 4,
            Format::Rgb => 5,
            Format::Bgr => 6,
            Format::ArgbPre => 7,
            Format::RgbaPre => 8,
            Format::BgraPre => 9,
            Format::Rgb565 => 10,
            Format::Rgba4444 => 11,
            Format::Rgba4444Pre => 12,
            Format::Bgr565 => 13,
            Format::Bgra4444 => 14,
            Format::Bgra4444Pre => 15,
        }
    }

    /// Bytes per pixel of a packed format; one for the planar ones.
    pub fn bpp(self) -> (r: usize)
        ensures
            r == spec_bpp(self),
    {
        match self {
            Format::Yuv420p | Format::Yuva420p => 1,
            Format::Rgb | Format::Bgr => 3,
            Format::Rgb565 | Format::Rgba4444 | Format::Rgba4444Pre | Format::Bgr565
            | Format::Bgra4444 | Format::Bgra4444Pre => 2,
            _ => 4,
        }
    }

    /// How many planes the format hands out.
    pub fn nb_components(self) -> (r: usize)
        ensures
            r == spec_planes(self),
    {
        match self {
            Format::Yuv420p => 3,
            Format::Yuva420p => 4,
            _ => 1,
        }
    }

    pub fn is_packed(self) -> (r: bool)
        ensures
            r <==> spec_planes(self) == 1,
    {
        !matches!(self, Format::Yuv420p | Format::Yuva420p)
    }

    pub fn is_premultiplied(self) -> (r: bool)
        ensures
            r == spec_premultiplied(self),
    {
        matches!(
            self,
            Format::ArgbPre | Format::RgbaPre | Format::BgraPre | Format::Rgba4444Pre
                | Format::Bgra4444Pre
        )
    }
}

/// `v / 2^s`, rounded up.
pub open spec fn spec_ceil_rshift(v: int, s: int) -> int {
    if s == 0 { v } else { (v + 1) / 2 }
}

/// `v` divided by `2^s` and rounded up, for the chroma halving (`s` is 0 or 1).
pub fn ceil_rshift(v: i32, s: u32) -> (r: i32)
    requires
        s <= 1,
        v >= 0,
    ensures
        r == spec_ceil_rshift(v as int, s as int),
{
    if s == 0 {
        v
    } else {
        v / 2 + v % 2
    }
}

/// The bytes a `w` by `h` plane of `bpp`-byte samples takes, padding included.
pub fn plane_size(w: i32, h: i32, bpp: usize) -> (r: Result<usize>)
    ensures
        r matches Ok(n) ==> n == w * bpp * h + FILE_PADDING && w > 0 && h > 0,
        r is Err ==> r == Err::<usize, Error>(Error::TooLarge),
        (w > 0 && h > 0 && w * bpp * h + FILE_PADDING <= usize::MAX) ==> r is Ok,
{
    if w <= 0 || h <= 0 {
        return Err(Error::TooLarge);
    }
    let row = match (w as usize).checked_mul(bpp) {
        Some(n) => n,
        None => {
            assert(w * bpp * h >= w * bpp) by (nonlinear_arith)
                requires h >= 1, w >= 1;
            return Err(Error::TooLarge);
        },
    };
    let all = match row.checked_mul(h as usize) {
        Some(n) => n,
        None => return Err(Error::TooLarge),
    };
    match all.checked_add(FILE_PADDING) {
        Some(n) => Ok(n),
        None => Err(Error::TooLarge),
    }
}

} // verus!
