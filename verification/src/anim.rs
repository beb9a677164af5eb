//! Where an animation's sub-frame lands on the canvas, and which parts of it
//! are blended rather than copied.
//!
//! This is the compositor's geometry, which is all of it that does not touch a
//! pixel: whether a frame stands on its own, and how the rule about blending
//! only where the canvas can be non-transparent divides the frame into
//! regions; and the decisions taken around decoding an ANMF frame's image:
//! what its header declares, whether it fits, and what it is composited in.

use crate::container::{ANMF_FLAG_DISPOSE, ANMF_FLAG_NO_BLEND, lez, rl24};
use crate::error::{Error, Result};
use crate::image::Format;
use vstd::prelude::*;

verus! {

/// A rectangle in sub-frame coordinates, and whether it blends onto what is
/// under it or overwrites it.
#[derive(Clone, Copy, PartialEq, Eq, Debug, Structural)]
pub struct Region {
    pub x: i32,
    pub y: i32,
    pub w: i32,
    pub h: i32,
    pub blend: bool,
}

/// What the frame being placed and the frame before it declared.
#[derive(Clone, Copy, Default, Debug)]
pub struct AnimState {
    pub pos_x: i32,
    pub pos_y: i32,
    pub anmf_flags: u8,
    pub frame_index: i32,
    pub frame_has_alpha: bool,
    pub key_frame: bool,
    pub prev_anmf_flags: u8,
    pub prev_width: i32,
    pub prev_height: i32,
    pub prev_pos_x: i32,
    pub prev_pos_y: i32,
    pub prev_key_frame: bool,
}

/// Where the frame goes and what the frame before it left behind.
#[derive(Clone, Copy, Default, Debug)]
pub struct Placement {
    pub canvas_width: i32,
    pub canvas_height: i32,
    pub frame: AnimState,
}

pub open spec fn disposes(flags: u8) -> bool {
    flags & ANMF_FLAG_DISPOSE != 0
}

pub open spec fn no_blend(flags: u8) -> bool {
    flags & ANMF_FLAG_NO_BLEND != 0
}

impl Placement {
    pub open spec fn spec_is_full_frame(&self, width: i32, height: i32) -> bool {
        width == self.canvas_width && height == self.canvas_height
    }

    /// Three ways a frame stands on its own: it is the first; it covers the
    /// canvas and cannot show through; or the frame before it disposed
    /// everything this one could have seen.
    pub open spec fn spec_is_key_frame(&self, width: i32, height: i32) -> bool {
        let f = self.frame;
        ||| f.frame_index == 0
        ||| (!f.frame_has_alpha || no_blend(f.anmf_flags)) && f.pos_x == 0 && f.pos_y == 0
            && self.spec_is_full_frame(width, height)
        ||| disposes(f.prev_anmf_flags) && (self.spec_is_full_frame(f.prev_width, f.prev_height)
            || f.prev_key_frame)
    }

    /// The first frame of an animation is always a key frame, whatever its
    /// size, position or alpha.
    pub proof fn law_the_first_frame_is_always_a_key_frame(&self, width: i32, height: i32)
        requires
            self.frame.frame_index == 0,
        ensures
            self.spec_is_key_frame(width, height),
    {
    }

    fn is_full_frame(&self, width: i32, height: i32) -> (r: bool)
        ensures
            r == self.spec_is_full_frame(width, height),
    {
        width == self.canvas_width && height == self.canvas_height
    }

    /// Whether this frame stands on its own, so whatever the canvas holds can
    /// be discarded rather than blended with.
    pub fn is_key_frame(&self, width: i32, height: i32) -> (r: bool)
        ensures
            r == self.spec_is_key_frame(width, height),
    {
        if self.frame.frame_index == 0 {
            return true;
        }
        if (!self.frame.frame_has_alpha || self.frame.anmf_flags & ANMF_FLAG_NO_BLEND != 0)
            && self.frame.pos_x == 0 && self.frame.pos_y == 0 && self.is_full_frame(width, height)
        {
            return true;
        }
        self.frame.prev_anmf_flags & ANMF_FLAG_DISPOSE != 0 && (self.is_full_frame(
            self.frame.prev_width,
            self.frame.prev_height,
        ) || self.frame.prev_key_frame)
    }
}

/// Whether the sample `(x, y)` lies in `r`.
pub open spec fn in_region(r: Region, x: int, y: int) -> bool {
    r.x <= x < r.x + r.w && r.y <= y < r.y + r.h
}

/// Some one of the first `n` regions holds `(x, y)`.
pub open spec fn covered(out: [Region; 5], n: int, x: int, y: int) -> bool {
    exists|i: int| 0 <= i < n && #[trigger] in_region(out[i], x, y)
}

/// The first `n` regions cover the `w` by `h` frame exactly once each: every
/// sample of the frame lies in exactly one of them, and none reaches outside.
pub open spec fn tiles(out: [Region; 5], n: int, w: int, h: int) -> bool {
    &&& forall|i: int, x: int, y: int|
        0 <= i < n && #[trigger] in_region(out[i], x, y) ==> 0 <= x < w && 0 <= y < h
    &&& forall|x: int, y: int| 0 <= x < w && 0 <= y < h ==> #[trigger] covered(out, n, x, y)
    &&& forall|i: int, j: int, x: int, y: int|
        0 <= i < n && 0 <= j < n && i != j && #[trigger] in_region(out[i], x, y)
            ==> !#[trigger] in_region(out[j], x, y)
}

/// Coordinates small enough that sums of two of them stay an `i32`.
pub open spec fn small(v: i32) -> bool {
    0 <= v <= 0x4000000
}

/// Where, in this frame's coordinates, the rectangle the previous frame
/// disposed overlaps it: the corner `(kx, ky)` and the extent `(kw, kh)`,
/// before any rounding (the extent is not positive where they do not meet).
pub open spec fn overlap(f: AnimState, width: int, height: int) -> (int, int, int, int) {
    let kx = (if f.pos_x > f.prev_pos_x { f.pos_x as int } else { f.prev_pos_x as int }) - f.pos_x;
    let ky = (if f.pos_y > f.prev_pos_y { f.pos_y as int } else { f.prev_pos_y as int }) - f.pos_y;
    let right = if f.pos_x + width < f.prev_pos_x + f.prev_width { f.pos_x + width } else { f.prev_pos_x + f.prev_width };
    let bottom = if f.pos_y + height < f.prev_pos_y + f.prev_height { f.pos_y + height } else { f.prev_pos_y + f.prev_height };
    (kx, ky, right - f.pos_x - kx, bottom - f.pos_y - ky)
}

/// The overlap's extent as it is copied: rounded down to even on a planar
/// canvas.
pub open spec fn kept(k: int, chroma_aligned: bool) -> int {
    if chroma_aligned { k - k % 2 } else { k }
}

/// Whether compositing splits the frame into five regions: it blends, the
/// previous frame disposed its rectangle, and their overlap survives rounding.
pub open spec fn splits(place: Placement, width: int, height: int, alpha: bool, chroma_aligned: bool) -> bool {
    let f = place.frame;
    let o = overlap(f, width, height);
    &&& !(f.key_frame || no_blend(f.anmf_flags) || !alpha)
    &&& disposes(f.prev_anmf_flags)
    &&& o.2 > 0 && o.3 > 0
    &&& kept(o.2, chroma_aligned) > 0 && kept(o.3, chroma_aligned) > 0
}

/// The five regions of a split frame: the strips above and below the copied
/// overlap, the strips left and right of it, and the overlap itself.
pub open spec fn five_regions(w: int, h: int, kx: int, ky: int, kw: int, kh: int) -> Seq<Region> {
    seq![
        Region { x: 0, y: 0, w: w as i32, h: ky as i32, blend: true },
        Region { x: 0, y: (ky + kh) as i32, w: w as i32, h: (h - ky - kh) as i32, blend: true },
        Region { x: 0, y: ky as i32, w: kx as i32, h: kh as i32, blend: true },
        Region { x: (kx + kw) as i32, y: ky as i32, w: (w - kx - kw) as i32, h: kh as i32, blend: true },
        Region { x: kx as i32, y: ky as i32, w: kw as i32, h: kh as i32, blend: false },
    ]
}

/// How compositing this frame divides into regions, in the order they are
/// applied.
///
/// The frame rectangle is overwritten, and alpha-blended only where the
/// previous canvas can be non-transparent. When the frame before this one
/// disposed its rectangle, the part of this frame outside that rectangle is the
/// part with something under it, so the overlap is copied and the four strips
/// around it are blended.
///
/// `chroma_aligned` is set for a planar canvas, whose 2x2 chroma blocks cannot
/// be split: an overlap that rounds away to nothing is given up on and the
/// whole frame is blended instead.
#[verifier::rlimit(100)]
#[verifier::spinoff_prover]
pub fn regions(
    place: &Placement,
    width: i32,
    height: i32,
    frame_has_alpha_plane: bool,
    chroma_aligned: bool,
    out: &mut [Region; 5],
) -> (n: usize)
    requires
        small(place.frame.pos_x),
        small(place.frame.pos_y),
        small(place.frame.prev_pos_x),
        small(place.frame.prev_pos_y),
        small(place.frame.prev_width),
        small(place.frame.prev_height),
        small(width),
        small(height),
    ensures
        n == 1 || n == 5,
        tiles(*final(out), n as int, width as int, height as int),
        n == 5 <==> splits(*place, width as int, height as int, frame_has_alpha_plane, chroma_aligned),
        // One region leaves the other four slots as they were.
        n == 1 ==> forall|i: int| 1 <= i < 5 ==> #[trigger] final(out)[i] == old(out)[i],
        n == 1 ==> final(out)[0].x == 0 && final(out)[0].y == 0 && final(out)[0].w == width
            && final(out)[0].h == height,
        // Five regions are exactly the overlap and the four strips around it,
        // each of a non-negative size.
        n == 5 ==> {
            let o = overlap(place.frame, width as int, height as int);
            let kw = kept(o.2, chroma_aligned);
            let kh = kept(o.3, chroma_aligned);
            &&& 0 <= o.0 && 0 <= o.1 && o.0 + kw <= width && o.1 + kh <= height
            &&& forall|i: int| 0 <= i < 5 ==> #[trigger] final(out)[i] == five_regions(
                width as int,
                height as int,
                o.0,
                o.1,
                kw,
                kh,
            )[i]
        },
        n == 5 ==> forall|i: int| 0 <= i < 5 ==> #[trigger] final(out)[i].w >= 0 && final(out)[i].h >= 0,
        place.frame.key_frame || no_blend(place.frame.anmf_flags) || !frame_has_alpha_plane ==> n
            == 1 && final(out)[0] == (Region { x: 0, y: 0, w: width, h: height, blend: false }),
        !(place.frame.key_frame || no_blend(place.frame.anmf_flags) || !frame_has_alpha_plane)
            && !disposes(place.frame.prev_anmf_flags) ==> n == 1 && final(out)[0] == (Region {
            x: 0,
            y: 0,
            w: width,
            h: height,
            blend: true,
        }),
        n == 1 && !(place.frame.key_frame || no_blend(place.frame.anmf_flags)
            || !frame_has_alpha_plane) ==> final(out)[0].blend,
        n == 5 ==> !final(out)[4].blend && final(out)[0].blend && final(out)[1].blend
            && final(out)[2].blend && final(out)[3].blend,
        n == 5 ==> disposes(place.frame.prev_anmf_flags) && frame_has_alpha_plane,
        // The copied overlap is exactly the part of this frame the previous
        // frame's rectangle covered, rounded to even extents on a planar canvas.
        n == 5 ==> {
            let f = place.frame;
            let r = final(out)[4];
            &&& r.x + f.pos_x == if f.pos_x > f.prev_pos_x { f.pos_x } else { f.prev_pos_x }
            &&& r.y + f.pos_y == if f.pos_y > f.prev_pos_y { f.pos_y } else { f.prev_pos_y }
            &&& r.w > 0 && r.h > 0
            &&& chroma_aligned ==> r.w % 2 == 0 && r.h % 2 == 0
        },
{
    let full = Region { x: 0, y: 0, w: width, h: height, blend: true };
    let copy_all = Region { x: 0, y: 0, w: width, h: height, blend: false };
    let f = place.frame;

    if f.key_frame || f.anmf_flags & ANMF_FLAG_NO_BLEND != 0 || !frame_has_alpha_plane {
        out[0] = copy_all;
        proof { lemma_one_region_tiles(*out, width as int, height as int); }
        return 1;
    }
    if f.prev_anmf_flags & ANMF_FLAG_DISPOSE == 0 {
        out[0] = full;
        proof { lemma_one_region_tiles(*out, width as int, height as int); }
        return 1;
    }

    let kx = if f.pos_x > f.prev_pos_x { f.pos_x } else { f.prev_pos_x } - f.pos_x;
    let ky = if f.pos_y > f.prev_pos_y { f.pos_y } else { f.prev_pos_y } - f.pos_y;
    let right = if f.pos_x + width < f.prev_pos_x + f.prev_width {
        f.pos_x + width
    } else {
        f.prev_pos_x + f.prev_width
    };
    let bottom = if f.pos_y + height < f.prev_pos_y + f.prev_height {
        f.pos_y + height
    } else {
        f.prev_pos_y + f.prev_height
    };
    let mut kw = right - f.pos_x - kx;
    let mut kh = bottom - f.pos_y - ky;

    if kw <= 0 || kh <= 0 {
        out[0] = full;
        proof { lemma_one_region_tiles(*out, width as int, height as int); }
        return 1;
    }
    if chroma_aligned {
        kw = kw - kw % 2;
        kh = kh - kh % 2;
        if kw == 0 || kh == 0 {
            out[0] = full;
            proof { lemma_one_region_tiles(*out, width as int, height as int); }
            return 1;
        }
        // Only the extent is rounded, not the corner: the region blitters
        // truncate an odd corner to its chroma block.
    }

    out[0] = Region { x: 0, y: 0, w: width, h: ky, blend: true };
    out[1] = Region { x: 0, y: ky + kh, w: width, h: height - ky - kh, blend: true };
    out[2] = Region { x: 0, y: ky, w: kx, h: kh, blend: true };
    out[3] = Region { x: kx + kw, y: ky, w: width - kx - kw, h: kh, blend: true };
    out[4] = Region { x: kx, y: ky, w: kw, h: kh, blend: false };
    proof {
        assert(forall|i: int| 0 <= i < 5 ==> #[trigger] out[i] == five_regions(
            width as int, height as int, kx as int, ky as int, kw as int, kh as int)[i]);
        lemma_five_regions_tile(*out, width as int, height as int, kx as int, ky as int,
            kw as int, kh as int);
    }
    5
}

proof fn lemma_one_region_tiles(out: [Region; 5], w: int, h: int)
    requires
        out[0].x == 0 && out[0].y == 0 && out[0].w == w && out[0].h == h,
    ensures
        tiles(out, 1, w, h),
{
    assert forall|x: int, y: int| 0 <= x < w && 0 <= y < h implies covered(out, 1, x, y) by {
        assert(in_region(out[0], x, y));
    }
}

proof fn lemma_five_regions_tile(out: [Region; 5], w: int, h: int, kx: int, ky: int, kw: int, kh: int)
    requires
        0 <= kx, 0 <= ky, 0 < kw, 0 < kh, kx + kw <= w, ky + kh <= h,
        out[0] == (Region { x: 0, y: 0, w: w as i32, h: ky as i32, blend: true }),
        out[1] == (Region { x: 0, y: (ky + kh) as i32, w: w as i32, h: (h - ky - kh) as i32, blend: true }),
        out[2] == (Region { x: 0, y: ky as i32, w: kx as i32, h: kh as i32, blend: true }),
        out[3] == (Region { x: (kx + kw) as i32, y: ky as i32, w: (w - kx - kw) as i32, h: kh as i32, blend: true }),
        out[4] == (Region { x: kx as i32, y: ky as i32, w: kw as i32, h: kh as i32, blend: false }),
        out[0].w == w, out[0].h == ky, out[1].y == ky + kh, out[1].w == w, out[1].h == h - ky - kh,
        out[2].y == ky, out[2].w == kx, out[2].h == kh, out[3].x == kx + kw, out[3].y == ky,
        out[3].w == w - kx - kw, out[3].h == kh, out[4].x == kx, out[4].y == ky, out[4].w == kw,
        out[4].h == kh,
    ensures
        tiles(out, 5, w, h),
{
    assert forall|x: int, y: int| 0 <= x < w && 0 <= y < h implies covered(out, 5, x, y) by {
        if y < ky {
            assert(in_region(out[0], x, y));
        } else if y >= ky + kh {
            assert(in_region(out[1], x, y));
        } else if x < kx {
            assert(in_region(out[2], x, y));
        } else if x >= kx + kw {
            assert(in_region(out[3], x, y));
        } else {
            assert(in_region(out[4], x, y));
        }
    }
}

/// What the sixteen-byte header of an ANMF chunk declares: the frame's
/// corner, its size, its duration and its flags.
pub open spec fn anmf_declared(h: Seq<u8>) -> (int, int, int, int, int, u8) {
    (2 * lez(h, 0, 3), 2 * lez(h, 3, 3), lez(h, 6, 3) + 1, lez(h, 9, 3) + 1, lez(h, 12, 3), h[15])
}

/// Reads an ANMF chunk's header into `anim` (the frame's corner and flags)
/// and checks that the frame it declares fits the `canvas_width` by
/// `canvas_height` canvas. Gives the declared width, height and duration.
/// A header cut short is refused with nothing read.
pub fn anmf_begin(anim: &mut AnimState, header: &[u8], canvas_width: i32, canvas_height: i32) -> (r: Result<
    (i32, i32, i32),
>)
    ensures
        header.len() < 16 ==> r == Err::<(i32, i32, i32), Error>(Error::InvalidData) && *final(anim) == *old(anim),
        header.len() >= 16 ==> {
            let d = anmf_declared(header@);
            &&& *final(anim) == (AnimState { pos_x: d.0 as i32, pos_y: d.1 as i32, anmf_flags: d.5, ..*old(anim) })
            &&& r is Ok <==> d.0 + d.2 <= canvas_width && d.1 + d.3 <= canvas_height
            &&& r is Ok ==> r == Ok::<(i32, i32, i32), Error>((d.2 as i32, d.3 as i32, d.4 as i32))
            &&& r is Err ==> r == Err::<(i32, i32, i32), Error>(Error::InvalidData)
        },
{
    if header.len() < 16 {
        return Err(Error::InvalidData);
    }
    let x = rl24(header, 0);
    let y = rl24(header, 3);
    let w = rl24(header, 6);
    let h = rl24(header, 9);
    let d = rl24(header, 12);
    anim.pos_x = (x * 2) as i32;
    anim.pos_y = (y * 2) as i32;
    anim.anmf_flags = header[15];
    let width = (w + 1) as i32;
    let height = (h + 1) as i32;
    if anim.pos_x + width > canvas_width || anim.pos_y + height > canvas_height {
        return Err(Error::InvalidData);
    }
    Ok((width, height, d as i32))
}

/// Whether a frame at `(x, y)` of `w` by `h` fits a `cw` by `ch` canvas.
pub open spec fn fits(x: int, y: int, w: int, h: int, cw: int, ch: int) -> bool {
    x + w <= cw && y + h <= ch
}

/// The format a frame is composited in: ARGB when its image is, when the
/// output is packed, or when a frame that does not stand on its own lands on
/// an ARGB canvas; planar YUV with alpha otherwise.
pub open spec fn anmf_target(sub_format: Format, out_packed: bool, key_frame: bool, canvas_argb: bool) -> Format {
    if sub_format == Format::Argb || out_packed || (!key_frame && canvas_argb) {
        Format::Argb
    } else {
        Format::Yuva420p
    }
}

/// Once the frame's image is decoded, `sub_width` by `sub_height` in
/// `sub_format`: records whether it has alpha, refuses an image that does not
/// fit the canvas, decides whether the frame stands on its own, and gives the
/// format it is composited in. `canvas_argb` says the canvas already holds an
/// ARGB picture.
pub fn anmf_place(
    anim: &mut AnimState,
    canvas_width: i32,
    canvas_height: i32,
    has_alpha: bool,
    sub_width: i32,
    sub_height: i32,
    sub_format: Format,
    out_packed: bool,
    canvas_argb: bool,
) -> (r: Result<Format>)
    ensures
        final(anim).frame_has_alpha == has_alpha,
        !fits(old(anim).pos_x as int, old(anim).pos_y as int, sub_width as int, sub_height as int, canvas_width as int, canvas_height as int)
            ==> r == Err::<Format, Error>(Error::InvalidData) && *final(anim) == (AnimState { frame_has_alpha: has_alpha, ..*old(anim) }),
        fits(old(anim).pos_x as int, old(anim).pos_y as int, sub_width as int, sub_height as int, canvas_width as int, canvas_height as int)
            ==> {
            let p = Placement {
                canvas_width,
                canvas_height,
                frame: AnimState { key_frame: false, frame_has_alpha: has_alpha, ..*old(anim) },
            };
            &&& *final(anim) == (AnimState {
                frame_has_alpha: has_alpha,
                key_frame: p.spec_is_key_frame(sub_width, sub_height),
                ..*old(anim)
            })
            &&& r == Ok::<Format, Error>(anmf_target(sub_format, out_packed, final(anim).key_frame, canvas_argb))
        },
{
    anim.frame_has_alpha = has_alpha;
    if anim.pos_x as i64 + sub_width as i64 > canvas_width as i64 || anim.pos_y as i64 + sub_height as i64
        > canvas_height as i64 {
        return Err(Error::InvalidData);
    }
    let mut frame = *anim;
    frame.key_frame = false;
    let p = Placement { canvas_width, canvas_height, frame };
    anim.key_frame = p.is_key_frame(sub_width, sub_height);
    if sub_format == Format::Argb || out_packed || (!anim.key_frame && canvas_argb) {
        Ok(Format::Argb)
    } else {
        Ok(Format::Yuva420p)
    }
}

/// After the frame is composited: it becomes the frame before the next one,
/// and the animation's clock moves on by its duration.
pub fn anmf_advance(anim: &mut AnimState, sub_width: i32, sub_height: i32, timestamp: i64, duration: i32) -> (r: i64)
    requires
        old(anim).frame_index < i32::MAX,
        i64::MIN <= timestamp + duration <= i64::MAX,
    ensures
        r == timestamp + duration,
        *final(anim) == (AnimState {
            prev_anmf_flags: old(anim).anmf_flags,
            prev_width: sub_width,
            prev_height: sub_height,
            prev_pos_x: old(anim).pos_x,
            prev_pos_y: old(anim).pos_y,
            prev_key_frame: old(anim).key_frame,
            frame_index: (old(anim).frame_index + 1) as i32,
            ..*old(anim)
        }),
{
    anim.prev_anmf_flags = anim.anmf_flags;
    anim.prev_width = sub_width;
    anim.prev_height = sub_height;
    anim.prev_pos_x = anim.pos_x;
    anim.prev_pos_y = anim.pos_y;
    anim.prev_key_frame = anim.key_frame;
    anim.frame_index = anim.frame_index + 1;
    timestamp + duration as i64
}

} // verus!
