//! The RIFF container: walking the chunk list of a file that may still be
//! arriving, without decoding any of it.
//!
//! The scanner works in stream offsets rather than pointers, so the buffer it
//! is handed can move, grow or lose its head between calls. [`Scan::headers`]
//! takes the window that is currently buffered along with the stream offset it
//! starts at, and resumes from wherever the last call stopped, which is what
//! keeps feeding a stream one piece at a time linear rather than quadratic.
//!
//! Nothing here indexes without a bound: every field read goes through the
//! helpers below, which read zero past the end of the window, so a size field
//! that claims more than has arrived cannot take a read outside the slice.

use crate::bits::{byte_at, byte_or_zero};
use crate::error::{Error, Result};
use vstd::prelude::*;

verus! {

/// ICCP, EXIF and XMP, in metadata bit order.
pub const METADATA_NB: usize = 3;

/// Far above any animation a player would sit through, and low enough that the
/// table cannot be made to eat memory by a file that is all ANMF headers. A
/// file past it still decodes; the table simply stops growing.
pub const MAX_FRAMES: usize = 1048576;

pub const ANMF_FLAG_DISPOSE: u8 = 1;
pub const ANMF_FLAG_NO_BLEND: u8 = 2;

pub const VP8X_FLAG_ANIM: u8 = 0x02;
pub const VP8X_FLAG_XMP: u8 = 0x04;
pub const VP8X_FLAG_EXIF: u8 = 0x08;
pub const VP8X_FLAG_ALPHA: u8 = 0x10;
pub const VP8X_FLAG_ICCP: u8 = 0x20;
/// Every flag bit a VP8X chunk may set; the other two are reserved.
pub const VP8X_FLAGS_VALID: u8 = 0x3e;

pub const VP8X_CHUNK_SIZE: u32 = 10;
pub const ANIM_CHUNK_SIZE: u32 = 6;

/// The chunk tags, as the little-endian `u32` of their four characters.
pub const TAG_RIFF: u32 = 0x46464952;
pub const TAG_WEBP: u32 = 0x50424557;
pub const TAG_VP8: u32 = 0x20385056;
pub const TAG_VP8L: u32 = 0x4c385056;
pub const TAG_VP8X: u32 = 0x58385056;
pub const TAG_ALPH: u32 = 0x48504c41;
pub const TAG_ANIM: u32 = 0x4d494e41;
pub const TAG_ANMF: u32 = 0x464d4e41;
pub const TAG_ICCP: u32 = 0x50434349;
pub const TAG_EXIF: u32 = 0x46495845;
pub const TAG_XMP: u32 = 0x20504d58;

#[derive(Clone, Copy, PartialEq, Eq, Debug, Default, Structural)]
pub enum Coding {
    #[default]
    Unknown,
    Lossy,
    Lossless,
}

impl Coding {
    /// What the coding is called in messages.
    pub fn name(self) -> (r: &'static str)
        ensures
            r@ == (match self {
                Coding::Unknown => "unknown"@,
                Coding::Lossy => "lossy"@,
                Coding::Lossless => "lossless"@,
            }),
    {
        match self {
            Coding::Unknown => "unknown",
            Coding::Lossy => "lossy",
            Coding::Lossless => "lossless",
        }
    }
}

#[derive(Clone, Copy, PartialEq, Eq, Debug, Default, Structural)]
pub enum Dispose {
    /// The canvas is left as the frame drew it.
    #[default]
    Leave,
    Background,
}

#[derive(Clone, Copy, PartialEq, Eq, Debug, Default, Structural)]
pub enum Blend {
    #[default]
    Alpha,
    /// The frame overwrites what is under it.
    Overwrite,
}

/// Which of the three shapes a file with no RIFF wrapper turned out to be.
#[derive(Clone, Copy, PartialEq, Eq, Debug, Default, Structural)]
pub enum Raw {
    #[default]
    No,
    Lossless,
    Lossy,
    AlphaAndLossy,
}

/// One ANMF header, as the scanner reads it without decoding anything.
#[derive(Clone, Copy, Default, Debug)]
pub struct FrameEntry {
    pub pos_x: i32,
    pub pos_y: i32,
    pub width: i32,
    pub height: i32,
    pub duration: i32,
    pub dispose: Dispose,
    pub blend: Blend,
    pub has_alpha: bool,
    pub complete: bool,
}

/// What a scan found. The scanner's own state — where it stopped, the frame
/// table, how far into an ANMF the alpha walk has gone — stays in [`Scan`].
#[derive(Clone, Copy, PartialEq, Eq, Debug, Default)]
pub struct Info {
    pub end: usize,
    pub width: i32,
    pub height: i32,
    pub has_alpha: bool,
    /// Alpha the image chunks themselves carry, without the VP8X declaration
    /// folded in, which is what a decoded frame reports.
    pub image_has_alpha: bool,
    pub animation: bool,
    pub images: i32,
    pub frame_count: i32,
    pub loop_count: i32,
    pub background_argb: u32,
    pub coding: Coding,
    pub truncated: bool,
    pub metadata: i32,
    pub meta_offset: [usize; 3],
    pub meta_size: [u32; 3],
    pub raw: Raw,
    pub raw_image_offset: usize,
    pub raw_image_size: usize,
    pub raw_alpha_offset: usize,
    pub raw_alpha_size: usize,
}

/// What is known before any byte has been read.
pub open spec fn empty_info() -> Info {
    Info {
        end: 0,
        width: 0,
        height: 0,
        has_alpha: false,
        image_has_alpha: false,
        animation: false,
        images: 0,
        frame_count: 0,
        loop_count: 0,
        background_argb: 0,
        coding: Coding::Unknown,
        truncated: false,
        metadata: 0,
        meta_offset: [0usize, 0usize, 0usize],
        meta_size: [0u32, 0u32, 0u32],
        raw: Raw::No,
        raw_image_offset: 0,
        raw_image_size: 0,
        raw_alpha_offset: 0,
        raw_alpha_size: 0,
    }
}

impl Info {
    /// What is known before any byte has been read.
    pub fn empty() -> (r: Info)
        ensures
            r == empty_info(),
    {
        Info {
            end: 0,
            width: 0,
            height: 0,
            has_alpha: false,
            image_has_alpha: false,
            animation: false,
            images: 0,
            frame_count: 0,
            loop_count: 0,
            background_argb: 0,
            coding: Coding::Unknown,
            truncated: false,
            metadata: 0,
            meta_offset: [0, 0, 0],
            meta_size: [0, 0, 0],
            raw: Raw::No,
            raw_image_offset: 0,
            raw_image_size: 0,
            raw_alpha_offset: 0,
            raw_alpha_size: 0,
        }
    }
}

/// The little-endian value of the `n` bytes from `at`, reading zero past the
/// end of `b`.
pub open spec fn lez(b: Seq<u8>, at: int, n: nat) -> int
    decreases n,
{
    if n == 0 {
        0
    } else {
        byte_or_zero(b, at) + 256 * lez(b, at + 1, (n - 1) as nat)
    }
}

fn rl16(b: &[u8], at: usize) -> (r: u32)
    ensures
        r == lez(b@, at as int, 2),
        r < 0x10000,
{
    proof {
        reveal_with_fuel(lez, 3);
    }
    byte_at(b, at, 0) as u32 + (byte_at(b, at, 1) as u32) * 256
}

pub(crate) fn rl24(b: &[u8], at: usize) -> (r: u32)
    ensures
        r == lez(b@, at as int, 3),
        r < 0x1000000,
{
    proof {
        reveal_with_fuel(lez, 4);
    }
    byte_at(b, at, 0) as u32 + (byte_at(b, at, 1) as u32) * 256 + (byte_at(b, at, 2) as u32)
        * 65536
}

fn rl32(b: &[u8], at: usize) -> (r: u32)
    ensures
        r == lez(b@, at as int, 4),
{
    proof {
        reveal_with_fuel(lez, 5);
    }
    byte_at(b, at, 0) as u32 + (byte_at(b, at, 1) as u32) * 256 + (byte_at(b, at, 2) as u32)
        * 65536 + (byte_at(b, at, 3) as u32) * 16777216
}

/// `b[from..from + len]`, clipped to what is there.
pub open spec fn clipped(b: Seq<u8>, from: int, len: int) -> Seq<u8> {
    let f = if from < b.len() { from } else { b.len() as int };
    let t = if f + len < b.len() { f + len } else { b.len() as int };
    b.subrange(f, t)
}

/// `len` bytes of `b` from `from`, clipped to what is there.
fn window(b: &[u8], from: usize, len: usize) -> (r: &[u8])
    ensures
        r@ == clipped(b@, from as int, len as int),
{
    let from = if from < b.len() { from } else { b.len() };
    let to = if len < b.len() - from { from + len } else { b.len() };

    &b[from..to]
}

/// The canvas a VP8L header declares, when it is a header: the signature
/// byte, then width and height less one in fourteen bits each, the alpha hint,
/// and a version that has to be zero.
pub open spec fn vp8l_header(p: Seq<u8>) -> Option<(i32, i32, bool)> {
    let bits = lez(p, 1, 4) as u32;
    if p.len() >= 5 && p[0] == 0x2f && bits >> 29u32 == 0 {
        Some((((bits & 0x3fff) + 1) as i32, (((bits >> 14u32) & 0x3fff) + 1) as i32,
            (bits >> 28u32) & 1 != 0))
    } else {
        None
    }
}

/// The frame size a VP8 keyframe header declares, when it is one whose first
/// partition fits in `size` bytes.
pub open spec fn vp8_header(p: Seq<u8>, size: int) -> Option<(i32, i32)> {
    let bits = lez(p, 0, 3) as u32;
    if p.len() >= 10 && size >= 10 && p[3] == 0x9d && p[4] == 0x01 && p[5] == 0x2a
        && bits & 1 == 0 && (bits >> 1u32) & 7 <= 3 && bits & 0x10 != 0
        && (bits >> 5u32) <= size - 10 {
        Some(((lez(p, 6, 2) as u32 & 0x3fff) as i32, (lez(p, 8, 2) as u32 & 0x3fff) as i32))
    } else {
        None
    }
}

/// Every metadata chunk recorded lies wholly before `pos`, so its bytes have
/// all arrived by the time the walk has stepped past it.
pub open spec fn metadata_behind(info: Info, pos: int) -> bool {
    forall|i: int| 0 <= i < 3 && info.meta_offset[i] != 0 ==>
        info.meta_offset[i] + info.meta_size[i] <= pos
}

/// What a file with no RIFF wrapper has to start with to be read as one: the
/// VP8L signature byte, the VP8 keyframe start code, or an ALPH chunk header.
pub open spec fn looks_raw(b: Seq<u8>) -> bool {
    b.len() > 0 && (b[0] == 0x2f || (b.len() >= 6 && b[3] == 0x9d && b[4] == 0x01 && b[5]
        == 0x2a) || (b.len() >= 4 && lez(b, 0, 4) == TAG_ALPH))
}

/// Whether `b` opens with a RIFF header naming a WebP file.
pub open spec fn riff_webp(b: Seq<u8>) -> bool {
    b.len() >= 12 && lez(b, 0, 4) == TAG_RIFF && lez(b, 8, 4) == TAG_WEBP
}

fn meta_tag(i: usize) -> (r: u32)
    requires
        i < 3,
    ensures
        meta_slot(r) == i,
{
    if i == 0 {
        TAG_ICCP
    } else if i == 1 {
        TAG_EXIF
    } else {
        TAG_XMP
    }
}

fn meta_vp8x_flag(i: usize) -> (r: u8)
    requires
        i < 3,
    ensures
        r == (if i == 0 { VP8X_FLAG_ICCP } else if i == 1 { VP8X_FLAG_EXIF } else { VP8X_FLAG_XMP }),
{
    if i == 0 {
        VP8X_FLAG_ICCP
    } else if i == 1 {
        VP8X_FLAG_EXIF
    } else {
        VP8X_FLAG_XMP
    }
}

fn meta_bit(i: usize) -> (r: i32)
    requires
        i < 3,
    ensures
        r == (if i == 0 { 1i32 } else if i == 1 { 2i32 } else { 4i32 }),
{
    if i == 0 {
        1
    } else if i == 1 {
        2
    } else {
        4
    }
}

/// What reading the image header of a still chunk of kind `tag` does to what
/// is known: the coding always, and the canvas and alpha hint when the header
/// is one.
pub open spec fn spec_still_header(info: Info, tag: u32, p: Seq<u8>, size: int) -> Info {
    if tag == TAG_VP8L {
        match vp8l_header(p) {
            Some((w, h, a)) => Info {
                coding: Coding::Lossless,
                width: w,
                height: h,
                has_alpha: info.has_alpha || a,
                image_has_alpha: info.image_has_alpha || a,
                ..info
            },
            None => Info { coding: Coding::Lossless, ..info },
        }
    } else {
        match vp8_header(p, size) {
            Some((w, h)) => Info { coding: Coding::Lossy, width: w, height: h, ..info },
            None => Info { coding: Coding::Lossy, ..info },
        }
    }
}

/// A bare stream's scan ends: one frame, one image, ending where the input
/// does, and a success only where a canvas size was read.
pub open spec fn raw_finish(i: Info, size: int) -> (Info, Result<()>) {
    let f = Info { frame_count: 1, images: 1, end: size as usize, ..i };
    (f, if f.width != 0 && f.height != 0 { Ok(()) } else { Err(Error::InvalidData) })
}

/// What scanning a bare stream (no RIFF container) leaves of `info`, and its
/// outcome: a VP8L stream (by its signature byte), a VP8 keyframe (by its
/// start code), or an ALPH chunk followed by a VP8 chunk. A VP8 stream's
/// declared first partition measures it only while more input may come.
#[verifier::opaque]
pub open spec fn raw_headers_result(info: Info, data: Seq<u8>, partial: bool) -> (Info, Result<()>) {
    let size = data.len() as int;
    let i0 = Info { truncated: false, ..info };
    if size == 0 {
        (i0, Err(Error::Truncated))
    } else if data[0] == 0x2f {
        let i1 = Info { raw: Raw::Lossless, raw_image_offset: 0, raw_image_size: size as usize, ..i0 };
        if size < 5 {
            (i1, Err(Error::Truncated))
        } else {
            raw_finish(spec_still_header(i1, TAG_VP8L, data, size), size)
        }
    } else if size >= 6 && data[3] == 0x9d && data[4] == 0x01 && data[5] == 0x2a {
        let i1 = Info { raw: Raw::Lossy, raw_image_offset: 0, raw_image_size: size as usize, ..i0 };
        if size < 10 {
            (i1, Err(Error::Truncated))
        } else {
            let declared = 10 + lez(data, 0, 3) / 32;
            let payload = if !partial || declared < size { size } else { declared };
            let i2 = spec_still_header(i1, TAG_VP8, data, payload);
            raw_finish(if i2.width != 0 && payload > size { Info { truncated: true, ..i2 } } else { i2 }, size)
        }
    } else if size >= 4 && lez(data, 0, 4) == TAG_ALPH {
        let i1 = Info { raw: Raw::AlphaAndLossy, ..i0 };
        let alpha_size = lez(data, 4, 4);
        let padded = alpha_size + alpha_size % 2;
        let image_header = 8 + padded;
        let image_size = lez(data, image_header + 4, 4);
        let short = image_size > size - image_header - 8;
        let i2 = if short { Info { truncated: true, ..i1 } } else { i1 };
        let have = if short { size - image_header - 8 } else { image_size };
        let i3 = Info {
            raw_alpha_offset: 8,
            raw_alpha_size: alpha_size as usize,
            raw_image_offset: (image_header + 8) as usize,
            raw_image_size: have as usize,
            has_alpha: true,
            image_has_alpha: true,
            ..i2
        };
        if size < 8 {
            (i1, Err(Error::Truncated))
        } else if alpha_size == 0xffff_ffff {
            (i1, Err(Error::InvalidData))
        } else if padded > size - 8 || size - 8 - padded < 8 {
            (i1, Err(Error::Truncated))
        } else if lez(data, image_header, 4) != TAG_VP8 {
            (i1, Err(Error::InvalidData))
        } else if short && !partial {
            (i2, Err(Error::Truncated))
        } else if have < 10 {
            (i3, Err(Error::Truncated))
        } else {
            raw_finish(spec_still_header(i3, TAG_VP8, clipped(data, image_header + 8, have), image_size), size)
        }
    } else {
        (i0, Err(if size < 12 && partial { Error::Truncated } else { Error::NotWebp }))
    }
}

/// Reads the image header of a still chunk of kind `tag` into the canvas
/// size, the coding and the alpha hint.
fn still_header(info: &mut Info, tag: u32, p: &[u8], size: usize)
    ensures
        *final(info) == spec_still_header(*old(info), tag, p@, size as int),
        final(info).end == old(info).end && final(info).raw == old(info).raw,
        final(info).meta_offset == old(info).meta_offset && final(info).meta_size
            == old(info).meta_size,
        final(info).raw_image_offset == old(info).raw_image_offset && final(info).raw_image_size
            == old(info).raw_image_size,
        final(info).frame_count == old(info).frame_count && final(info).images
            == old(info).images,
        0 <= final(info).width <= 0x4000 || final(info).width == old(info).width,
        0 <= final(info).height <= 0x4000 || final(info).height == old(info).height,
{
    if tag == TAG_VP8L {
        info.coding = Coding::Lossless;
        if p.len() >= 5 && p[0] == 0x2f {
            let bits = rl32(p, 1);

            if bits >> 29u32 != 0 {
                return;
            }
            let alpha = (bits >> 28u32) & 1 != 0;

            assert((bits & 0x3fff) <= 0x3fff && ((bits >> 14u32) & 0x3fff) <= 0x3fff)
                by (bit_vector);
            info.width = ((bits & 0x3fff) + 1) as i32;
            info.height = (((bits >> 14u32) & 0x3fff) + 1) as i32;
            info.image_has_alpha = info.image_has_alpha || alpha;
            info.has_alpha = info.has_alpha || alpha;
        }
    } else {
        info.coding = Coding::Lossy;
        if p.len() >= 10 && size >= 10 && p[3] == 0x9d && p[4] == 0x01 && p[5] == 0x2a {
            let bits = rl24(p, 0);

            if bits & 1 != 0 || (bits >> 1u32) & 7 > 3 || bits & 0x10 == 0 || (bits >> 5u32)
                as usize > size - 10 {
                return;
            }
            let w16 = rl16(p, 6);
            let h16 = rl16(p, 8);
            let w = w16 & 0x3fff;
            let h = h16 & 0x3fff;

            assert(w16 & 0x3fff <= 0x3fff && h16 & 0x3fff <= 0x3fff) by (bit_vector);
            info.width = w as i32;
            info.height = h as i32;
        }
    }
}

/// What the walk has learned so far that decides how the chunks after it are
/// read: what is known of the file, and which of the chunks that may appear
/// only once, or only in a still or only in an animation, have been seen.
#[derive(Clone, Copy)]
pub struct Head {
    pub info: Info,
    pub vp8x: bool,
    pub vp8x_flags: u8,
    pub anim_chunk: bool,
    pub still_chunk: bool,
}

/// The metadata bits a VP8X chunk's flags add to `m`.
pub open spec fn vp8x_metadata(m: i32, flags: u8) -> i32 {
    let m1 = if flags & VP8X_FLAG_ICCP != 0 { m | 1i32 } else { m };
    let m2 = if flags & VP8X_FLAG_EXIF != 0 { m1 | 2i32 } else { m1 };
    if flags & VP8X_FLAG_XMP != 0 { m2 | 4i32 } else { m2 }
}

/// The metadata bits the first `n` of the VP8X flags for ICCP, EXIF and XMP
/// add to `m`.
spec fn meta_prefix(m: i32, flags: u8, n: int) -> i32
    decreases n,
{
    if n <= 0 {
        m
    } else {
        let before = meta_prefix(m, flags, n - 1);
        let f = if n - 1 == 0 { VP8X_FLAG_ICCP } else if n - 1 == 1 { VP8X_FLAG_EXIF } else { VP8X_FLAG_XMP };
        let b = if n - 1 == 0 { 1i32 } else if n - 1 == 1 { 2i32 } else { 4i32 };
        if flags & f != 0 { before | b } else { before }
    }
}

/// Which metadata slot a chunk tag names: ICCP, EXIF, XMP, or none.
pub open spec fn meta_slot(tag: u32) -> int {
    if tag == TAG_ICCP {
        0
    } else if tag == TAG_EXIF {
        1
    } else if tag == TAG_XMP {
        2
    } else {
        -1
    }
}

/// A chunk of no kind the walk reads: a metadata chunk sets its bit, and the
/// first one of its kind with a payload is recorded where its payload starts.
pub open spec fn meta_chunk(i: Info, tag: u32, csize: u32, pos: int) -> Info {
    let k = meta_slot(tag);
    if k < 0 {
        i
    } else if i.meta_offset[k] == 0 && csize != 0 {
        Info {
            metadata: i.metadata | (if k == 0 { 1i32 } else if k == 1 { 2i32 } else { 4i32 }),
            meta_offset: vstd::array::spec_array_update(i.meta_offset, k, (pos + 8) as usize),
            meta_size: vstd::array::spec_array_update(i.meta_size, k, csize),
            ..i
        }
    } else {
        Info { metadata: i.metadata | (if k == 0 { 1i32 } else if k == 1 { 2i32 } else { 4i32 }), ..i }
    }
}

/// Whether an ANMF header `p` places its frame on the canvas: inside it, and
/// covering it exactly where the file does not declare an animation. A canvas
/// not known yet takes any frame.
pub open spec fn frame_fits(i: Info, flags: u8, p: Seq<u8>) -> bool {
    let x = 2 * lez(p, 0, 3);
    let y = 2 * lez(p, 3, 3);
    let w = lez(p, 6, 3) + 1;
    let h = lez(p, 9, 3) + 1;
    &&& p.len() >= 16
    &&& i.width != 0 && i.height != 0 ==> if flags & VP8X_FLAG_ANIM == 0 {
        x == 0 && y == 0 && w == i.width && h == i.height
    } else {
        x + w <= i.width && y + h <= i.height
    }
}

/// A count that stops at the largest `i32`.
pub open spec fn count_up(n: i32) -> i32 {
    if n < 0x7fff_ffff { (n + 1) as i32 } else { n }
}

/// What the walk knows before any chunk.
pub open spec fn empty_head() -> Head {
    Head { info: empty_info(), vp8x: false, vp8x_flags: 0, anim_chunk: false, still_chunk: false }
}

/// A scan's outcome as a result: what it found, or its error.
pub open spec fn found(x: (Info, Result<()>)) -> Result<Info> {
    match x.1 {
        Ok(_) => Ok(x.0),
        Err(e) => Err(e),
    }
}

/// What a first scan of the whole of `data` reports: a RIFF WebP is walked
/// chunk by chunk, the first twelve bytes of a RIFF header ask for more, and
/// anything else is read as a bare stream.
pub open spec fn scanned(data: Seq<u8>) -> Result<Info> {
    if riff_webp(data) {
        found(riff_scan(empty_head(), data, 0, 12, lez(data, 4, 4) + 8, true))
    } else if 4 <= data.len() < 12 && lez(data, 0, 4) == TAG_RIFF {
        Err(Error::Truncated)
    } else {
        found(raw_headers_result(empty_info(), data, true))
    }
}

/// What one chunk whose payload has all arrived does to what the walk knows,
/// and whether it is refused: the chunk of kind `tag`, `csize` bytes long, its
/// header at `at` in `buf` and at `pos` in the stream.
#[verifier::opaque]
pub open spec fn chunk_result(h: Head, buf: Seq<u8>, at: int, tag: u32, csize: u32, pos: int) -> (Head, Result<()>) {
    let i = h.info;
    let still_refused = h.vp8x_flags & VP8X_FLAG_ANIM != 0 || h.anim_chunk;
    if tag == TAG_VP8X {
        let flags = byte_or_zero(buf, at + 8);
        let h1 = Head { vp8x: true, ..h };
        let w = lez(buf, at + 12, 3);
        let ht = lez(buf, at + 15, 3);
        let i2 = Info {
            has_alpha: i.has_alpha || flags & VP8X_FLAG_ALPHA != 0,
            metadata: vp8x_metadata(i.metadata, flags),
            width: (w + 1) as i32,
            height: (ht + 1) as i32,
            ..i
        };
        if h.vp8x || csize != VP8X_CHUNK_SIZE {
            (h, Err(Error::InvalidData))
        } else if flags & !VP8X_FLAGS_VALID != 0 {
            (h1, Err(Error::InvalidData))
        } else {
            (
                Head { vp8x_flags: flags, info: i2, ..h1 },
                if (w + 1) * (ht + 1) >= 0x1_0000_0000 { Err(Error::TooLarge) } else { Ok(()) },
            )
        }
    } else if tag == TAG_ALPH {
        if still_refused {
            (h, Err(Error::InvalidData))
        } else {
            (Head { still_chunk: true, info: Info { has_alpha: true, image_has_alpha: true, ..i }, ..h }, Ok(()))
        }
    } else if tag == TAG_ANIM {
        if csize < ANIM_CHUNK_SIZE || h.still_chunk {
            (h, Err(Error::InvalidData))
        } else if !h.anim_chunk {
            (
                Head {
                    anim_chunk: true,
                    info: Info {
                        animation: true,
                        background_argb: lez(buf, at + 8, 4) as u32,
                        loop_count: lez(buf, at + 12, 2) as i32,
                        ..i
                    },
                    ..h
                },
                Ok(()),
            )
        } else {
            (h, Ok(()))
        }
    } else if tag == TAG_ANMF {
        if !h.anim_chunk || (h.vp8x_flags & VP8X_FLAG_ANIM == 0 && i.frame_count > 0) || !frame_fits(
            i,
            h.vp8x_flags,
            clipped(buf, at + 8, csize as int),
        ) {
            (h, Err(Error::InvalidData))
        } else {
            (Head { info: Info { frame_count: count_up(i.frame_count), ..i }, ..h }, Ok(()))
        }
    } else if tag == TAG_VP8 || tag == TAG_VP8L {
        let i1 = Info { images: count_up(i.images), ..i };
        let h1 = Head { still_chunk: true, info: i1, ..h };
        let i2 = spec_still_header(Info { width: 0, height: 0, ..i1 }, tag, clipped(buf, at + 8, csize as int), csize as int);
        if still_refused {
            (h, Err(Error::InvalidData))
        } else if i.images != 0 {
            (h1, Ok(()))
        } else if h.vp8x && i.width != 0 && i.height != 0 {
            (
                Head { info: Info { width: i.width, height: i.height, ..i2 }, ..h1 },
                if i2.width != 0 && i2.height != 0 && (i2.width != i.width || i2.height != i.height) {
                    Err(Error::InvalidData)
                } else {
                    Ok(())
                },
            )
        } else {
            (Head { info: i2, ..h1 }, Ok(()))
        }
    } else {
        (Head { info: meta_chunk(i, tag, csize, pos), ..h }, Ok(()))
    }
}

/// What the chunk the input ends inside does, of which `avail` payload bytes
/// have arrived, and whether it is a still still arriving: only a first image
/// chunk, and only while more input may come, counts, giving its canvas early
/// unless a VP8X chunk already gave one.
#[verifier::opaque]
pub open spec fn tail_result(h: Head, buf: Seq<u8>, at: int, tag: u32, csize: u32, avail: int, partial: bool) -> (Head, Result<bool>) {
    let i = h.info;
    if partial && i.images == 0 && (tag == TAG_VP8 || tag == TAG_VP8L) {
        if h.vp8x_flags & VP8X_FLAG_ANIM != 0 || h.anim_chunk {
            (h, Err(Error::InvalidData))
        } else {
            let i2 = spec_still_header(i, tag, clipped(buf, at + 8, avail), csize as int);
            let i3 = if h.vp8x && i.width != 0 && i.height != 0 { Info { width: i.width, height: i.height, ..i2 } } else { i2 };
            (Head { still_chunk: true, info: i3, ..h }, Ok(true))
        }
    } else {
        (h, Ok(false))
    }
}

/// The walk over the chunks from stream offset `pos` up to `end`, the buffer
/// starting at stream offset `base`: each chunk whose padded payload has all
/// arrived is read in turn, until the chunks run out, one is refused, or one
/// reaches past `end`, which leaves the walk truncated and hands back that
/// chunk's header and how much of its payload is here. Gives what the walk
/// knows at the end, where it stopped, that last chunk, and the outcome.
#[verifier::opaque]
pub open spec fn walk(h: Head, buf: Seq<u8>, base: int, pos: int, end: int) -> (Head, int, Option<(usize, u32, u32, usize)>, Result<()>)
    decreases end - pos,
{
    if pos + 8 > end {
        (h, pos, None, Ok(()))
    } else {
        let at = pos - base;
        let tag = lez(buf, at, 4) as u32;
        let csize = lez(buf, at + 4, 4) as u32;
        let cut = Head { info: Info { truncated: true, ..h.info }, ..h };
        let padded = csize + csize % 2;
        if csize == 0xffff_ffff {
            (cut, pos, None, Ok(()))
        } else if end - (pos + 8) < padded {
            (cut, pos, Some((at as usize, tag, csize, (end - (pos + 8)) as usize)), Ok(()))
        } else {
            let next = chunk_result(h, buf, at, tag, csize, pos);
            if next.1 is Err {
                (next.0, pos, None, next.1)
            } else {
                walk(next.0, buf, base, pos + 8 + padded, end)
            }
        }
    }
}

/// The order chunks may come in: a file has one VP8X chunk; frames come only
/// after an ANIM chunk; an ANIM chunk cannot follow a still image or its
/// alpha; a still image and its alpha cannot stand in a file that is an
/// animation; a later ANIM chunk changes nothing; and only the first image
/// chunk of a still says anything about the picture.
pub proof fn law_the_chunk_order_a_file_is_held_to(h: Head, buf: Seq<u8>, at: int, csize: u32, pos: int, tag: u32)
    ensures
        h.vp8x ==> chunk_result(h, buf, at, TAG_VP8X, csize, pos) == (h, Err::<(), Error>(Error::InvalidData)),
        !h.anim_chunk ==> chunk_result(h, buf, at, TAG_ANMF, csize, pos) == (h, Err::<(), Error>(Error::InvalidData)),
        h.still_chunk ==> chunk_result(h, buf, at, TAG_ANIM, csize, pos) == (h, Err::<(), Error>(Error::InvalidData)),
        (h.vp8x_flags & VP8X_FLAG_ANIM != 0 || h.anim_chunk) && (tag == TAG_VP8 || tag == TAG_VP8L || tag == TAG_ALPH)
            ==> chunk_result(h, buf, at, tag, csize, pos) == (h, Err::<(), Error>(Error::InvalidData)),
        h.anim_chunk && !h.still_chunk && csize >= ANIM_CHUNK_SIZE ==> chunk_result(h, buf, at, TAG_ANIM, csize, pos)
            == (h, Ok::<(), Error>(())),
        !(h.vp8x_flags & VP8X_FLAG_ANIM != 0 || h.anim_chunk) && h.info.images != 0 && (tag == TAG_VP8 || tag == TAG_VP8L)
            ==> chunk_result(h, buf, at, tag, csize, pos).1 is Ok && chunk_result(h, buf, at, tag, csize, pos).0.info
            == (Info { images: count_up(h.info.images), ..h.info }),
{
    reveal(chunk_result);
}

/// Whether the frame-table entry `e` carries what the ANMF header at the
/// start of `p` declares, and says whether the frame has all arrived.
pub open spec fn entry_declares(e: FrameEntry, p: Seq<u8>, complete: bool) -> bool {
    &&& e.pos_x == 2 * lez(p, 0, 3)
    &&& e.pos_y == 2 * lez(p, 3, 3)
    &&& e.width == lez(p, 6, 3) + 1
    &&& e.height == lez(p, 9, 3) + 1
    &&& e.duration == lez(p, 12, 3)
    &&& e.dispose == (if p[15] & ANMF_FLAG_DISPOSE != 0 { Dispose::Background } else { Dispose::Leave })
    &&& e.blend == (if p[15] & ANMF_FLAG_NO_BLEND != 0 { Blend::Overwrite } else { Blend::Alpha })
    &&& e.complete == complete
}

/// What an entry declares depends only on the header's sixteen bytes.
proof fn lemma_declares_header(e: FrameEntry, a: Seq<u8>, b: Seq<u8>, complete: bool)
    requires
        a.len() >= 16,
        b.len() >= 16,
        forall|j: int| 0 <= j < 16 ==> a[j] == b[j],
    ensures
        entry_declares(e, a, complete) == entry_declares(e, b, complete),
{
    reveal_with_fuel(lez, 4);
    assert(byte_or_zero(a, 0) == byte_or_zero(b, 0) && byte_or_zero(a, 1) == byte_or_zero(b, 1) && byte_or_zero(a, 2) == byte_or_zero(b, 2));
    assert(byte_or_zero(a, 3) == byte_or_zero(b, 3) && byte_or_zero(a, 4) == byte_or_zero(b, 4) && byte_or_zero(a, 5) == byte_or_zero(b, 5));
    assert(byte_or_zero(a, 6) == byte_or_zero(b, 6) && byte_or_zero(a, 7) == byte_or_zero(b, 7) && byte_or_zero(a, 8) == byte_or_zero(b, 8));
    assert(byte_or_zero(a, 9) == byte_or_zero(b, 9) && byte_or_zero(a, 10) == byte_or_zero(b, 10) && byte_or_zero(a, 11) == byte_or_zero(b, 11));
    assert(byte_or_zero(a, 12) == byte_or_zero(b, 12) && byte_or_zero(a, 13) == byte_or_zero(b, 13) && byte_or_zero(a, 14) == byte_or_zero(b, 14));
    assert(a[15] == b[15]);
}

/// Where in `buf` the payloads of the ANMF chunks lie that the walk [`walk`]
/// describes takes in whole, in order.
#[verifier::opaque]
pub open spec fn walk_anmfs(h: Head, buf: Seq<u8>, base: int, pos: int, end: int) -> Seq<int>
    decreases end - pos,
{
    if pos + 8 > end {
        seq![]
    } else {
        let at = pos - base;
        let tag = lez(buf, at, 4) as u32;
        let csize = lez(buf, at + 4, 4) as u32;
        let padded = csize + csize % 2;
        if csize == 0xffff_ffff || end - (pos + 8) < padded {
            seq![]
        } else {
            let next = chunk_result(h, buf, at, tag, csize, pos);
            if next.1 is Err {
                seq![]
            } else {
                (if tag == TAG_ANMF { seq![at + 8] } else { seq![] }) + walk_anmfs(
                    next.0,
                    buf,
                    base,
                    pos + 8 + padded,
                    end,
                )
            }
        }
    }
}

/// How many complete entries a table that held `nb0` has after `n` more
/// complete frames: the table is capped, and grows only when frames are
/// being collected.
pub open spec fn table_count(nb0: int, n: int, collect: bool) -> int {
    if !collect || nb0 >= MAX_FRAMES {
        nb0
    } else if nb0 + n < MAX_FRAMES {
        nb0 + n
    } else {
        MAX_FRAMES as int
    }
}

/// What a walk over the chunks does to the frame table: the `nb0` complete
/// entries of `f0` are kept, and, when frames are collected, one entry
/// follows for each complete ANMF chunk whose payload starts at `offs`, with
/// what its header declares, up to the cap.
#[verifier::opaque]
pub open spec fn frames_walked(
    nb0: int,
    f0: Seq<FrameEntry>,
    nb1: int,
    f1: Seq<FrameEntry>,
    offs: Seq<int>,
    buf: Seq<u8>,
    collect: bool,
) -> bool {
    &&& nb1 == table_count(nb0, offs.len() as int, collect)
    &&& f1.len() >= nb1
    &&& forall|i: int| 0 <= i < nb0 ==> #[trigger] f1[i] == f0[i]
    &&& collect ==> forall|k: int|
        0 <= k < offs.len() && nb0 + k < MAX_FRAMES ==> #[trigger] entry_declares(
            f1[nb0 + k],
            buf.subrange(offs[k], offs[k] + 16),
            true,
        )
}

/// Whether the chunk the input ends inside, `tail`, puts a frame still
/// arriving in the table after its `nb` complete entries: an ANMF chunk whose
/// header has arrived, frames being collected and the table not full.
pub open spec fn tail_frame(tail: Option<(usize, u32, u32, usize)>, nb: int, collect: bool) -> bool {
    match tail {
        Some((at, tag, csize, avail)) => collect && tag == TAG_ANMF && avail >= 16 && nb < MAX_FRAMES,
        None => false,
    }
}

/// What a scan of a RIFF file past its header does to the frame table: what
/// the walk does (`offs` are the complete ANMF payloads it took), then, where
/// the input ends inside an ANMF chunk whose header has arrived, an entry
/// for that frame marked as still arriving, after the complete ones.
#[verifier::opaque]
pub open spec fn frames_scanned(
    nb0: int,
    f0: Seq<FrameEntry>,
    nb1: int,
    f1: Seq<FrameEntry>,
    partial1: bool,
    offs: Seq<int>,
    tail: Option<(usize, u32, u32, usize)>,
    buf: Seq<u8>,
    collect: bool,
) -> bool {
    &&& frames_walked(nb0, f0, nb1, f1, offs, buf, collect)
    &&& partial1 == tail_frame(tail, nb1, collect)
    &&& partial1 ==> match tail {
        Some((at, tag, csize, avail)) => f1.len() > nb1 && entry_declares(
            f1[nb1],
            buf.subrange(at + 8, at + 24),
            false,
        ),
        None => false,
    }
}

/// What the end of a scan does to the frame table: the complete entries
/// stay, and a frame still arriving is listed after them where [`tail_frame`]
/// says.
#[verifier::opaque]
pub open spec fn frames_ended(
    nb0: int,
    f0: Seq<FrameEntry>,
    nb1: int,
    f1: Seq<FrameEntry>,
    partial1: bool,
    tail: Option<(usize, u32, u32, usize)>,
    buf: Seq<u8>,
    collect: bool,
) -> bool {
    &&& nb1 == nb0
    &&& forall|i: int| 0 <= i < nb0 ==> #[trigger] f1[i] == f0[i]
    &&& partial1 == tail_frame(tail, nb0, collect)
    &&& partial1 ==> match tail {
        Some((at, tag, csize, avail)) => f1.len() > nb0 && entry_declares(f1[nb0], buf.subrange(at + 8, at + 24), false),
        None => false,
    }
}

/// A walk, then the end of the scan, do to the table what
/// [`frames_scanned`] says.
proof fn lemma_frames_scanned(
    nb0: int,
    f0: Seq<FrameEntry>,
    nbm: int,
    fm: Seq<FrameEntry>,
    nb1: int,
    f1: Seq<FrameEntry>,
    partial1: bool,
    offs: Seq<int>,
    tail: Option<(usize, u32, u32, usize)>,
    buf: Seq<u8>,
    collect: bool,
)
    requires
        0 <= nb0,
        frames_walked(nb0, f0, nbm, fm, offs, buf, collect),
        frames_ended(nbm, fm, nb1, f1, partial1, tail, buf, collect),
        f1.len() >= nb1,
    ensures
        frames_scanned(nb0, f0, nb1, f1, partial1, offs, tail, buf, collect),
{
    reveal(frames_walked);
    reveal(frames_ended);
    reveal(frames_scanned);
    assert forall|i: int| 0 <= i < nb0 implies #[trigger] f1[i] == f0[i] by {
        assert(nb0 <= nbm);
        assert(fm[i] == f0[i]);
    }
    if collect {
        assert forall|k: int| 0 <= k < offs.len() && nb0 + k < MAX_FRAMES implies #[trigger] entry_declares(
            f1[nb0 + k],
            buf.subrange(offs[k], offs[k] + 16),
            true,
        ) by {
            assert(entry_declares(fm[nb0 + k], buf.subrange(offs[k], offs[k] + 16), true));
            assert(nb0 + k < nbm);
            assert(f1[nb0 + k] == fm[nb0 + k]);
        }
    }
}

/// The complete ANMF payloads a RIFF scan as [`riff_scan`] describes takes.
pub open spec fn riff_anmfs(h: Head, buf: Seq<u8>, base: int, pos: int, riff_end: int) -> Seq<int> {
    let size = base + buf.len();
    let i0 = Info { truncated: riff_end > size, end: (if riff_end < size { riff_end } else { size }) as usize, ..h.info };
    walk_anmfs(Head { info: i0, ..h }, buf, base, pos, i0.end as int)
}

/// The chunk a RIFF scan as [`riff_scan`] describes ends inside, if any.
pub open spec fn riff_tail(h: Head, buf: Seq<u8>, base: int, pos: int, riff_end: int) -> Option<(usize, u32, u32, usize)> {
    let size = base + buf.len();
    let i0 = Info { truncated: riff_end > size, end: (if riff_end < size { riff_end } else { size }) as usize, ..h.info };
    walk(Head { info: i0, ..h }, buf, base, pos, i0.end as int).2
}

/// How a scan that walked the chunks ends: an animation reports no single
/// coding, a still one frame if an image (or one still arriving) was seen;
/// without a canvas size the file is cut short or invalid; a file that
/// declares an animation but has all arrived without its ANIM chunk is
/// invalid.
pub open spec fn finish_scan(h: Head, partial_still: bool, partial: bool) -> (Info, Result<()>) {
    let i = h.info;
    let i2 = if i.animation {
        Info { coding: Coding::Unknown, ..i }
    } else {
        Info { frame_count: if i.images != 0 || partial_still { 1i32 } else { 0i32 }, ..i }
    };
    (
        i2,
        if i2.width == 0 || i2.height == 0 {
            Err(if i2.truncated { Error::Truncated } else { Error::InvalidData })
        } else if !partial && !i2.truncated && h.vp8x_flags & VP8X_FLAG_ANIM != 0 && !h.anim_chunk {
            Err(Error::InvalidData)
        } else {
            Ok(())
        },
    )
}

/// What scanning a RIFF file from stream offset `pos` finds, with `base +
/// buf.len()` bytes of the stream here and the RIFF header declaring it to end
/// at `riff_end`: the walk up to whichever comes first, then the chunk the
/// input ends inside, if any, then the last checks.
/// How a scan ends once the walk stopped knowing `h`, where the input ends
/// inside the chunk `tail` if any: that chunk's part, then the last checks.
pub open spec fn scan_end(h: Head, buf: Seq<u8>, tail: Option<(usize, u32, u32, usize)>, partial: bool) -> (Info, Result<()>) {
    match tail {
        None => finish_scan(h, false, partial),
        Some((at, tag, csize, avail)) => {
            let t = tail_result(h, buf, at as int, tag, csize, avail as int, partial);
            match t.1 {
                Err(e) => (t.0.info, Err(e)),
                Ok(ps) => finish_scan(t.0, ps, partial),
            }
        },
    }
}

/// What the end of a scan as [`scan_end`] describes leaves known.
pub open spec fn scan_end_head(h: Head, buf: Seq<u8>, tail: Option<(usize, u32, u32, usize)>, partial: bool) -> Head {
    match tail {
        None => Head { info: finish_scan(h, false, partial).0, ..h },
        Some((at, tag, csize, avail)) => {
            let t = tail_result(h, buf, at as int, tag, csize, avail as int, partial);
            match t.1 {
                Err(e) => t.0,
                Ok(ps) => Head { info: finish_scan(t.0, ps, partial).0, ..t.0 },
            }
        },
    }
}

pub open spec fn riff_scan(h: Head, buf: Seq<u8>, base: int, pos: int, riff_end: int, partial: bool) -> (Info, Result<()>) {
    let size = base + buf.len();
    let i0 = Info { truncated: riff_end > size, end: (if riff_end < size { riff_end } else { size }) as usize, ..h.info };
    let w = walk(Head { info: i0, ..h }, buf, base, pos, i0.end as int);
    if w.3 is Err {
        (w.0.info, w.3)
    } else {
        scan_end(w.0, buf, w.2, partial)
    }
}

/// Where a RIFF scan as [`riff_scan`] describes it leaves the walk: at the
/// chunk it stopped on.
pub open spec fn riff_scan_pos(h: Head, buf: Seq<u8>, base: int, pos: int, riff_end: int) -> int {
    let size = base + buf.len();
    let i0 = Info { truncated: riff_end > size, end: (if riff_end < size { riff_end } else { size }) as usize, ..h.info };
    walk(Head { info: i0, ..h }, buf, base, pos, i0.end as int).1
}

/// What a RIFF scan as [`riff_scan`] describes it leaves known for the next
/// scan to start from: what the walk learned, then what the chunk the input
/// ends inside adds, with the info the last checks report.
pub open spec fn riff_scan_head(h: Head, buf: Seq<u8>, base: int, pos: int, riff_end: int, partial: bool) -> Head {
    let size = base + buf.len();
    let i0 = Info { truncated: riff_end > size, end: (if riff_end < size { riff_end } else { size }) as usize, ..h.info };
    let w = walk(Head { info: i0, ..h }, buf, base, pos, i0.end as int);
    if w.3 is Err {
        w.0
    } else {
        scan_end_head(w.0, buf, w.2, partial)
    }
}

/// Where the walk is, and what it has found so far.
pub struct Scan {
    pos: usize,
    riff_end: u64,
    info: Info,
    vp8x: bool,
    vp8x_flags: u8,
    anim_chunk: bool,
    still_chunk: bool,
    /// The frame table is built only when asked for, so that reading a file's
    /// information keeps its promise not to allocate. `nb_frames` counts the
    /// frames whose payload is all here; a frame whose ANMF header has arrived
    /// but whose payload has not occupies the slot past them and is rebuilt on
    /// every rescan until it completes.
    collect_frames: bool,
    partial_frame: bool,
    frames_capped: bool,
    nb_frames: usize,
    /// How far the alpha walk has got into the sub-chunk list starting at
    /// `anmf_scan_at`, so an ANMF arriving in pieces is not re-walked from its
    /// first sub-chunk on every delivery.
    anmf_scan_at: usize,
    anmf_scan_pos: usize,
    anmf_scan_done: bool,
    anmf_scan_alpha: bool,
    frames: Vec<FrameEntry>,
}

impl Scan {
    /// The scanner's own invariant: the frame table never claims more than it
    /// holds, and stays under its cap.
    pub closed spec fn wf(&self) -> bool {
        self.wf_at(self.pos as int)
    }

    /// The invariant, with the metadata found lying before `mpos`.
    closed spec fn wf_at(&self, mpos: int) -> bool {
        &&& self.nb_frames <= self.frames.len()
        &&& self.nb_frames <= MAX_FRAMES
        &&& self.partial_frame ==> self.nb_frames < self.frames.len()
        &&& metadata_behind(self.info, mpos)
        &&& 0 <= self.info.width <= 0x1000001
        &&& 0 <= self.info.height <= 0x1000001
        &&& self.pos > 0 ==> self.info.raw == Raw::No
    }

    pub closed spec fn position(&self) -> usize {
        self.pos
    }

    pub closed spec fn spec_info(&self) -> Info {
        self.info
    }

    /// Where the RIFF header says the file ends.
    pub closed spec fn spec_riff_end(&self) -> int {
        self.riff_end as int
    }

    /// What the walk has learned, as the next chunk sees it.
    pub closed spec fn head(&self) -> Head {
        Head {
            info: self.info,
            vp8x: self.vp8x,
            vp8x_flags: self.vp8x_flags,
            anim_chunk: self.anim_chunk,
            still_chunk: self.still_chunk,
        }
    }

    /// How many frames the table hands out.
    pub closed spec fn frames_listed(&self) -> int {
        self.nb_frames + if self.partial_frame { 1int } else { 0 }
    }

    pub closed spec fn spec_frame(&self, i: int) -> FrameEntry {
        self.frames[i]
    }

    /// How many entries of the table are frames that have all arrived.
    pub closed spec fn complete_frames(&self) -> int {
        self.nb_frames as int
    }

    /// The table's entries, the one past the complete ones included.
    pub closed spec fn frame_seq(&self) -> Seq<FrameEntry> {
        self.frames@
    }

    /// Whether the table hands out a frame still arriving after the
    /// complete ones.
    pub closed spec fn partial_listed(&self) -> bool {
        self.partial_frame
    }

    pub fn new() -> (r: Self)
        ensures
            r.wf(),
            r.position() == 0,
            r.frames_listed() == 0,
            r.spec_info() == empty_info(),
            r.head() == empty_head(),
    {
        let r = Scan {
            pos: 0,
            riff_end: 0,
            info: Info::empty(),
            vp8x: false,
            vp8x_flags: 0,
            anim_chunk: false,
            still_chunk: false,
            collect_frames: false,
            partial_frame: false,
            frames_capped: false,
            nb_frames: 0,
            anmf_scan_at: 0,
            anmf_scan_pos: 0,
            anmf_scan_done: false,
            anmf_scan_alpha: false,
            frames: Vec::new(),
        };
        proof {
            assert(r.info.meta_offset@ == seq![0usize, 0usize, 0usize]);
        }
        r
    }

    /// Puts the scanner back to before any file, keeping the frame table's
    /// allocation, which the next file reuses.
    pub fn reset(&mut self)
        ensures
            final(self).wf(),
            final(self).position() == 0,
            final(self).frames_listed() == 0,
            final(self).spec_info() == empty_info(),
            final(self).head() == empty_head(),
    {
        self.frames.clear();
        self.pos = 0;
        self.riff_end = 0;
        self.info = Info::empty();
        self.vp8x = false;
        self.vp8x_flags = 0;
        self.anim_chunk = false;
        self.still_chunk = false;
        self.collect_frames = false;
        self.partial_frame = false;
        self.frames_capped = false;
        self.nb_frames = 0;
        self.anmf_scan_at = 0;
        self.anmf_scan_pos = 0;
        self.anmf_scan_done = false;
        self.anmf_scan_alpha = false;
        proof {
            assert(self.info.meta_offset@ == seq![0usize, 0usize, 0usize]);
        }
    }

    pub fn info(&self) -> (r: &Info)
        ensures
            *r == self.spec_info(),
    {
        &self.info
    }

    /// The `index`th ANMF header, or `None` when there is no such frame. A
    /// frame whose header has arrived but whose payload has not is the last
    /// one and reports itself incomplete.
    pub fn frame(&self, index: usize) -> (r: Option<&FrameEntry>)
        requires
            self.wf(),
        ensures
            r is Some <==> index < self.frames_listed(),
            r matches Some(e) ==> *e == self.spec_frame(index as int),
    {
        let listed = self.nb_frames + if self.partial_frame { 1 } else { 0 };

        if index >= listed {
            return None;
        }
        Some(&self.frames[index])
    }

    /// Walks an ANMF's sub-chunks for the one frame field the 16-byte ANMF
    /// header does not carry, and reports what it made of the alpha. Stops at
    /// the image chunk either way, and says nothing when the payload has not
    /// all arrived. Resumes where the last delivery of the same ANMF left off,
    /// so a frame that arrives in many pieces costs one walk in total.
    fn anmf_alpha(&mut self, p: &[u8]) -> (r: bool)
        requires
            old(self).pos + 24 <= usize::MAX,
        ensures
            final(self).pos == old(self).pos,
            final(self).info == old(self).info,
            final(self).nb_frames == old(self).nb_frames,
            final(self).frames == old(self).frames,
            final(self).partial_frame == old(self).partial_frame,
            final(self).frames_capped == old(self).frames_capped,
            final(self).vp8x == old(self).vp8x,
            final(self).vp8x_flags == old(self).vp8x_flags,
            final(self).anim_chunk == old(self).anim_chunk,
            final(self).still_chunk == old(self).still_chunk,
            final(self).riff_end == old(self).riff_end,
            final(self).collect_frames == old(self).collect_frames,
    {
        let at0 = self.pos + 24;

        if self.anmf_scan_at != at0 || self.anmf_scan_pos > p.len() {
            self.anmf_scan_at = at0;
            self.anmf_scan_pos = 0;
            self.anmf_scan_done = false;
            self.anmf_scan_alpha = false;
        }
        if self.anmf_scan_done {
            return self.anmf_scan_alpha;
        }

        let mut at = self.anmf_scan_pos;

        while p.len() - at >= 8
            invariant
                at <= p.len(),
                self.pos == old(self).pos,
                self.info == old(self).info,
                self.nb_frames == old(self).nb_frames,
                self.frames == old(self).frames,
                self.partial_frame == old(self).partial_frame,
                self.frames_capped == old(self).frames_capped,
                self.vp8x == old(self).vp8x,
                self.vp8x_flags == old(self).vp8x_flags,
                self.anim_chunk == old(self).anim_chunk,
                self.still_chunk == old(self).still_chunk,
                self.riff_end == old(self).riff_end,
                self.collect_frames == old(self).collect_frames,
            decreases p.len() - at,
        {
            let tag = rl32(p, at);
            let size = rl32(p, at + 4);

            if size == 0xffff_ffff {
                return false;
            }
            let padded = size as usize + (size % 2) as usize;

            at = at + 8;
            if p.len() - at < padded {
                return false;
            }
            if tag == TAG_ALPH {
                self.anmf_scan_alpha = true;
            } else if tag == TAG_VP8L {
                if size >= 5 && byte_at(p, at, 0) == 0x2f {
                    self.anmf_scan_alpha = (rl32(p, at + 1) >> 28u32) & 1 != 0;
                }
            } else if tag != TAG_VP8 {
                at = at + padded;
                self.anmf_scan_pos = at;
                continue;
            }
            self.anmf_scan_done = true;
            return self.anmf_scan_alpha;
        }
        false
    }

    /// Records the ANMF whose payload starts `p`, of which only what is
    /// buffered is here. `complete` says whether the scan is stepping past the
    /// whole padded chunk, which is the only thing that may promote the entry:
    /// a frame still arriving takes the slot past the complete ones and is
    /// rewritten by the next scan, so the table never counts a frame twice.
    fn anmf(&mut self, p: &[u8], complete: bool) -> (r: Result<()>)
        requires
            old(self).wf(),
            !old(self).partial_frame,
            old(self).pos + 24 <= usize::MAX,
        ensures
            final(self).wf(),
            r is Ok,
            final(self).pos == old(self).pos,
            final(self).info == old(self).info,
            final(self).vp8x == old(self).vp8x,
            final(self).vp8x_flags == old(self).vp8x_flags,
            final(self).anim_chunk == old(self).anim_chunk,
            final(self).still_chunk == old(self).still_chunk,
            final(self).riff_end == old(self).riff_end,
            final(self).collect_frames == old(self).collect_frames,
            final(self).partial_frame == (old(self).partial_frame || (!complete && p.len() >= 16
                && old(self).nb_frames < MAX_FRAMES)),
            final(self).nb_frames == old(self).nb_frames + if complete && p.len() >= 16
                && old(self).nb_frames < MAX_FRAMES { 1int } else { 0 },
            // The frames already counted are left alone.
            forall|i: int| 0 <= i < old(self).nb_frames ==> final(self).frames[i] == old(self).frames[i],
            p.len() >= 16 && old(self).nb_frames < MAX_FRAMES ==> entry_declares(
                final(self).frames[old(self).nb_frames as int],
                p@,
                complete,
            ),
            // A new entry carries the geometry its header declares.
            p.len() >= 16 && old(self).nb_frames < MAX_FRAMES ==> {
                let e = final(self).frames[old(self).nb_frames as int];
                &&& e.pos_x == 2 * lez(p@, 0, 3)
                &&& e.pos_y == 2 * lez(p@, 3, 3)
                &&& e.width == lez(p@, 6, 3) + 1
                &&& e.height == lez(p@, 9, 3) + 1
                &&& e.duration == lez(p@, 12, 3)
                &&& e.dispose == (if p@[15] & ANMF_FLAG_DISPOSE != 0 { Dispose::Background } else { Dispose::Leave })
                &&& e.blend == (if p@[15] & ANMF_FLAG_NO_BLEND != 0 { Blend::Overwrite } else { Blend::Alpha })
                &&& e.complete == complete
            },
    {
        if p.len() < 16 {
            return Ok(());
        }
        if self.nb_frames >= MAX_FRAMES {
            self.frames_capped = true;
            return Ok(());
        }

        let x = rl24(p, 0);
        let y = rl24(p, 3);
        let w = rl24(p, 6);
        let h = rl24(p, 9);
        let d = rl24(p, 12);

        proof {
            reveal_with_fuel(lez, 4);
        }
        let flags = p[15];
        let mut entry = FrameEntry {
            pos_x: (x * 2) as i32,
            pos_y: (y * 2) as i32,
            width: (w + 1) as i32,
            height: (h + 1) as i32,
            duration: d as i32,
            dispose: if flags & ANMF_FLAG_DISPOSE != 0 {
                Dispose::Background
            } else {
                Dispose::Leave
            },
            blend: if flags & ANMF_FLAG_NO_BLEND != 0 {
                Blend::Overwrite
            } else {
                Blend::Alpha
            },
            has_alpha: false,
            complete,
        };

        entry.has_alpha = self.anmf_alpha(&p[16..p.len()]);

        if self.frames.len() == self.nb_frames {
            self.frames.push(entry);
        } else {
            self.frames.set(self.nb_frames, entry);
        }
        if complete {
            self.nb_frames = self.nb_frames + 1;
        } else {
            self.partial_frame = true;
        }
        Ok(())
    }

    /// An image chunk outside a frame is allowed only in a file that does not
    /// declare itself an animation.
    fn still_chunk_allowed(&mut self) -> (r: Result<()>)
        ensures
            r is Ok <==> (old(self).vp8x_flags & VP8X_FLAG_ANIM == 0 && !old(self).anim_chunk),
            r is Err ==> r == Err::<(), Error>(Error::InvalidData) && *final(self) == *old(self),
            r is Ok ==> final(self).still_chunk && final(self).pos == old(self).pos
                && final(self).info == old(self).info && final(self).nb_frames == old(self).nb_frames
                && final(self).frames == old(self).frames && final(self).partial_frame
                == old(self).partial_frame && final(self).vp8x == old(self).vp8x
                && final(self).vp8x_flags == old(self).vp8x_flags && final(self).anim_chunk
                == old(self).anim_chunk && final(self).riff_end == old(self).riff_end
                && final(self).collect_frames == old(self).collect_frames,
    {
        if self.vp8x_flags & VP8X_FLAG_ANIM != 0 || self.anim_chunk {
            return Err(Error::InvalidData);
        }
        self.still_chunk = true;
        Ok(())
    }

    /// A frame has to fit the canvas, and cover it exactly in a file that does
    /// not declare itself an animation.
    fn frame_bounds(&self, p: &[u8]) -> (r: Result<()>)
        requires
            0 <= self.info.width <= 0x1000001,
            0 <= self.info.height <= 0x1000001,
        ensures
            r is Err ==> r == Err::<(), Error>(Error::InvalidData),
            p.len() < 16 ==> r is Err,
            p.len() >= 16 && (self.info.width == 0 || self.info.height == 0) ==> r is Ok,
            p.len() >= 16 && self.info.width != 0 && self.info.height != 0 ==> (r is Ok <==> {
                let x = 2 * lez(p@, 0, 3);
                let y = 2 * lez(p@, 3, 3);
                let w = lez(p@, 6, 3) + 1;
                let h = lez(p@, 9, 3) + 1;
                if self.vp8x_flags & VP8X_FLAG_ANIM == 0 {
                    x == 0 && y == 0 && w == self.info.width && h == self.info.height
                } else {
                    x + w <= self.info.width && y + h <= self.info.height
                }
            }),
    {
        if p.len() < 16 {
            return Err(Error::InvalidData);
        }
        if self.info.width == 0 || self.info.height == 0 {
            return Ok(());
        }

        let x = (rl24(p, 0) * 2) as i32;
        let y = (rl24(p, 3) * 2) as i32;
        let w = (rl24(p, 6) + 1) as i32;
        let h = (rl24(p, 9) + 1) as i32;
        proof {
            reveal_with_fuel(lez, 4);
        }
        let exact = self.vp8x_flags & VP8X_FLAG_ANIM == 0;
        let fits = if exact {
            x == 0 && y == 0 && w == self.info.width && h == self.info.height
        } else {
            x + w <= self.info.width && y + h <= self.info.height
        };

        if !fits {
            return Err(Error::InvalidData);
        }
        Ok(())
    }


    /// Reads a file with no RIFF wrapper: a bare VP8L stream, a bare VP8
    /// keyframe, or an ALPH chunk followed by a VP8 chunk.
    #[verifier::rlimit(60)]
    #[verifier::spinoff_prover]
    fn raw_headers(&mut self, data: &[u8], partial: bool) -> (r: Result<()>)
        requires
            old(self).wf(),
            old(self).pos == 0,
            old(self).info == empty_info(),
        ensures
            final(self).wf(),
            final(self).pos == 0,
            final(self).frames == old(self).frames,
            final(self).nb_frames == old(self).nb_frames,
            final(self).partial_frame == old(self).partial_frame,
            data.len() == 0 ==> r == Err::<(), Error>(Error::Truncated),
            !looks_raw(data@) && data.len() > 0 ==> r == Err::<(), Error>(
                if data.len() < 12 && partial { Error::Truncated } else { Error::NotWebp },
            ),
            r is Ok ==> looks_raw(data@),
            r is Ok ==> final(self).info.width > 0 && final(self).info.height > 0,
            r is Ok ==> final(self).info.frame_count == 1 && final(self).info.images == 1,
            r is Ok ==> final(self).info.end == data.len() && final(self).info.raw != Raw::No,
            r is Ok ==> final(self).info.raw_image_offset + final(self).info.raw_image_size
                <= data.len(),
            r is Ok && final(self).info.raw == Raw::AlphaAndLossy ==> final(self).info.raw_alpha_offset
                + final(self).info.raw_alpha_size <= final(self).info.raw_image_offset,
            (final(self).info, r) == raw_headers_result(old(self).info, data@, partial),
    {
        proof {
            reveal(raw_headers_result);
        }
        let size = data.len();

        self.info.truncated = false;
        if size == 0 {
            return Err(Error::Truncated);
        }
        if data[0] == 0x2f {
            self.info.raw = Raw::Lossless;
            self.info.raw_image_offset = 0;
            self.info.raw_image_size = size;
            if size < 5 {
                return Err(Error::Truncated);
            }
            still_header(&mut self.info, TAG_VP8L, data, size);
        } else if size >= 6 && data[3] == 0x9d && data[4] == 0x01 && data[5] == 0x2a {
            /* A bare stream declares no payload length, so until the caller
            says the stream has ended the keyframe header's own first partition
            is the only length to measure it against. */
            self.info.raw = Raw::Lossy;
            self.info.raw_image_offset = 0;
            self.info.raw_image_size = size;
            if size < 10 {
                return Err(Error::Truncated);
            }
            let mut payload = 10 + (rl24(data, 0) / 32) as usize;

            if !partial || payload < size {
                payload = size;
            }
            still_header(&mut self.info, TAG_VP8, data, payload);
            if self.info.width != 0 && payload > size {
                self.info.truncated = true;
            }
        } else if size >= 4 && rl32(data, 0) == TAG_ALPH {
            self.info.raw = Raw::AlphaAndLossy;
            if size < 8 {
                return Err(Error::Truncated);
            }
            let alpha_size = rl32(data, 4);

            if alpha_size == 0xffff_ffff {
                return Err(Error::InvalidData);
            }
            let padded = alpha_size as u64 + (alpha_size % 2) as u64;

            if padded > (size - 8) as u64 || (size - 8) as u64 - padded < 8 {
                return Err(Error::Truncated);
            }
            let image_header = 8 + padded as usize;

            if rl32(data, image_header) != TAG_VP8 {
                return Err(Error::InvalidData);
            }
            let image_size = rl32(data, image_header + 4) as usize;
            let mut have = image_size;

            if image_size > size - image_header - 8 {
                self.info.truncated = true;
                if !partial {
                    return Err(Error::Truncated);
                }
                have = size - image_header - 8;
            }
            self.info.raw_alpha_offset = 8;
            self.info.raw_alpha_size = alpha_size as usize;
            self.info.raw_image_offset = image_header + 8;
            self.info.raw_image_size = have;
            self.info.has_alpha = true;
            self.info.image_has_alpha = true;
            if have < 10 {
                return Err(Error::Truncated);
            }
            let image = window(data, self.info.raw_image_offset, have);

            still_header(&mut self.info, TAG_VP8, image, image_size);
        } else {
            return Err(
                if size < 12 && partial {
                    Error::Truncated
                } else {
                    Error::NotWebp
                },
            );
        }
        self.info.frame_count = 1;
        self.info.images = 1;
        self.info.end = size;
        if self.info.width != 0 && self.info.height != 0 {
            Ok(())
        } else {
            Err(Error::InvalidData)
        }
    }

    /// A VP8X chunk: the flags and the canvas size, once per file.
    #[verifier::rlimit(60)]
    #[verifier::spinoff_prover]
    fn vp8x_chunk(&mut self, buf: &[u8], at: usize, csize: u32) -> (r: Result<()>)
        requires
            old(self).wf(),
            !old(self).partial_frame,
            old(self).pos > 0,
            csize < 0xffff_ffff,
            at + 8 + csize + csize % 2 <= buf.len(),
            old(self).pos + 8 + csize + csize % 2 + 64 <= usize::MAX,
        ensures
            final(self).wf_at(old(self).pos + 8 + csize + (csize % 2) as int),
            r is Err ==> final(self).wf(),
            final(self).info.end == old(self).info.end,
            final(self).info.raw == old(self).info.raw,
            !final(self).partial_frame,
            final(self).pos == old(self).pos,
            final(self).collect_frames == old(self).collect_frames,
            final(self).riff_end == old(self).riff_end,
            (final(self).head(), r) == chunk_result(old(self).head(), buf@, at as int, TAG_VP8X, csize, old(self).pos as int),
            final(self).frames == old(self).frames,
            final(self).nb_frames == old(self).nb_frames,
    {
        proof {
            reveal(chunk_result);
        }
        if self.vp8x || csize != VP8X_CHUNK_SIZE {
            return Err(Error::InvalidData);
        }
        self.vp8x = true;

        let flags = byte_at(buf, at, 8);

        if flags & !VP8X_FLAGS_VALID != 0 {
            return Err(Error::InvalidData);
        }
        self.vp8x_flags = flags;
        self.info.has_alpha = self.info.has_alpha || flags & VP8X_FLAG_ALPHA != 0;

        let ghost info0 = self.info;
        let mut i: usize = 0;

        while i < METADATA_NB
            invariant
                i <= METADATA_NB,
                self.wf(),
                !self.partial_frame,
                self.pos == old(self).pos,
                self.collect_frames == old(self).collect_frames,
                self.info.end == old(self).info.end,
                self.info.raw == old(self).info.raw,
                self.riff_end == old(self).riff_end,
                self.vp8x,
                self.vp8x_flags == flags,
                self.anim_chunk == old(self).anim_chunk,
                self.still_chunk == old(self).still_chunk,
                self.info == (Info { metadata: meta_prefix(old(self).info.metadata, flags, i as int), ..info0 }),
                info0.metadata == old(self).info.metadata,
                self.frames == old(self).frames,
                self.nb_frames == old(self).nb_frames,
            decreases METADATA_NB - i,
        {
            if flags & meta_vp8x_flag(i) != 0 {
                self.info.metadata = self.info.metadata | meta_bit(i);
            }
            i = i + 1;
        }
        proof {
            reveal_with_fuel(meta_prefix, 4);
        }
        let w = rl24(buf, at + 12);
        let h = rl24(buf, at + 15);

        self.info.width = (w + 1) as i32;
        self.info.height = (h + 1) as i32;
        assert((w as u64 + 1) * (h as u64 + 1) <= 0x1000000 * 0x1000000) by (nonlinear_arith)
            requires
                w < 0x1000000,
                h < 0x1000000,
        ;
        if (w as u64 + 1) * (h as u64 + 1) >= 0x1_0000_0000 {
            return Err(Error::TooLarge);
        }
        Ok(())
    }

    /// An ANMF chunk: one more frame, which has to sit on the canvas.
    fn anmf_chunk(&mut self, buf: &[u8], at: usize, csize: u32) -> (r: Result<()>)
        requires
            old(self).wf(),
            !old(self).partial_frame,
            old(self).pos > 0,
            csize < 0xffff_ffff,
            at + 8 + csize + csize % 2 <= buf.len(),
            old(self).pos + 8 + csize + csize % 2 + 64 <= usize::MAX,
        ensures
            final(self).wf_at(old(self).pos + 8 + csize + (csize % 2) as int),
            r is Err ==> final(self).wf(),
            final(self).info.end == old(self).info.end,
            final(self).info.raw == old(self).info.raw,
            !final(self).partial_frame,
            final(self).pos == old(self).pos,
            final(self).collect_frames == old(self).collect_frames,
            final(self).riff_end == old(self).riff_end,
            (final(self).head(), r) == chunk_result(old(self).head(), buf@, at as int, TAG_ANMF, csize, old(self).pos as int),
            final(self).nb_frames == old(self).nb_frames + if r is Ok && old(self).collect_frames && old(self).nb_frames
                < MAX_FRAMES { 1int } else { 0 },
            forall|i: int| 0 <= i < old(self).nb_frames ==> final(self).frames[i] == old(self).frames[i],
            r is Ok && old(self).collect_frames && old(self).nb_frames < MAX_FRAMES ==> entry_declares(
                final(self).frames[old(self).nb_frames as int],
                buf@.subrange(at + 8, at + 24),
                true,
            ),
    {
        proof {
            reveal(chunk_result);
        }
        if !self.anim_chunk {
            return Err(Error::InvalidData);
        }
        /* A file without the animation flag may carry one frame, which has
        to cover the canvas. */
        if self.vp8x_flags & VP8X_FLAG_ANIM == 0 && self.info.frame_count > 0 {
            return Err(Error::InvalidData);
        }
        if self.frame_bounds(window(buf, at + 8, csize as usize)).is_err() {
            return Err(Error::InvalidData);
        }
        self.info.frame_count = if self.info.frame_count < 0x7fff_ffff {
            self.info.frame_count + 1
        } else {
            self.info.frame_count
        };
        if self.collect_frames {
            let p = window(buf, at + 8, csize as usize);
            let ghost nb0 = self.nb_frames;
            let _ = self.anmf(p, true);
            proof {
                if nb0 < MAX_FRAMES {
                    assert forall|j: int| 0 <= j < 16 implies p@[j] == buf@.subrange(at + 8, at + 24)[j] by {}
                    lemma_declares_header(self.frames[nb0 as int], p@, buf@.subrange(at + 8, at + 24), true);
                }
            }
        }
        Ok(())
    }

    /// A VP8 or VP8L chunk: one more image, the first of which gives the
    /// canvas its size unless a VP8X chunk already did.
    fn image_chunk(&mut self, buf: &[u8], at: usize, tag: u32, csize: u32) -> (r: Result<()>)
        requires
            old(self).wf(),
            !old(self).partial_frame,
            old(self).pos > 0,
            csize < 0xffff_ffff,
            at + 8 + csize + csize % 2 <= buf.len(),
            old(self).pos + 8 + csize + csize % 2 + 64 <= usize::MAX,
            tag == TAG_VP8 || tag == TAG_VP8L,
        ensures
            final(self).wf_at(old(self).pos + 8 + csize + (csize % 2) as int),
            r is Err ==> final(self).wf(),
            final(self).info.end == old(self).info.end,
            final(self).info.raw == old(self).info.raw,
            !final(self).partial_frame,
            final(self).pos == old(self).pos,
            final(self).collect_frames == old(self).collect_frames,
            final(self).riff_end == old(self).riff_end,
            (final(self).head(), r) == chunk_result(old(self).head(), buf@, at as int, tag, csize, old(self).pos as int),
            final(self).frames == old(self).frames,
            final(self).nb_frames == old(self).nb_frames,
    {
        proof {
            reveal(chunk_result);
        }
        let padded = csize as usize + (csize % 2) as usize;
        if self.still_chunk_allowed().is_err() {
            return Err(Error::InvalidData);
        }
        let first = self.info.images == 0;

        self.info.images = if self.info.images < 0x7fff_ffff {
            self.info.images + 1
        } else {
            self.info.images
        };
        if first {
            let width = self.info.width;
            let height = self.info.height;

            self.info.width = 0;
            self.info.height = 0;
            still_header(&mut self.info, tag, window(buf, at + 8, csize as usize), csize as usize);

            let image_w = self.info.width;
            let image_h = self.info.height;

            if self.vp8x && width != 0 && height != 0 {
                self.info.width = width;
                self.info.height = height;
                /* Two canvases that disagree make a still invalid. */
                if image_w != 0 && image_h != 0 && (image_w != width || image_h != height) {
                    return Err(Error::InvalidData);
                }
            }
        }
        Ok(())
    }

    /// Any other chunk: the metadata chunks are recorded, the rest skipped.
    fn other_chunk(&mut self, buf: &[u8], at: usize, tag: u32, csize: u32) -> (r: Result<()>)
        requires
            old(self).wf(),
            !old(self).partial_frame,
            old(self).pos > 0,
            csize < 0xffff_ffff,
            at + 8 + csize + csize % 2 <= buf.len(),
            old(self).pos + 8 + csize + csize % 2 + 64 <= usize::MAX,
            tag != TAG_VP8X && tag != TAG_ALPH && tag != TAG_ANIM && tag != TAG_ANMF && tag != TAG_VP8
                && tag != TAG_VP8L,
        ensures
            final(self).wf_at(old(self).pos + 8 + csize + (csize % 2) as int),
            r is Err ==> final(self).wf(),
            final(self).info.end == old(self).info.end,
            final(self).info.raw == old(self).info.raw,
            !final(self).partial_frame,
            final(self).pos == old(self).pos,
            final(self).collect_frames == old(self).collect_frames,
            final(self).riff_end == old(self).riff_end,
            (final(self).head(), r) == chunk_result(old(self).head(), buf@, at as int, tag, csize, old(self).pos as int),
            final(self).frames == old(self).frames,
            final(self).nb_frames == old(self).nb_frames,
    {
        proof {
            reveal(chunk_result);
        }
        let padded = csize as usize + (csize % 2) as usize;
        let ghost info0 = self.info;
        let mut i: usize = 0;

        while i < METADATA_NB
            invariant
                i <= METADATA_NB,
                info0 == old(self).info,
                self.riff_end == old(self).riff_end,
                self.vp8x == old(self).vp8x,
                self.vp8x_flags == old(self).vp8x_flags,
                self.anim_chunk == old(self).anim_chunk,
                self.still_chunk == old(self).still_chunk,
                self.info == if 0 <= meta_slot(tag) < i { meta_chunk(info0, tag, csize, old(self).pos as int) } else { info0 },
                self.frames == old(self).frames,
                self.nb_frames == old(self).nb_frames,
                self.wf_at(self.pos + 8 + padded),
                !self.partial_frame,
                self.pos == old(self).pos,
                self.collect_frames == old(self).collect_frames,
                padded == csize + csize % 2,
                self.pos + 8 + padded <= usize::MAX,
                self.info.end == old(self).info.end,
                self.info.raw == old(self).info.raw,
            decreases METADATA_NB - i,
        {
            if tag == meta_tag(i) {
                self.info.metadata = self.info.metadata | meta_bit(i);
                if self.info.meta_offset[i] == 0 && csize != 0 {
                    self.info.meta_offset[i] = self.pos + 8;
                    self.info.meta_size[i] = csize;
                }
            }
            i = i + 1;
        }
        Ok(())
    }

    /// Handles one chunk whose padded payload has all arrived: `tag` and
    /// `csize` are its header, and its payload starts at `at + 8` in `buf`.
    /// The walk's position is left for the caller to move on.
    #[verifier::rlimit(100)]
    #[verifier::spinoff_prover]
    fn chunk(&mut self, buf: &[u8], at: usize, tag: u32, csize: u32) -> (r: Result<()>)
        requires
            old(self).wf(),
            !old(self).partial_frame,
            old(self).pos > 0,
            csize < 0xffff_ffff,
            at + 8 + csize + csize % 2 <= buf.len(),
            old(self).pos + 8 + csize + csize % 2 + 64 <= usize::MAX,
        ensures
            final(self).wf_at(old(self).pos + 8 + csize + (csize % 2) as int),
            r is Err ==> final(self).wf(),
            final(self).info.end == old(self).info.end,
            final(self).info.raw == old(self).info.raw,
            !final(self).partial_frame,
            final(self).pos == old(self).pos,
            final(self).collect_frames == old(self).collect_frames,
            final(self).riff_end == old(self).riff_end,
            (final(self).head(), r) == chunk_result(old(self).head(), buf@, at as int, tag, csize, old(self).pos as int),
            final(self).nb_frames == old(self).nb_frames + if r is Ok && tag == TAG_ANMF && old(self).collect_frames
                && old(self).nb_frames < MAX_FRAMES { 1int } else { 0 },
            forall|i: int| 0 <= i < old(self).nb_frames ==> final(self).frames[i] == old(self).frames[i],
            r is Ok && tag == TAG_ANMF && old(self).collect_frames && old(self).nb_frames < MAX_FRAMES ==> entry_declares(
                final(self).frames[old(self).nb_frames as int],
                buf@.subrange(at + 8, at + 24),
                true,
            ),
    {
        proof {
            reveal(chunk_result);
        }
        if tag == TAG_VP8X {
            self.vp8x_chunk(buf, at, csize)
        } else if tag == TAG_ALPH {
            if self.still_chunk_allowed().is_err() {
                return Err(Error::InvalidData);
            }
            self.info.has_alpha = true;
            self.info.image_has_alpha = true;
            Ok(())
        } else if tag == TAG_ANIM {
            if csize < ANIM_CHUNK_SIZE {
                return Err(Error::InvalidData);
            }
            if self.still_chunk {
                return Err(Error::InvalidData);
            }
            /* Keep the first ANIM and skip later ones. */
            if !self.anim_chunk {
                self.anim_chunk = true;
                self.info.animation = true;
                self.info.background_argb = rl32(buf, at + 8);
                self.info.loop_count = rl16(buf, at + 12) as i32;
            }
            Ok(())
        } else if tag == TAG_ANMF {
            self.anmf_chunk(buf, at, csize)
        } else if tag == TAG_VP8 || tag == TAG_VP8L {
            self.image_chunk(buf, at, tag, csize)
        } else {
            self.other_chunk(buf, at, tag, csize)
        }
    }

    /// Handles the chunk the window ends inside, of which `avail` payload
    /// bytes have arrived: a frame still arriving takes its provisional slot,
    /// and a still still arriving gives its canvas early to a stream.
    fn tail_chunk(&mut self, buf: &[u8], at: usize, tag: u32, csize: u32, avail: usize, partial: bool)
        -> (r: Result<bool>)
        requires
            old(self).wf(),
            !old(self).partial_frame,
            old(self).pos > 0,
            old(self).pos + 24 <= usize::MAX,
            at + 8 + avail <= buf.len(),
        ensures
            final(self).wf(),
            final(self).pos == old(self).pos,
            final(self).info.end == old(self).info.end,
            final(self).info.raw == old(self).info.raw,
            final(self).collect_frames == old(self).collect_frames,
            (final(self).head(), r) == tail_result(old(self).head(), buf@, at as int, tag, csize, avail as int, partial),
            final(self).riff_end == old(self).riff_end,
            final(self).nb_frames == old(self).nb_frames,
            forall|i: int| 0 <= i < old(self).nb_frames ==> #[trigger] final(self).frames@[i] == old(self).frames@[i],
            final(self).partial_frame == tail_frame(Some((at, tag, csize, avail)), old(self).nb_frames as int, old(self).collect_frames),
            final(self).partial_frame ==> final(self).frames@.len() > old(self).nb_frames && entry_declares(
                final(self).frames@[old(self).nb_frames as int],
                buf@.subrange(at + 8, at + 24),
                false,
            ),
    {
        proof {
            reveal(tail_result);
        }
        let mut partial_still = false;

        if self.collect_frames && tag == TAG_ANMF {
            let p = window(buf, at + 8, avail);
            let ghost nb0 = self.nb_frames;
            let _ = self.anmf(p, false);
            proof {
                if avail >= 16 && nb0 < MAX_FRAMES {
                    assert forall|j: int| 0 <= j < 16 implies p@[j] == buf@.subrange(at + 8, at + 24)[j] by {}
                    lemma_declares_header(self.frames@[nb0 as int], p@, buf@.subrange(at + 8, at + 24), false);
                }
            }
        }
        if partial && self.info.images == 0 && (tag == TAG_VP8 || tag == TAG_VP8L) {
            if self.still_chunk_allowed().is_err() {
                return Err(Error::InvalidData);
            }
            let width = self.info.width;
            let height = self.info.height;

            partial_still = true;
            still_header(&mut self.info, tag, window(buf, at + 8, avail), csize as usize);
            if self.vp8x && width != 0 && height != 0 {
                self.info.width = width;
                self.info.height = height;
            }
        }
        Ok(partial_still)
    }

    /// Reads the chunks from where the walk stands up to `info.end`, as
    /// [`walk`] says, leaving the position at the chunk it stopped on.
    #[verifier::rlimit(60)]
    fn walk_chunks(&mut self, buf: &[u8], base: usize) -> (r: (Result<()>, Option<(usize, u32, u32, usize)>))
        requires
            old(self).wf(),
            !old(self).partial_frame,
            0 < old(self).pos,
            base <= old(self).pos <= base + buf.len(),
            old(self).info.end <= base + buf.len(),
            base + buf.len() + 64 <= usize::MAX,
        ensures
            final(self).wf(),
            !final(self).partial_frame,
            old(self).pos <= final(self).pos <= base + buf.len(),
            final(self).info.end == old(self).info.end,
            final(self).info.raw == old(self).info.raw,
            final(self).collect_frames == old(self).collect_frames,
            final(self).riff_end == old(self).riff_end,
            r.1 matches Some((a, t, c, v)) ==> a + 8 + v <= buf.len(),
            r.0 is Err ==> r.1 is None,
            (final(self).head(), final(self).pos as int, r.1, r.0) == walk(
                old(self).head(),
                buf@,
                base as int,
                old(self).pos as int,
                old(self).info.end as int,
            ),
            frames_walked(
                old(self).nb_frames as int,
                old(self).frames@,
                final(self).nb_frames as int,
                final(self).frames@,
                walk_anmfs(old(self).head(), buf@, base as int, old(self).pos as int, old(self).info.end as int),
                buf@,
                old(self).collect_frames,
            ),
    {
        proof {
            reveal_with_fuel(walk, 1);
        }
        let ghost end = self.info.end as int;
        proof {
            reveal(frames_walked);
            reveal_with_fuel(walk_anmfs, 1);
        }
        let ghost nb0 = self.nb_frames as int;
        let ghost f0 = self.frames@;
        let ghost all = walk_anmfs(self.head(), buf@, base as int, self.pos as int, end);
        let ghost mut seen: Seq<int> = seq![];

        let ghost total = walk(self.head(), buf@, base as int, self.pos as int, end);
        let size = base + buf.len();
        let mut tail: Option<(usize, u32, u32, usize)> = None;

        loop
            invariant_except_break
                walk(self.head(), buf@, base as int, self.pos as int, end) == total,
                seen + walk_anmfs(self.head(), buf@, base as int, self.pos as int, end) == all,
                tail is None,
            invariant
                end == old(self).info.end,
                total == walk(old(self).head(), buf@, base as int, old(self).pos as int, old(self).info.end as int),
                self.wf(),
                !self.partial_frame,
                0 < self.pos,
                tail matches Some((a, t, c, v)) ==> a + 8 + v <= buf.len(),
                base <= self.pos,
                self.pos >= old(self).pos,
                self.pos <= size,
                self.info.end == end,
                end <= size,
                size == base + buf.len(),
                size + 64 <= usize::MAX,
                self.collect_frames == old(self).collect_frames,
                self.riff_end == old(self).riff_end,
                self.info.raw == old(self).info.raw,
                nb0 == old(self).nb_frames,
                f0 == old(self).frames@,
                all == walk_anmfs(old(self).head(), buf@, base as int, old(self).pos as int, old(self).info.end as int),
                frames_walked(nb0, f0, self.nb_frames as int, self.frames@, seen, buf@, self.collect_frames),
            ensures
                (self.head(), self.pos as int, tail, Ok::<(), Error>(())) == total,
                seen == all,
            decreases size - self.pos,
        {
            proof {
                reveal_with_fuel(walk, 1);
                reveal_with_fuel(walk_anmfs, 1);
                reveal(frames_walked);
            }
            if self.pos + 8 > self.info.end {
                break;
            }
            let at = self.pos - base;
            let tag = rl32(buf, at);
            let csize = rl32(buf, at + 4);

            if csize == 0xffff_ffff {
                self.info.truncated = true;
                break;
            }
            let padded = csize as usize + (csize % 2) as usize;

            if self.info.end - (self.pos + 8) < padded {
                let avail = self.info.end - (self.pos + 8);

                self.info.truncated = true;
                tail = Some((at, tag, csize, avail));
                break;
            }
            let ghost pre = *self;
            match self.chunk(buf, at, tag, csize) {
                Ok(()) => {},
                Err(e) => {
                    proof {
                        assert(seen =~= all);
                    }
                    return (Err(e), None);
                },
            }
            proof {
                let add: Seq<int> = if tag == TAG_ANMF { seq![at + 8] } else { seq![] };
                let s2 = seen + add;
                assert(s2 + walk_anmfs(self.head(), buf@, base as int, self.pos + 8 + padded, end) =~= seen + walk_anmfs(
                    pre.head(),
                    buf@,
                    base as int,
                    pre.pos as int,
                    end,
                ));
                assert forall|i: int| 0 <= i < nb0 implies #[trigger] self.frames@[i] == f0[i] by {
                    assert(pre.frames@[i] == f0[i]);
                }
                if self.collect_frames {
                    assert forall|k: int| 0 <= k < s2.len() && nb0 + k < MAX_FRAMES implies #[trigger] entry_declares(
                        self.frames@[nb0 + k],
                        buf@.subrange(s2[k], s2[k] + 16),
                        true,
                    ) by {
                        if k < seen.len() {
                            assert(entry_declares(pre.frames@[nb0 + k], buf@.subrange(seen[k], seen[k] + 16), true));
                            assert(self.frames@[nb0 + k] == pre.frames@[nb0 + k]);
                        }
                    }
                }
                seen = s2;
            }
            self.pos = self.pos + 8 + padded;
        }
        proof {
            reveal_with_fuel(walk, 1);
        }
        (Ok(()), tail)
    }

    /// The last checks of a RIFF scan, as [`finish_scan`] says.
    fn finish(&mut self, partial_still: bool, partial: bool) -> (r: Result<()>)
        requires
            old(self).wf(),
        ensures
            final(self).wf(),
            final(self).pos == old(self).pos,
            final(self).collect_frames == old(self).collect_frames,
            final(self).info.raw == old(self).info.raw,
            final(self).info.end == old(self).info.end,
            r is Ok ==> final(self).info.width > 0 && final(self).info.height > 0,
            (final(self).info, r) == finish_scan(old(self).head(), partial_still, partial),
            final(self).head() == (Head { info: final(self).info, ..old(self).head() }),
            final(self).riff_end == old(self).riff_end,
            final(self).frames == old(self).frames,
            final(self).nb_frames == old(self).nb_frames,
            final(self).partial_frame == old(self).partial_frame,
    {
        /* An animation may mix lossy and lossless frames, which is reported
        as an undefined coding; only a still's coding is meaningful. */
        if self.info.animation {
            self.info.coding = Coding::Unknown;
        } else {
            self.info.frame_count = if self.info.images != 0 || partial_still { 1 } else { 0 };
        }

        if self.info.width == 0 || self.info.height == 0 {
            return Err(
                if self.info.truncated {
                    Error::Truncated
                } else {
                    Error::InvalidData
                },
            );
        }
        if !partial && !self.info.truncated && self.vp8x_flags & VP8X_FLAG_ANIM != 0
            && !self.anim_chunk {
            return Err(Error::InvalidData);
        }
        Ok(())
    }

    /// The end of a scan, once the walk stopped: the chunk the input ends
    /// inside, if any, then the last checks, as [`scan_end`] says.
    fn end_scan(&mut self, buf: &[u8], tail: Option<(usize, u32, u32, usize)>, partial: bool) -> (r: Result<()>)
        requires
            old(self).wf(),
            !old(self).partial_frame,
            0 < old(self).pos,
            old(self).pos + 24 <= usize::MAX,
            tail matches Some((a, t, c, v)) ==> a + 8 + v <= buf.len(),
        ensures
            final(self).wf(),
            final(self).pos == old(self).pos,
            final(self).collect_frames == old(self).collect_frames,
            final(self).info.raw == old(self).info.raw,
            final(self).info.end == old(self).info.end,
            final(self).riff_end == old(self).riff_end,
            r is Ok ==> final(self).info.width > 0 && final(self).info.height > 0,
            (final(self).info, r) == scan_end(old(self).head(), buf@, tail, partial),
            final(self).head() == scan_end_head(old(self).head(), buf@, tail, partial),
            frames_ended(
                old(self).nb_frames as int,
                old(self).frames@,
                final(self).nb_frames as int,
                final(self).frames@,
                final(self).partial_frame,
                tail,
                buf@,
                old(self).collect_frames,
            ),
    {
        proof {
            reveal(tail_result);
            reveal(frames_ended);
        }
        let mut partial_still = false;
        if let Some((at, tag, csize, avail)) = tail {
            match self.tail_chunk(buf, at, tag, csize, avail, partial) {
                Ok(p) => {
                    partial_still = p;
                },
                Err(e) => {
                    return Err(e);
                },
            }
        }
        self.finish(partial_still, partial)
    }

    /// The scan of a RIFF file past its header, from where the walk stands, as
    /// [`riff_scan`] says.
    #[verifier::rlimit(100)]
    #[verifier::spinoff_prover]
    fn scan_riff(&mut self, buf: &[u8], base: usize, partial: bool) -> (r: Result<()>)
        requires
            old(self).wf(),
            !old(self).partial_frame,
            !old(self).info.truncated,
            0 < old(self).pos,
            base <= old(self).pos <= base + buf.len(),
            base + buf.len() + 64 <= usize::MAX,
        ensures
            final(self).wf(),
            old(self).pos <= final(self).pos <= base + buf.len(),
            final(self).collect_frames == old(self).collect_frames,
            final(self).info.raw == Raw::No,
            r is Ok ==> final(self).info.width > 0 && final(self).info.height > 0,
            r is Ok ==> final(self).info.end <= base + buf.len(),
            (final(self).info, r) == riff_scan(
                old(self).head(),
                buf@,
                base as int,
                old(self).pos as int,
                old(self).riff_end as int,
                partial,
            ),
            final(self).pos as int == riff_scan_pos(old(self).head(), buf@, base as int, old(self).pos as int, old(self).riff_end as int),
            final(self).head() == riff_scan_head(
                old(self).head(),
                buf@,
                base as int,
                old(self).pos as int,
                old(self).riff_end as int,
                partial,
            ),
            final(self).riff_end == old(self).riff_end,
            frames_scanned(
                old(self).nb_frames as int,
                old(self).frames@,
                final(self).nb_frames as int,
                final(self).frames@,
                final(self).partial_frame,
                riff_anmfs(old(self).head(), buf@, base as int, old(self).pos as int, old(self).riff_end as int),
                riff_tail(old(self).head(), buf@, base as int, old(self).pos as int, old(self).riff_end as int),
                buf@,
                old(self).collect_frames,
            ),
    {
        let size = base + buf.len();

        self.info.end = size;
        if self.riff_end < size as u64 {
            self.info.end = self.riff_end as usize;
        } else if self.riff_end > size as u64 {
            self.info.truncated = true;
        }

        let ghost nb0 = self.nb_frames as int;
        let ghost f0 = self.frames@;
        let (walked, tail) = self.walk_chunks(buf, base);
        let ghost nbm = self.nb_frames as int;
        let ghost fm = self.frames@;

        if let Err(e) = walked {
            proof {
                assert(tail is None);
                assert(self.nb_frames <= self.frames@.len());
                reveal(frames_ended);
                lemma_frames_scanned(nb0, f0, nbm, fm, nbm, fm, false, riff_anmfs(old(self).head(), buf@, base as int,
                    old(self).pos as int, old(self).riff_end as int), tail, buf@, old(self).collect_frames);
            }
            return Err(e);
        }
        let r = self.end_scan(buf, tail, partial);
        proof {
            assert(self.nb_frames <= self.frames@.len());
            lemma_frames_scanned(nb0, f0, nbm, fm, self.nb_frames as int, self.frames@, self.partial_frame,
                riff_anmfs(old(self).head(), buf@, base as int, old(self).pos as int, old(self).riff_end as int), tail, buf@,
                old(self).collect_frames);
        }
        r
    }

    /// Walks the chunk list without decoding anything, so it is safe to run on
    /// the caller's memory before the file is copied. `base` is the stream
    /// offset `buf` starts at, once earlier bytes have been dropped;
    /// `partial` says more input may still be coming, and `collect_frames`
    /// asks for the ANMF table, which is the only thing here that allocates.
    #[verifier::rlimit(100)]
    #[verifier::spinoff_prover]
    pub fn headers(&mut self, buf: &[u8], base: usize, partial: bool, collect_frames: bool) -> (r:
        Result<()>)
        requires
            old(self).wf(),
            base <= old(self).position() <= base + buf.len(),
            old(self).position() == 0 ==> old(self).spec_info() == empty_info(),
            base + buf.len() + 64 <= usize::MAX,
        ensures
            final(self).wf(),
            old(self).position() <= final(self).position() <= base + buf.len(),
            r is Ok ==> final(self).spec_info().width > 0 && final(self).spec_info().height > 0,
            r is Ok ==> final(self).spec_info().end <= base + buf.len(),
            // A RIFF header with nothing behind it is a file still arriving.
            old(self).position() == 0 && 4 <= buf.len() < 12 && lez(buf@, 0, 4) == TAG_RIFF ==> r
                == Err::<(), Error>(Error::Truncated),
            // What is neither a RIFF WebP nor one of the bare shapes is no WebP.
            old(self).position() == 0 && !riff_webp(buf@) && !looks_raw(buf@) && !(4 <= buf.len()
                < 12 && lez(buf@, 0, 4) == TAG_RIFF) && (buf.len() >= 12 || !partial) && buf.len()
                > 0 ==> r == Err::<(), Error>(Error::NotWebp),
            old(self).position() == 0 && buf.len() == 0 ==> r == Err::<(), Error>(Error::Truncated),
            // Input with no RIFF header is scanned as a bare stream.
            old(self).position() == 0 && !riff_webp(buf@) && !(4 <= buf.len() < 12 && lez(buf@, 0, 4)
                == TAG_RIFF) ==> (final(self).spec_info(), r) == raw_headers_result(old(self).spec_info(), buf@, partial),
            // A RIFF file is walked chunk by chunk, from where the last scan
            // stopped or from just past its header.
            old(self).position() != 0 || riff_webp(buf@) ==> (final(self).spec_info(), r) == riff_scan(
                old(self).head(),
                buf@,
                base as int,
                if old(self).position() == 0 { 12 } else { old(self).position() as int },
                if old(self).position() == 0 { lez(buf@, 4, 4) + 8 } else { old(self).spec_riff_end() },
                partial,
            ),
            // It leaves the walk where it stopped, knowing what it learned,
            // for a later call on more of the stream to carry on from.
            old(self).position() != 0 || riff_webp(buf@) ==> final(self).spec_riff_end() == if old(self).position()
                == 0 { lez(buf@, 4, 4) + 8 } else { old(self).spec_riff_end() },
            old(self).position() != 0 || riff_webp(buf@) ==> final(self).position() as int == riff_scan_pos(
                old(self).head(),
                buf@,
                base as int,
                if old(self).position() == 0 { 12 } else { old(self).position() as int },
                if old(self).position() == 0 { lez(buf@, 4, 4) + 8 } else { old(self).spec_riff_end() },
            ),
            old(self).position() != 0 || riff_webp(buf@) ==> final(self).head() == riff_scan_head(
                old(self).head(),
                buf@,
                base as int,
                if old(self).position() == 0 { 12 } else { old(self).position() as int },
                if old(self).position() == 0 { lez(buf@, 4, 4) + 8 } else { old(self).spec_riff_end() },
                partial,
            ),
            // A bare stream is scanned whole each time, from the start.
            old(self).position() == 0 && !riff_webp(buf@) ==> final(self).position() == 0,
            // The frame table keeps the frames already complete, lists each
            // ANMF chunk the walk takes in whole after them, in order and
            // with what its header declares, and then one still arriving.
            old(self).position() != 0 || riff_webp(buf@) ==> frames_scanned(
                old(self).complete_frames(),
                old(self).frame_seq(),
                final(self).complete_frames(),
                final(self).frame_seq(),
                final(self).partial_listed(),
                riff_anmfs(
                    old(self).head(),
                    buf@,
                    base as int,
                    if old(self).position() == 0 { 12 } else { old(self).position() as int },
                    if old(self).position() == 0 { lez(buf@, 4, 4) + 8 } else { old(self).spec_riff_end() },
                ),
                riff_tail(
                    old(self).head(),
                    buf@,
                    base as int,
                    if old(self).position() == 0 { 12 } else { old(self).position() as int },
                    if old(self).position() == 0 { lez(buf@, 4, 4) + 8 } else { old(self).spec_riff_end() },
                ),
                buf@,
                collect_frames,
            ),
            old(self).position() == 0 && !riff_webp(buf@) ==> final(self).complete_frames() == old(self).complete_frames()
                && final(self).frame_seq() == old(self).frame_seq() && !final(self).partial_listed(),
            // The metadata chunks recorded have all arrived.
            forall|i: int| 0 <= i < 3 && final(self).spec_info().meta_offset[i] != 0 ==>
                final(self).spec_info().meta_offset[i] + final(self).spec_info().meta_size[i]
                    <= final(self).position(),
            // A bare stream's image lies within what was handed in.
            r is Ok && final(self).spec_info().raw != Raw::No ==> final(self).spec_info().raw_image_offset
                + final(self).spec_info().raw_image_size <= buf.len(),
    {
        let size = base + buf.len();

        self.collect_frames = collect_frames;
        self.info.truncated = false;
        self.partial_frame = false;

        if self.pos == 0 {
            if 4 <= size && size < 12 && rl32(buf, 0) == TAG_RIFF {
                return Err(Error::Truncated);
            }
            if size < 12 || rl32(buf, 0) != TAG_RIFF || rl32(buf, 8) != TAG_WEBP {
                self.info.truncated = false;
                return self.raw_headers(buf, partial);
            }
            self.riff_end = rl32(buf, 4) as u64 + 8;
            self.pos = 12;
        }
        self.scan_riff(buf, base, partial)
    }
}

/// Reads what a file declares about itself without decoding it, and without
/// allocating: the frame table is what costs memory, and this never asks for
/// one.
pub fn get_info(data: &[u8]) -> (r: Result<Info>)
    requires
        data.len() + 64 <= usize::MAX,
    ensures
        r matches Ok(info) ==> info.width > 0 && info.height > 0 && info.end <= data.len(),
        4 <= data.len() < 12 && lez(data@, 0, 4) == TAG_RIFF ==> r == Err::<Info, Error>(
            Error::Truncated,
        ),
        data.len() >= 12 && !riff_webp(data@) && !looks_raw(data@) ==> r == Err::<Info, Error>(
            Error::NotWebp,
        ),
        data.len() == 0 ==> r == Err::<Info, Error>(Error::Truncated),
        r == scanned(data@),
{
    let mut scan = Scan::new();

    match scan.headers(data, 0, true, false) {
        Ok(()) => Ok(scan.info),
        Err(e) => Err(e),
    }
}

} // verus!
