//! The library-level entry points that need no decoder: what a file says
//! about itself, the version, the dispatch mask, and the names the decoder's
//! settings are given in.

use vstd::prelude::*;
use crate::container::{get_info, Coding, Info};
use crate::cpu::{set_mask, CpuState};
use crate::error::{Error, Result};

verus! {

/// What an animation hands out: the composited canvas, or each sub-frame on
/// its own at its own position.
#[derive(Debug, Clone, Copy, PartialEq, Eq, Structural)]
pub enum Animation {
    Composited,
    Subframe,
}

impl Default for Animation {
    fn default() -> (r: Self)
        ensures
            r == Animation::Composited,
    {
        Animation::Composited
    }
}

/// Which metadata chunk to ask for.
#[derive(Debug, Clone, Copy, PartialEq, Eq, Structural)]
pub enum Metadata {
    Iccp,
    Exif,
    Xmp,
}

/// The flag bit a metadata kind has in [`ImageInfo::metadata`].
pub fn metadata_bit(kind: Metadata) -> (r: i32)
    ensures
        r == match kind {
            Metadata::Iccp => 1i32,
            Metadata::Exif => 2i32,
            Metadata::Xmp => 4i32,
        },
{
    match kind {
        Metadata::Iccp => 1,
        Metadata::Exif => 2,
        Metadata::Xmp => 4,
    }
}

/// What a file declares about itself.
#[derive(Debug, Clone, Copy, PartialEq, Eq, Structural)]
pub struct ImageInfo {
    pub width: i32,
    pub height: i32,
    pub has_alpha: bool,
    pub is_animation: bool,
    pub frame_count: i32,
    pub loop_count: i32,
    pub background_argb: u32,
    pub coding: Coding,
    pub metadata: i32,
}

/// The part of a scan a caller is told.
pub open spec fn image_info_of(i: Info) -> ImageInfo {
    ImageInfo {
        width: i.width,
        height: i.height,
        has_alpha: i.has_alpha,
        is_animation: i.animation,
        frame_count: i.frame_count,
        loop_count: i.loop_count,
        background_argb: i.background_argb,
        coding: i.coding,
        metadata: i.metadata,
    }
}

/// The library's version.
pub fn version() -> (r: &'static str)
    ensures
        r@ == "0.1.0"@,
{
    "0.1.0"
}

/// Restricts which instruction sets the DSP tables dispatch to, which is what
/// the test harnesses use to compare the assembly against the fallbacks.
pub fn set_cpu_flags_mask(state: &mut CpuState, mask: u32)
    ensures
        final(state).mask == mask,
        final(state).detected == old(state).detected,
{
    set_mask(state, mask);
}

/// What a file says about itself, without opening a decoder for it: what the
/// container scan reports, or the error it stopped on.
pub fn info(data: &[u8]) -> (r: Result<ImageInfo>)
    requires
        data.len() + 64 <= usize::MAX,
    ensures
        r matches Ok(i) ==> i.width > 0 && i.height > 0,
        data.len() == 0 ==> r == Err::<ImageInfo, Error>(Error::Truncated),
        data.len() >= 12 && !crate::container::riff_webp(data@) && !crate::container::looks_raw(data@) ==> r
            == Err::<ImageInfo, Error>(Error::NotWebp),
        4 <= data.len() < 12 && crate::container::lez(data@, 0, 4) == crate::container::TAG_RIFF ==> r
            == Err::<ImageInfo, Error>(Error::Truncated),
        r == (match crate::container::scanned(data@) {
            Ok(i) => Ok(image_info_of(i)),
            Err(e) => Err(e),
        }),
{
    match get_info(data) {
        Ok(scanned) => Ok(
            ImageInfo {
                width: scanned.width,
                height: scanned.height,
                has_alpha: scanned.has_alpha,
                is_animation: scanned.animation,
                frame_count: scanned.frame_count,
                loop_count: scanned.loop_count,
                background_argb: scanned.background_argb,
                coding: scanned.coding,
                metadata: scanned.metadata,
            },
        ),
        Err(e) => Err(e),
    }
}

} // verus!
