//! What a decode can go wrong with, and how it can stop short.

use vstd::prelude::*;

verus! {

#[derive(Debug, PartialEq, Eq, Clone, Copy, Structural)]
pub enum Error {
    InvalidData,
    NoMemory,
    TooLarge,
    Truncated,
    NotWebp,
    InvalidArgument,
    Unsupported,
    BufferTooSmall,
}

/// What a decode call stopped on: either the work asked for is finished, or
/// the chunk ran out part way and the caller should append more and resume.
#[derive(Debug, PartialEq, Eq, Clone, Copy, Structural)]
pub enum Status {
    Done,
    NeedMore,
}

pub type Result<T> = core::result::Result<T, Error>;

/// The limit a picture is held to, in either direction.
pub const MAX_DIMENSION: i32 = 16384;

/// Whether a `width` by `height` picture is one the decoder will take on.
pub open spec fn image_size_ok(width: int, height: int) -> bool {
    0 < width <= MAX_DIMENSION && 0 < height <= MAX_DIMENSION
}

pub fn check_image_size(width: i32, height: i32) -> (r: Result<()>)
    ensures
        r is Ok <==> image_size_ok(width as int, height as int),
        r is Err ==> r == Err::<(), Error>(Error::TooLarge),
{
    if width <= 0 || height <= 0 || width > MAX_DIMENSION || height > MAX_DIMENSION {
        return Err(Error::TooLarge);
    }
    Ok(())
}

} // verus!
