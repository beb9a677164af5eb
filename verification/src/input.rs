//! The geometry of the bytes that have arrived.
//!
//! A stream is described by two offsets rather than by pointers: how far it
//! has been seen, and how much of the front has been dropped. What is here is
//! the arithmetic a caller drives: how far the buffer has to grow for the next
//! append, and whether dropping the front is worth the move.

use crate::error::{Error, Result};
use crate::image::FILE_PADDING;
use vstd::prelude::*;

verus! {

/// Below this, a compaction moves more bytes than it frees.
pub const COMPACT_THRESHOLD: usize = 65536;

/// The first capacity a growing buffer takes, and the step it doubles from.
pub const INITIAL_CAPACITY: usize = 65536;

/// The most a buffer may hold: chunk sizes are handed to the codecs as `i32`,
/// so a stream that grew past this could not be described to them. It is
/// `i32::MAX` less the padding.
pub const MAX_BUFFERED: usize = 2147483583;

/// Where a stream has got to, in stream offsets.
#[derive(Clone, Copy, PartialEq, Eq, Debug, Default, Structural)]
pub struct Window {
    /// How far the stream has been seen.
    pub size: usize,
    /// How much of the front has been dropped.
    pub discarded: usize,
}

impl Window {
    pub fn buffered(&self) -> (r: usize)
        ensures
            r == (if self.size >= self.discarded { self.size - self.discarded } else { 0 }),
    {
        self.size.saturating_sub(self.discarded)
    }

    /// Where `offset` lands in the buffer, or `None` when it names a byte that
    /// has been dropped or has not arrived.
    pub fn index_of(&self, offset: usize) -> (r: Option<usize>)
        ensures
            r is Some <==> self.discarded <= offset <= self.size,
            r matches Some(i) ==> i == offset - self.discarded,
    {
        if offset < self.discarded || offset > self.size {
            return None;
        }
        Some(offset - self.discarded)
    }
}

/// The capacity doubling from `from` first reaches: the least `from * 2^k`
/// that is at least `needed`.
pub open spec fn grown(from: int, needed: int) -> int
    decreases (if needed > from { needed - from } else { 0 }),
{
    if from <= 0 || from >= needed {
        from
    } else {
        grown(2 * from, needed)
    }
}

proof fn lemma_grown(from: int, needed: int)
    requires
        from > 0,
    ensures
        grown(from, needed) >= needed,
        grown(from, needed) >= from,
        from < needed ==> grown(from, needed) >= 2 * from,
        from < needed ==> grown(from, needed) < 2 * needed,
    decreases (if needed > from { needed - from } else { 0 }),
{
    if from < needed {
        lemma_grown(2 * from, needed);
    }
}

/// The capacity a buffer needs to take `size` more bytes, or `None` when what
/// it has is already enough.
///
/// The padding every kernel may read past the end is counted in, and the growth
/// doubles — from the current capacity, or from [`INITIAL_CAPACITY`] for an
/// empty buffer — so that appending a stream byte by byte is still linear.
pub fn grow_to(capacity: usize, buffered: usize, size: usize) -> (r: Result<Option<usize>>)
    ensures
        (size > MAX_BUFFERED || buffered + size > MAX_BUFFERED) ==> r == Err::<Option<usize>, Error>(Error::TooLarge),
        size <= MAX_BUFFERED && buffered + size <= MAX_BUFFERED ==> {
            let needed = buffered + size + FILE_PADDING;
            let from = if capacity == 0 { INITIAL_CAPACITY as int } else { capacity as int };
            &&& capacity >= needed ==> r == Ok::<Option<usize>, Error>(None)
            &&& capacity < needed && grown(from, needed) <= usize::MAX ==>
                    r == Ok::<Option<usize>, Error>(Some(grown(from, needed) as usize))
            &&& capacity < needed && grown(from, needed) > usize::MAX ==>
                    r == Err::<Option<usize>, Error>(Error::TooLarge)
        },
        // Every growth at least doubles what was there and covers the request.
        r matches Ok(Some(g)) ==> g >= buffered + size + FILE_PADDING && g >= 2 * capacity
            && g > capacity,
{
    if size > MAX_BUFFERED || buffered > MAX_BUFFERED - size {
        return Err(Error::TooLarge);
    }
    let needed = buffered + size + FILE_PADDING;

    if capacity >= needed {
        return Ok(None);
    }
    let mut grown_cap = if capacity == 0 {
        INITIAL_CAPACITY
    } else {
        capacity
    };
    let ghost from = grown_cap as int;

    proof {
        lemma_grown(from, needed as int);
    }
    while grown_cap < needed
        invariant
            0 < grown_cap,
            grown(grown_cap as int, needed as int) == grown(from, needed as int),
            grown_cap >= from,
            capacity > 0 ==> grown_cap >= capacity,
            capacity < needed,
            needed == buffered + size + FILE_PADDING,
            from < needed ==> grown(from, needed as int) >= 2 * from,
            grown_cap > from ==> grown_cap >= 2 * from,
        decreases (if needed > grown_cap { needed - grown_cap } else { 0 }),
    {
        match grown_cap.checked_mul(2) {
            Some(n) => {
                grown_cap = n;
            },
            None => {
                proof {
                    lemma_grown(2 * grown_cap, needed as int);
                }
                return Err(Error::TooLarge);
            },
        }
    }
    proof {
        lemma_grown(from, needed as int);
    }
    Ok(Some(grown_cap))
}

/// Whether dropping everything before `keep` is worth the move, and how many
/// bytes would have to be moved if it is.
///
/// A `keep` behind what has already been dropped is declined rather than an
/// error: a compaction may already have stopped short of it.
pub fn compact(window: Window, keep: usize) -> (r: Option<usize>)
    requires
        keep <= window.size,
        window.size - keep + FILE_PADDING <= usize::MAX,
    ensures
        r is Some <==> keep >= window.discarded && keep - window.discarded >= COMPACT_THRESHOLD,
        r matches Some(n) ==> n == window.size - keep + FILE_PADDING,
{
    if keep < window.discarded || keep - window.discarded < COMPACT_THRESHOLD {
        return None;
    }
    Some(window.size - keep + FILE_PADDING)
}

} // verus!
