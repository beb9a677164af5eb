//! Little-endian reads out of a byte slice.

use vstd::prelude::*;

verus! {

/// The little-endian value of `b[at..at + n]`.
pub open spec fn le(b: Seq<u8>, at: int, n: nat) -> int
    decreases n,
{
    if n == 0 {
        0
    } else {
        b[at] + 256 * le(b, at + 1, (n - 1) as nat)
    }
}

pub fn rl16(b: &[u8]) -> (r: u32)
    requires
        b.len() >= 2,
    ensures
        r == le(b@, 0, 2),
{
    proof {
        reveal_with_fuel(le, 3);
    }
    b[0] as u32 + (b[1] as u32) * 256
}

pub fn rl24(b: &[u8]) -> (r: u32)
    requires
        b.len() >= 3,
    ensures
        r == le(b@, 0, 3),
{
    proof {
        reveal_with_fuel(le, 4);
    }
    b[0] as u32 + (b[1] as u32) * 256 + (b[2] as u32) * 65536
}

pub fn rl32(b: &[u8]) -> (r: u32)
    requires
        b.len() >= 4,
    ensures
        r == le(b@, 0, 4),
{
    proof {
        reveal_with_fuel(le, 5);
    }
    b[0] as u32 + (b[1] as u32) * 256 + (b[2] as u32) * 65536 + (b[3] as u32) * 16777216
}

/// The byte at `at`, or zero past the end of `b`.
pub open spec fn byte_or_zero(b: Seq<u8>, at: int) -> u8 {
    if 0 <= at < b.len() { b[at] } else { 0 }
}

/// The byte `k` places after `at`, or zero past the end of `b`.
pub fn byte_at(b: &[u8], at: usize, k: usize) -> (r: u8)
    ensures
        r == byte_or_zero(b@, at + k),
{
    if at < b.len() && k < b.len() - at {
        b[at + k]
    } else {
        0
    }
}

/// Four bytes from `at`, zero-filled past the end of `b`.
pub fn quad(b: &[u8], at: usize) -> (r: [u8; 4])
    ensures
        forall|i: int| 0 <= i < 4 ==> r[i] == byte_or_zero(b@, at + i),
{
    [byte_at(b, at, 0), byte_at(b, at, 1), byte_at(b, at, 2), byte_at(b, at, 3)]
}

} // verus!
