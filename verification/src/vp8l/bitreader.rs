//! The lossless bitstream's bit reader.
//!
//! Bits are read least significant first, byte after byte. The reader holds
//! only a bit cursor into the chunk, never a pointer into it, so a chunk that
//! grows (and moves) between calls invalidates nothing the reader keeps. Past
//! the end of the data the stream reads as zeros; a read that runs past the end
//! marks the reader as at the end of the stream and leaves the cursor there.

use vstd::prelude::*;
use vstd::arithmetic::power2::pow2;

verus! {

/// Bit `c` of the stream `buf` holds: bit `c % 8` of byte `c / 8`, or zero
/// past the end.
pub open spec fn stream_bit(buf: Seq<u8>, c: int) -> int {
    if 0 <= c < 8 * buf.len() {
        ((buf[c / 8] as int) / pow2((c % 8) as nat) as int) % 2
    } else {
        0
    }
}

/// The `n` bits of the stream from bit `c` on, as a number whose bit 0 is the
/// first of them.
pub open spec fn stream_bits(buf: Seq<u8>, c: int, n: nat) -> int
    decreases n,
{
    if n == 0 {
        0
    } else {
        stream_bits(buf, c, (n - 1) as nat) + stream_bit(buf, c + n - 1) * pow2((n - 1) as nat)
    }
}

pub proof fn lemma_stream_bits_bound(buf: Seq<u8>, c: int, n: nat)
    ensures
        0 <= stream_bits(buf, c, n) < pow2(n),
    decreases n,
{
    vstd::arithmetic::power2::lemma_pow2_pos(n);
    if n > 0 {
        lemma_stream_bits_bound(buf, c, (n - 1) as nat);
        vstd::arithmetic::power2::lemma_pow2_unfold(n);
        if 0 <= c + n - 1 < 8 * buf.len() {
            let k = (c + n - 1) % 8;
            vstd::arithmetic::power2::lemma_pow2_pos(k as nat);
        }
        let b = stream_bit(buf, c + n - 1);
        assert(b == 0 || b == 1);
        vstd::arithmetic::power2::lemma_pow2_pos((n - 1) as nat);
        if b == 0 {
            assert(b * pow2((n - 1) as nat) == 0);
        } else {
            assert(b * pow2((n - 1) as nat) == pow2((n - 1) as nat));
        }
    }
}

/// Where a cursor at `pos` lands after `n` more bits: never past the end.
pub open spec fn advanced(buf: Seq<u8>, pos: int, n: int) -> int {
    if pos + n > 8 * buf.len() {
        8 * buf.len() as int
    } else {
        pos + n
    }
}

/// What reading `n` bits from a reader at `pos` gives: the value, the new
/// cursor, and whether the stream has ended. Once ended, or asked for more
/// than 24 bits, a read gives zero and leaves the cursor where it was.
pub open spec fn take(buf: Seq<u8>, pos: int, eos: bool, n: int) -> (int, int, bool) {
    if !eos && 0 <= n <= 24 {
        (stream_bits(buf, pos, n as nat), advanced(buf, pos, n), pos + n > 8 * buf.len())
    } else {
        (0, pos, true)
    }
}

pub struct BitReader {
    /// The bit the next read starts at.
    pub pos: usize,
    /// Whether a read has run past the end of the data.
    pub eos: bool,
}

impl BitReader {
    /// The reader's cursor lies within the data (or just past its last bit).
    pub open spec fn wf(&self, buf: Seq<u8>) -> bool {
        &&& self.pos <= 8 * buf.len()
        &&& 8 * buf.len() <= usize::MAX
    }

    pub fn new(buf: &[u8]) -> (br: BitReader)
        requires
            8 * buf.len() <= usize::MAX,
        ensures
            br.pos == 0,
            !br.eos,
            br.wf(buf@),
    {
        BitReader { pos: 0, eos: false }
    }

    /// The next `n` bits, without consuming them.
    pub fn peek(&self, buf: &[u8], n: u32) -> (r: u32)
        requires
            self.wf(buf@),
            n <= 32,
        ensures
            r == stream_bits(buf@, self.pos as int, n as nat),
    {
        let end = buf.len() * 8;
        let mut v: u64 = 0;
        let mut w: u64 = 1;
        let mut i: u32 = 0;
        proof {
            vstd::arithmetic::power2::lemma2_to64();
        }
        while i < n
            invariant
                i <= n <= 32,
                self.wf(buf@),
                end == 8 * buf.len(),
                w == pow2(i as nat),
                v == stream_bits(buf@, self.pos as int, i as nat),
                0 <= v < w,
                w <= 0x1_0000_0000,
            decreases n - i,
        {
            let mut one = false;
            if (i as usize) < end - self.pos {
                let c = self.pos + i as usize;
                let byte = buf[c / 8];
                let sh = (c % 8) as u8;
                one = (byte >> sh) & 1 == 1;
                proof {
                    vstd::bits::lemma_u8_shr_is_div(byte, sh);
                    assert((byte >> sh) & 1 == (byte >> sh) % 2) by (bit_vector);
                }
            }
            proof {
                vstd::arithmetic::power2::lemma2_to64();
                vstd::arithmetic::power2::lemma_pow2_unfold((i + 1) as nat);
                assert(stream_bits(buf@, self.pos as int, (i + 1) as nat) == stream_bits(buf@, self.pos as int, i as nat)
                    + stream_bit(buf@, self.pos + i) * pow2(i as nat));
                if i + 1 < 32 {
                    vstd::arithmetic::power2::lemma_pow2_strictly_increases((i + 1) as nat, 32);
                }
                assert(stream_bit(buf@, self.pos + i) == if one { 1int } else { 0int });
            }
            if one {
                v = v + w;
            }
            w = w * 2;
            i += 1;
        }
        v as u32
    }

    /// Consumes `n` bits; running past the end marks the end of the stream.
    pub fn advance(&mut self, buf: &[u8], n: u32)
        requires
            old(self).wf(buf@),
        ensures
            final(self).wf(buf@),
            final(self).pos == advanced(buf@, old(self).pos as int, n as int),
            final(self).eos == (old(self).eos || old(self).pos + n > 8 * buf.len()),
    {
        let end = buf.len() * 8;
        if n as usize > end - self.pos {
            self.pos = end;
            self.eos = true;
        } else {
            self.pos = self.pos + n as usize;
        }
    }

    /// Reads `n` bits, at most 24 of them. A read of more, or any read once
    /// the end has been passed, gives zero and marks the end of the stream.
    pub fn bits(&mut self, buf: &[u8], n: u32) -> (r: u32)
        requires
            old(self).wf(buf@),
        ensures
            final(self).wf(buf@),
            (r as int, final(self).pos as int, final(self).eos) == take(buf@, old(self).pos as int, old(self).eos, n as int),
            n <= 24 ==> r < pow2(n as nat),
    {
        proof {
            lemma_stream_bits_bound(buf@, self.pos as int, n as nat);
            vstd::arithmetic::power2::lemma_pow2_pos(n as nat);
        }
        if !self.eos && n <= 24 {
            let v = self.peek(buf, n);
            self.advance(buf, n);
            v
        } else {
            self.eos = true;
            0
        }
    }

    /// Reads one bit.
    pub fn bit(&mut self, buf: &[u8]) -> (r: u32)
        requires
            old(self).wf(buf@),
        ensures
            final(self).wf(buf@),
            (r as int, final(self).pos as int, final(self).eos) == take(buf@, old(self).pos as int, old(self).eos, 1),
            r <= 1,
    {
        proof {
            vstd::arithmetic::power2::lemma2_to64();
        }
        self.bits(buf, 1)
    }

    /// Whether a read has run past the end of the data.
    pub fn is_eos(&self, buf: &[u8]) -> (r: bool)
        requires
            self.wf(buf@),
        ensures
            r == self.eos,
    {
        self.eos
    }
}

} // verus!
