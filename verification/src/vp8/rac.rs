//! The VP5/VP6/VP8 binary range decoder.
//!
//! The coder holds offsets into the chunk it reads and takes the chunk as a
//! slice per call. This is the 64-bit form, which consumes seven bytes per
//! refill.

use vstd::prelude::*;

verus! {

proof fn lemma_split_below(range: u32, prob: u8)
    requires
        1 <= range <= 255,
    ensures
        (((range * (prob as u32)) as u32) >> 8u32) < range,
        (((range * (prob as u32)) as u32) >> 8u32) <= 254,
{
    assert(range * (prob as u32) <= 255 * 255) by (nonlinear_arith)
        requires
            range <= 255,
            prob <= 255,
    ;
    let p = (range * (prob as u32)) as u32;
    assert(p >> 8u32 == p / 256) by (bit_vector);
    assert(p / 256 < range) by (nonlinear_arith)
        requires
            p == range * prob,
            prob <= 255,
            range >= 1,
    ;
}

proof fn lemma_no_underflow(value: u64, pos: i32, s: u32)
    requires
        0 <= pos <= 55,
        s <= 254,
        ((value >> (pos as u64)) as u32) > s,
    ensures
        value >= ((s + 1) as u64) << (pos as u64),
{
    let p = pos as u64;
    assert(((value >> p) as u32) > s && p <= 55 && s <= 254 ==> value >= ((s + 1) as u64) << p) by (bit_vector);
}

proof fn lemma_norm(r: u32)
    requires
        1 <= r <= 255,
    ensures
        24 <= r.leading_zeros() <= 31,
        (7i32 ^ (31i32 ^ (r.leading_zeros() as i32))) == r.leading_zeros() - 24,
        128 <= r << ((r.leading_zeros() - 24) as u32) <= 255,
{
    vstd::std_specs::bits::axiom_u32_leading_zeros(r);
    let lz = r.leading_zeros();
    assert(0 <= lz <= 32);
    assert(lz != 32);
    let a = (31 - lz) as u32;
    let b = (32 - lz) as u32;
    assert((r >> a) & 1u32 != 0u32);
    assert(r >> b == 0);
    let c = (lz - 24) as u32;
    assert((r >> a) & 1u32 != 0u32 && r >> b == 0 && 1 <= r <= 255 && lz < 32 && a == 31 - lz && b == 32 - lz
        ==> 24 <= lz <= 31) by (bit_vector);
    assert((r >> a) & 1u32 != 0u32 && r >> b == 0 && 24 <= lz <= 31 && a == 31 - lz && b == 32 - lz && c == lz - 24
        ==> 128 <= r << c <= 255) by (bit_vector);
    let li = lz as i32;
    assert(24 <= li <= 31 ==> (7i32 ^ (31i32 ^ li)) == li - 24) by (bit_vector);
}


/// The range decoder's state.
#[derive(Clone, Copy)]
pub struct RangeCoder {
    value: u64,
    range: u32,
    bits: i32,
    pos: usize,
    buf_max: usize,
    end: usize,
    eof: bool,
}

/// The eight bytes at `pos`, most significant first.
pub open spec fn be64(buf: Seq<u8>, pos: int) -> u64 {
    ((buf[pos] as u64) << 56u64) | ((buf[pos + 1] as u64) << 48u64) | ((buf[pos + 2] as u64) << 40u64) | ((buf[pos
        + 3] as u64) << 32u64) | ((buf[pos + 4] as u64) << 24u64) | ((buf[pos + 5] as u64) << 16u64) | ((buf[pos
        + 6] as u64) << 8u64) | (buf[pos + 7] as u64)
}

impl RangeCoder {
    /// Where the coder stops reading.
    pub closed spec fn spec_end(self) -> usize {
        self.end
    }

    /// Whether the coder has read past its end.
    pub closed spec fn spec_eof(self) -> bool {
        self.eof
    }

    /// The window of the chunk the coder may still read.
    pub closed spec fn spec_pos(self) -> usize {
        self.pos
    }

    /// A state the decoding steps keep: the range normalised, the bit count
    /// within the window, and the fast refill only where eight bytes remain.
    pub closed spec fn wf(self) -> bool {
        &&& 127 <= self.range <= 255
        &&& -8 <= self.bits <= 55
        &&& self.pos <= self.end
        &&& (self.buf_max <= self.pos || self.buf_max + 7 <= self.end)
    }

    /// The coder after the slow refill: one more byte, or past the end a zero
    /// byte once and nothing after that.
    pub closed spec fn load_final_spec(self, buf: Seq<u8>) -> RangeCoder {
        if self.pos < self.end {
            RangeCoder {
                value: (self.value << 8u64) | (buf[self.pos as int] as u64),
                pos: (self.pos + 1) as usize,
                bits: (self.bits + 8) as i32,
                ..self
            }
        } else if !self.eof {
            RangeCoder { value: self.value << 8u64, bits: (self.bits + 8) as i32, eof: true, ..self }
        } else {
            RangeCoder { bits: 0, ..self }
        }
    }

    /// The coder after a refill: seven bytes at once where eight remain.
    pub closed spec fn refill_spec(self, buf: Seq<u8>) -> RangeCoder {
        if self.pos < self.buf_max {
            RangeCoder {
                value: (self.value << 56u64) | (be64(buf, self.pos as int) >> 8u64),
                pos: (self.pos + 7) as usize,
                bits: (self.bits + 56) as i32,
                ..self
            }
        } else {
            self.load_final_spec(buf)
        }
    }

    /// The coder ready to decode: refilled when its window has run dry.
    pub closed spec fn prep(self, buf: Seq<u8>) -> RangeCoder {
        if self.bits < 0 {
            self.refill_spec(buf)
        } else {
            self
        }
    }

    /// One bit of probability `prob` out of 256 of being zero: the bit, and
    /// the coder with the range split and renormalised.
    pub closed spec fn prob_step(self, prob: u8) -> (RangeCoder, u32) {
        let range = self.range;
        let pos = self.bits;
        let split = ((range * (prob as u32)) as u32) >> 8u32;
        let value = (self.value >> (pos as u64)) as u32;
        let bit = value > split;
        let r1 = (if bit {
            range - split
        } else {
            split + 1
        }) as u32;
        let v1 = if bit {
            (self.value - (((split + 1) as u64) << (pos as u64))) as u64
        } else {
            self.value
        };
        let shift = r1.leading_zeros() - 24;
        (
            RangeCoder {
                value: v1,
                range: ((r1 << (shift as u32)) - 1) as u32,
                bits: (pos - shift) as i32,
                ..self
            },
            if bit {
                1u32
            } else {
                0u32
            },
        )
    }

    /// A decoded bit is a bit.
    pub proof fn lemma_got_prob_bit(self, buf: Seq<u8>, prob: u8)
        ensures
            self.got_prob(buf, prob).1 <= 1,
    {
    }

    /// A sign applied to `v` gives `v` or its negation.
    pub proof fn lemma_signed_step_value(self, v: i32)
        requires
            v > i32::MIN,
        ensures
            self.signed_step(v).1 == v || self.signed_step(v).1 == -v,
    {
    }

    /// What [`RangeCoder::get_prob`] does: refill if needed, then decode.
    pub open spec fn got_prob(self, buf: Seq<u8>, prob: u8) -> (RangeCoder, u32) {
        self.prep(buf).prob_step(prob)
    }

    /// One equiprobable bit applied as the sign of `v`: `v` or its negation,
    /// and the coder after it.
    pub closed spec fn signed_step(self, v: i32) -> (RangeCoder, i32) {
        let pos = self.bits;
        let split = self.range >> 1u32;
        let value = (self.value >> (pos as u64)) as u32;
        let neg = value > split && value - split <= 0x8000_0000;
        (
            RangeCoder {
                bits: (pos - 1) as i32,
                range: (if neg {
                    ((self.range - 1) as u32) | 1u32
                } else {
                    self.range | 1u32
                }),
                value: (if neg {
                    (self.value - (((split + 1) as u64) << (pos as u64))) as u64
                } else {
                    self.value
                }),
                ..self
            },
            (if neg {
                -v
            } else {
                v as int
            }) as i32,
        )
    }

    proof fn lemma_prep(self, buf: Seq<u8>)
        requires
            self.wf(),
            self.end <= buf.len(),
        ensures
            self.prep(buf).wf(),
            0 <= self.prep(buf).bits <= 55,
            self.prep(buf).end == self.end,
            self.prep(buf).range == self.range,
    {
    }

    proof fn lemma_prob_step(self, prob: u8)
        requires
            self.wf(),
            0 <= self.bits,
        ensures
            self.prob_step(prob).0.wf(),
            self.prob_step(prob).0.end == self.end,
            self.prob_step(prob).0.eof == self.eof,
            self.prob_step(prob).0.pos == self.pos,
            self.prob_step(prob).1 <= 1,
    {
        lemma_split_below(self.range, prob);
        let split = ((self.range * (prob as u32)) as u32) >> 8u32;
        let value = (self.value >> (self.bits as u64)) as u32;
        let r1 = (if value > split {
            self.range - split
        } else {
            split + 1
        }) as u32;
        lemma_norm(r1);
        if value > split {
            lemma_no_underflow(self.value, self.bits, split);
        }
    }

    /// Nothing to prime: the 64-bit form fills its window on first use.
    pub fn prime(&mut self, buf: &[u8])
        ensures
            *final(self) == *old(self),
    {
    }

    /// A coder about to decode the `size` bytes from `start` on.
    pub closed spec fn started(start: usize, size: usize) -> RangeCoder {
        RangeCoder {
            value: 0,
            range: 254,
            bits: -8i32,
            pos: start,
            end: (start + size) as usize,
            buf_max: (if size >= 8 { start + size - 7 } else { start as int }) as usize,
            eof: false,
        }
    }

    /// Starts decoding at `start`, over the `size` bytes that follow it.
    pub fn new(start: usize, size: usize) -> (r: Self)
        requires
            start + size <= usize::MAX,
        ensures
            r == RangeCoder::started(start, size),
            r.wf(),
            r.spec_end() == start + size,
            r.spec_pos() == start,
            !r.spec_eof(),
    {
        RangeCoder {
            value: 0,
            range: 255 - 1,
            bits: -8,
            pos: start,
            end: start + size,
            buf_max: if size >= 8 {
                start + size - 7
            } else {
                start
            },
            eof: false,
        }
    }

    /// Grows the window this coder may read, after a streaming append made
    /// more of the same chunk available.
    pub fn extend(&mut self, end: usize)
        requires
            old(self).wf(),
            end >= old(self).spec_pos(),
        ensures
            final(self).wf(),
            final(self).spec_end() == end,
            final(self).spec_pos() == old(self).spec_pos(),
            final(self).spec_eof() == old(self).spec_eof(),
    {
        self.end = end;
        self.buf_max = if end - self.pos >= 8 {
            end - 7
        } else {
            self.pos
        };
    }

    pub fn end(&self) -> (r: usize)
        ensures
            r == self.spec_end(),
    {
        self.end
    }

    pub fn overran(&self) -> (r: bool)
        ensures
            r == self.spec_eof(),
    {
        self.eof
    }

    fn load_final_bytes(&mut self, buf: &[u8])
        requires
            old(self).wf(),
            old(self).bits < 0,
            old(self).end <= buf.len(),
        ensures
            *final(self) == old(self).load_final_spec(buf@),
    {
        if self.pos < self.end {
            self.value = (self.value << 8u64) | (buf[self.pos] as u64);
            self.pos = self.pos + 1;
            self.bits = self.bits + 8;
        } else if !self.eof {
            self.value = self.value << 8u64;
            self.bits = self.bits + 8;
            self.eof = true;
        } else {
            self.bits = 0;
        }
    }

    fn refill(&mut self, buf: &[u8])
        requires
            old(self).wf(),
            old(self).bits < 0,
            old(self).end <= buf.len(),
        ensures
            *final(self) == old(self).refill_spec(buf@),
    {
        if self.pos < self.buf_max {
            let p = self.pos;
            let word = ((buf[p] as u64) << 56u64) | ((buf[p + 1] as u64) << 48u64) | ((buf[p + 2] as u64) << 40u64) | ((
            buf[p + 3] as u64) << 32u64) | ((buf[p + 4] as u64) << 24u64) | ((buf[p + 5] as u64) << 16u64) | ((buf[p
                + 6] as u64) << 8u64) | (buf[p + 7] as u64);
            self.value = (self.value << 56u64) | (word >> 8u64);
            self.pos = self.pos + 7;
            self.bits = self.bits + 56;
        } else {
            self.load_final_bytes(buf);
        }
    }

    /// Decodes one bit whose probability of being zero is `prob` out of 256.
    pub fn get_prob(&mut self, buf: &[u8], prob: u8) -> (r: u32)
        requires
            old(self).wf(),
            old(self).spec_end() <= buf.len(),
        ensures
            (*final(self), r) == old(self).got_prob(buf@, prob),
            final(self).wf(),
            final(self).spec_end() == old(self).spec_end(),
            r <= 1,
    {
        proof {
            self.lemma_prep(buf@);
            self.prep(buf@).lemma_prob_step(prob);
        }
        let mut range = self.range;
        if self.bits < 0 {
            self.refill(buf);
        }
        let pos = self.bits;
        proof {
            assert(127 <= range <= 255);
            lemma_split_below(range, prob);
            assert(range * (prob as u32) <= 255 * 255) by (nonlinear_arith)
                requires
                    range <= 255,
                    prob <= 255,
            ;
        }
        let split = (range * prob as u32) >> 8u32;
        let value = (self.value >> pos as u64) as u32;
        let bit: u32 = if value > split {
            1
        } else {
            0
        };
        if bit != 0 {
            range = range - split;
            proof {
                lemma_no_underflow(self.value, pos, split);
            }
            self.value = self.value - (((split + 1) as u64) << pos as u64);
        } else {
            range = split + 1;
        }
        proof {
            lemma_norm(range);
        }
        let shift = 7 ^ (31 ^ range.leading_zeros() as i32);
        range = range << shift as u32;
        self.bits = self.bits - shift;
        self.range = range - 1;
        bit
    }

    /// [`Self::get_prob`] where the caller branches on the result.
    pub fn get_prob_branchy(&mut self, buf: &[u8], prob: u8) -> (r: bool)
        requires
            old(self).wf(),
            old(self).spec_end() <= buf.len(),
        ensures
            *final(self) == old(self).got_prob(buf@, prob).0,
            r == (old(self).got_prob(buf@, prob).1 == 1),
            old(self).got_prob(buf@, prob).1 <= 1,
            final(self).wf(),
            final(self).spec_end() == old(self).spec_end(),
    {
        proof {
            self.lemma_prep(buf@);
            self.prep(buf@).lemma_prob_step(prob);
        }
        let range = self.range;
        if self.bits < 0 {
            self.refill(buf);
        }
        let pos = self.bits;
        proof {
            assert(127 <= range <= 255);
            lemma_split_below(range, prob);
            assert(range * (prob as u32) <= 255 * 255) by (nonlinear_arith)
                requires
                    range <= 255,
                    prob <= 255,
            ;
        }
        let split = (range * prob as u32) >> 8u32;
        let value = (self.value >> pos as u64) as u32;
        if value > split {
            proof {
                lemma_norm((range - split) as u32);
                lemma_no_underflow(self.value, pos, split);
            }
            let shift = 7 ^ (31 ^ (range - split).leading_zeros() as i32);
            self.value = self.value - (((split + 1) as u64) << pos as u64);
            self.range = ((range - split) << shift as u32) - 1;
            self.bits = pos - shift;
            true
        } else {
            proof {
                lemma_norm((split + 1) as u32);
            }
            let shift = 7 ^ (31 ^ (split + 1).leading_zeros() as i32);
            self.range = ((split + 1) << shift as u32) - 1;
            self.bits = pos - shift;
            false
        }
    }

    /// Reads one equiprobable bit and applies it as the sign of `v`.
    pub fn get_signed(&mut self, buf: &[u8], v: i32) -> (r: i32)
        requires
            old(self).wf(),
            old(self).spec_end() <= buf.len(),
            v > i32::MIN,
        ensures
            (*final(self), r) == old(self).prep(buf@).signed_step(v),
            final(self).wf(),
            final(self).spec_end() == old(self).spec_end(),
    {
        proof {
            self.lemma_prep(buf@);
        }
        if self.bits < 0 {
            self.refill(buf);
        }
        let pos = self.bits;
        let split = self.range >> 1u32;
        proof {
            let rg = self.range;
            assert(rg <= 255 ==> rg >> 1u32 <= 127) by (bit_vector);
        }
        let value = (self.value >> pos as u64) as u32;
        let mask = ((split.wrapping_sub(value)) as i32) >> 31u32;
        proof {
            let w = split.wrapping_sub(value);
            assert(split <= 127);
            assert(w == (if split >= value { split - value } else { split - value + 0x1_0000_0000 }));
            assert(split <= 127 && w == (if split >= value { (split - value) as u32 } else { (split - value + 0x1_0000_0000) as u32 })
                ==> ((w as i32) >> 31u32 != 0i32 <==> (value > split && value - split <= 0x8000_0000))) by (bit_vector);
            let rg = self.range;
            assert(127 <= rg <= 255 ==> 127 <= ((rg - 1) as u32) | 1u32 <= 255 && 127 <= rg | 1u32 <= 255) by (bit_vector);
        }
        let neg = mask != 0;
        self.bits = self.bits - 1;
        if neg {
            proof {
                lemma_no_underflow(self.value, pos, split);
            }
            self.range = (self.range - 1) | 1u32;
            self.value = self.value - (((split + 1) as u64) << pos as u64);
            -v
        } else {
            self.range = self.range | 1u32;
            v
        }
    }
}


/// `v` shifted up by one with `b` as its new low bit, on 32 bits.
pub open spec fn push_bit(v: i32, b: u32) -> i32 {
    (2 * v + b) as i32
}

proof fn lemma_push_bit(v: i32, b: u32)
    requires
        b <= 1,
    ensures
        (v << 1u32) | (b as i32) == push_bit(v, b),
        (v << 1u32) as int + (b as int) <= i32::MAX,
        ((v << 1u32) + (b as i32)) as i32 == push_bit(v, b),
{
    assert(b <= 1 ==> (v << 1u32) | (b as i32) == ((2 * v + b) as i32) && (v << 1u32) + (b as i32) <= i32::MAX && ((
    v << 1u32) + (b as i32)) as i32 == ((2 * v + b) as i32)) by (bit_vector);
}

/// The coder after `n` equiprobable bits, and the bits read most
/// significant first.
pub open spec fn uint_fold(c: RangeCoder, buf: Seq<u8>, n: nat) -> (RangeCoder, i32)
    decreases n,
{
    if n == 0 {
        (c, 0i32)
    } else {
        let (c1, v) = uint_fold(c, buf, (n - 1) as nat);
        let (c2, b) = c1.got_prob(buf, 128);
        (c2, push_bit(v, b))
    }
}

/// The coder and leaf after walking `tree` from node `i`: each node is a
/// `[left, right]` pair taken by a bit of its own probability, and an entry
/// that is not positive is a leaf, numbered by its negation.
pub open spec fn tree_walk(c: RangeCoder, buf: Seq<u8>, tree: Seq<[i8; 2]>, probs: Seq<u8>, i: int) -> (RangeCoder, usize)
    decreases tree.len() - i,
{
    let (c1, bit) = c.got_prob(buf, probs[i]);
    let next = tree[i]@[bit as int] as int;
    if next <= 0 {
        (c1, (-next) as usize)
    } else if i < next < tree.len() {
        tree_walk(c1, buf, tree, probs, next)
    } else {
        (c1, 0)
    }
}

/// Every branch of `tree` leads further down it, and every node has its
/// probability.
pub open spec fn tree_ok(tree: Seq<[i8; 2]>, probs: Seq<u8>) -> bool {
    &&& 1 <= tree.len() <= probs.len()
    &&& forall|i: int, b: int|
        0 <= i < tree.len() && 0 <= b < 2 && #[trigger] tree[i]@[b] > 0 ==> i < tree[i]@[b] < tree.len()
}

/// The coder and value after reading a bit for each probability of `probs`
/// from `i` on, up to the first zero.
pub open spec fn coeff_fold(c: RangeCoder, buf: Seq<u8>, probs: Seq<u8>, i: int, v: i32) -> (RangeCoder, i32)
    decreases probs.len() - i,
{
    if i >= probs.len() || i < 0 || probs[i] == 0 {
        (c, v)
    } else {
        let (c1, b) = c.got_prob(buf, probs[i]);
        coeff_fold(c1, buf, probs, i + 1, push_bit(v, b))
    }
}

proof fn lemma_uint_fold_wf(c: RangeCoder, buf: Seq<u8>, n: nat)
    requires
        c.wf(),
        c.spec_end() <= buf.len(),
    ensures
        uint_fold(c, buf, n).0.wf(),
        uint_fold(c, buf, n).0.spec_end() == c.spec_end(),
        n <= 31 ==> 0 <= uint_fold(c, buf, n).1 < vstd::arithmetic::power2::pow2(n),
    decreases n,
{
    if n > 0 {
        lemma_uint_fold_wf(c, buf, (n - 1) as nat);
        let c1 = uint_fold(c, buf, (n - 1) as nat).0;
        c1.lemma_prep(buf);
        c1.prep(buf).lemma_prob_step(128);
        vstd::arithmetic::power2::lemma_pow2_unfold(n);
        vstd::arithmetic::power2::lemma2_to64();
        if n < 31 {
            vstd::arithmetic::power2::lemma_pow2_strictly_increases(n, 31);
        }
        if n <= 31 {
            let v = uint_fold(c, buf, (n - 1) as nat).1;
            let b = c1.got_prob(buf, 128).1;
            assert(0 <= 2 * v + b < vstd::arithmetic::power2::pow2(n));
            assert(push_bit(v, b) == 2 * v + b);
        }
    } else {
        vstd::arithmetic::power2::lemma2_to64();
    }
}

impl RangeCoder {
    /// Starts a coder over `buf[start..start + size]`, doing whatever priming
    /// the underlying form needs.
    pub fn start(buf: &[u8], start: usize, size: usize) -> (r: Self)
        requires
            start + size <= usize::MAX,
        ensures
            r == RangeCoder::started(start, size),
            r.wf(),
            r.spec_end() == start + size,
            r.spec_pos() == start,
            !r.spec_eof(),
    {
        let mut c = Self::new(start, size);
        c.prime(buf);
        c
    }

    /// One equiprobable bit.
    pub fn get(&mut self, buf: &[u8]) -> (r: u32)
        requires
            old(self).wf(),
            old(self).spec_end() <= buf.len(),
        ensures
            (*final(self), r) == old(self).got_prob(buf@, 128),
            final(self).wf(),
            final(self).spec_end() == old(self).spec_end(),
            r <= 1,
    {
        self.get_prob(buf, 128)
    }

    /// `bits` equiprobable bits, most significant first.
    pub fn get_uint(&mut self, buf: &[u8], bits: u32) -> (r: i32)
        requires
            old(self).wf(),
            old(self).spec_end() <= buf.len(),
        ensures
            (*final(self), r) == uint_fold(*old(self), buf@, bits as nat),
            final(self).wf(),
            final(self).spec_end() == old(self).spec_end(),
            bits <= 31 ==> 0 <= r < vstd::arithmetic::power2::pow2(bits as nat),
    {
        proof {
            lemma_uint_fold_wf(*self, buf@, bits as nat);
        }
        let mut value: i32 = 0;
        let mut k: u32 = 0;
        while k < bits
            invariant
                k <= bits,
                old(self).wf(),
                (*self, value) == uint_fold(*old(self), buf@, k as nat),
                self.wf(),
                self.spec_end() == old(self).spec_end(),
                old(self).spec_end() <= buf.len(),
            decreases bits - k,
        {
            proof {
                lemma_uint_fold_wf(*old(self), buf@, (k + 1) as nat);
            }
            let b = self.get(buf);
            proof {
                lemma_push_bit(value, b);
            }
            value = (value << 1u32) | (b as i32);
            k = k + 1;
        }
        value
    }

    /// A sign-and-magnitude value: a flag, then `bits` of magnitude, then the
    /// sign; zero when the flag is clear.
    pub fn get_sint(&mut self, buf: &[u8], bits: u32) -> (r: i32)
        requires
            old(self).wf(),
            old(self).spec_end() <= buf.len(),
            bits <= 31,
        ensures
            ({
                let (c1, f) = old(self).got_prob(buf@, 128);
                if f == 0 {
                    *final(self) == c1 && r == 0
                } else {
                    let (c2, v) = uint_fold(c1, buf@, bits as nat);
                    let (c3, s) = c2.got_prob(buf@, 128);
                    *final(self) == c3 && r == (if s != 0 { -v } else { v as int })
                }
            }),
            -vstd::arithmetic::power2::pow2(bits as nat) < r < vstd::arithmetic::power2::pow2(bits as nat),
            final(self).wf(),
            final(self).spec_end() == old(self).spec_end(),
    {
        proof {
            vstd::arithmetic::power2::lemma_pow2_pos(bits as nat);
        }
        if self.get(buf) == 0 {
            return 0;
        }
        let v = self.get_uint(buf, bits);
        proof {
            vstd::arithmetic::power2::lemma2_to64();
            if bits < 31 {
                vstd::arithmetic::power2::lemma_pow2_strictly_increases(bits as nat, 31);
            }
        }
        if self.get(buf) != 0 {
            -v
        } else {
            v
        }
    }

    /// Walks a binary tree whose nodes are `[left, right]` pairs, entries that
    /// are not positive being leaves.
    pub fn get_tree(&mut self, buf: &[u8], tree: &[[i8; 2]], probs: &[u8]) -> (r: usize)
        requires
            old(self).wf(),
            old(self).spec_end() <= buf.len(),
            tree_ok(tree@, probs@),
        ensures
            (*final(self), r) == tree_walk(*old(self), buf@, tree@, probs@, 0),
            final(self).wf(),
            final(self).spec_end() == old(self).spec_end(),
    {
        let mut i: usize = 0;
        loop
            invariant
                i < tree@.len(),
                tree_ok(tree@, probs@),
                tree_walk(*self, buf@, tree@, probs@, i as int) == tree_walk(*old(self), buf@, tree@, probs@, 0),
                self.wf(),
                self.spec_end() == old(self).spec_end(),
                old(self).spec_end() <= buf.len(),
            decreases tree@.len() - i,
        {
            let node = tree[i];
            let bit = self.get_prob(buf, probs[i]);
            let next = node[bit as usize] as i32;
            if next <= 0 {
                return (-next) as usize;
            }
            proof {
                assert(tree@[i as int]@[bit as int] > 0);
            }
            i = next as usize;
        }
    }

    /// A coefficient's extra bits: one per non-zero probability, up to the
    /// first zero.
    pub fn get_coeff(&mut self, buf: &[u8], probs: &[u8]) -> (r: i32)
        requires
            old(self).wf(),
            old(self).spec_end() <= buf.len(),
        ensures
            (*final(self), r) == coeff_fold(*old(self), buf@, probs@, 0, 0),
            final(self).wf(),
            final(self).spec_end() == old(self).spec_end(),
    {
        let mut v: i32 = 0;
        let mut i: usize = 0;
        while i < probs.len()
            invariant
                i <= probs@.len(),
                coeff_fold(*self, buf@, probs@, i as int, v) == coeff_fold(*old(self), buf@, probs@, 0, 0),
                self.wf(),
                self.spec_end() == old(self).spec_end(),
                old(self).spec_end() <= buf.len(),
            decreases probs@.len() - i,
        {
            let p = probs[i];
            if p == 0 {
                return v;
            }
            let b = self.get_prob(buf, p);
            proof {
                lemma_push_bit(v, b);
            }
            v = (v << 1u32) + (b as i32);
            i = i + 1;
        }
        v
    }
}

} // verus!
