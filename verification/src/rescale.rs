//! The row-at-a-time area rescaler, in 32.32 fixed point.
//!
//! The arithmetic is unsigned and deliberately wrapping in several places, so
//! every such operation is spelled out as wrapping, and the contracts state
//! the results modulo 2^32.

use vstd::prelude::*;

verus! {

/// 2^32, one in 32.32 fixed point.
pub open spec fn one() -> int {
    0x1_0000_0000
}

/// `x * y` in 32.32 fixed point, rounded.
pub open spec fn mult_fix_of(x: int, y: int) -> int {
    (x * y + 0x8000_0000) / one()
}

/// `x * y` in 32.32 fixed point, rounded down.
pub open spec fn mult_fix_floor_of(x: int, y: int) -> int {
    (x * y) / one()
}

/// `v` saturated to a byte.
pub open spec fn clip8_of(v: int) -> u8 {
    if v > 255 {
        255u8
    } else {
        v as u8
    }
}

/// `x / y` in 32.32 fixed point, kept to 32 bits.
pub open spec fn frac_of(x: int, y: int) -> u32 {
    ((x * one()) / y) as u32
}

proof fn lemma_mult_fix_fits(x: u32, y: u32)
    ensures
        0 <= x * y <= 0xffff_fffe_0000_0001,
        (x * y + 0x8000_0000) / one() <= 0xffff_ffff,
        (x * y) / one() <= 0xffff_ffff,
{
    assert(0 <= x * y <= 0xffff_ffff * 0xffff_ffff) by (nonlinear_arith)
        requires
            x <= 0xffff_ffff,
            y <= 0xffff_ffff,
    ;
}

fn mult_fix(x: u32, y: u32) -> (r: u32)
    ensures
        r as int == mult_fix_of(x as int, y as int),
{
    proof {
        lemma_mult_fix_fits(x, y);
    }
    ((x as u64 * y as u64 + 0x8000_0000) / 0x1_0000_0000) as u32
}

fn mult_fix_floor(x: u32, y: u32) -> (r: u32)
    ensures
        r as int == mult_fix_floor_of(x as int, y as int),
{
    proof {
        lemma_mult_fix_fits(x, y);
    }
    ((x as u64 * y as u64) / 0x1_0000_0000) as u32
}

/// `x / y` in 32.32 fixed point.
pub fn frac(x: u32, y: u32) -> (r: u32)
    requires
        y != 0,
    ensures
        r == frac_of(x as int, y as int),
{
    (((x as u64) * 0x1_0000_0000) / (y as u64)) as u32
}

/// What the importers need from the rescaler state.
#[derive(Clone, Copy)]
pub struct Import {
    pub num_channels: usize,
    pub src_width: usize,
    pub dst_width: usize,
    pub x_add: u32,
    pub x_sub: u32,
    pub fx_scale: u32,
}

/// What the exporters need from it.
#[derive(Clone, Copy)]
pub struct Export {
    pub y_accum: i32,
    pub y_sub: u32,
    pub fy_scale: u32,
    pub fxy_scale: u32,
}

/// `-y` as the 32-bit unsigned value it wraps to.
fn neg_u32(y: i32) -> (r: u32)
    requires
        y > i32::MIN,
    ensures
        r as int == (-y) % one(),
{
    if y <= 0 {
        (-y) as u32
    } else {
        (0x1_0000_0000u64 - y as u64) as u32
    }
}

fn clip8(v: u32) -> (r: u8)
    ensures
        r == clip8_of(v as int),
{
    if v > 255 {
        255
    } else {
        v as u8
    }
}

pub open spec fn min2(a: int, b: int) -> int {
    if a < b {
        a
    } else {
        b
    }
}

/// The credit and the number of source steps taken after `k` outputs of an
/// expanding import: each output pays `x_sub`, and when the credit goes
/// negative the source moves one sample on and `x_add` is paid back in.
pub open spec fn expand_acc(p: Import, k: int) -> (int, int)
    decreases k,
{
    if k <= 0 {
        (p.x_add as int, 0)
    } else {
        let prev = expand_acc(p, k - 1);
        let a = prev.0 - p.x_sub;
        if a < 0 {
            (a + p.x_add, prev.1 + 1)
        } else {
            (a, prev.1)
        }
    }
}

/// How many source samples per channel an expanding import reads.
pub open spec fn expand_reads(p: Import) -> int {
    let steps = expand_acc(p, p.dst_width - 1).1;
    if steps == 0 && p.src_width <= 1 {
        1
    } else {
        steps + 2
    }
}

/// Channel `c` of an expanding import at output `k`: the left and right
/// source samples it lies between (the right one `steps + 1` samples in).
pub open spec fn expand_pair(src: Seq<u8>, s: int, c: int, p: Import, k: int) -> (u32, u32)
    decreases k,
{
    if k <= 0 {
        (src[c] as u32, if p.src_width > 1 { src[c + s] as u32 } else { src[c] as u32 })
    } else {
        let prev = expand_pair(src, s, c, p, k - 1);
        if expand_acc(p, k - 1).0 - p.x_sub < 0 {
            (prev.1, src[c + s * (expand_acc(p, k).1 + 1)] as u32)
        } else {
            prev
        }
    }
}

/// Output `k` of channel `c` of an expanding import: the two source samples
/// weighted by the credit.
pub open spec fn expand_out(src: Seq<u8>, s: int, c: int, p: Import, k: int) -> u32 {
    let (l, r) = expand_pair(src, s, c, p, k);
    r.wrapping_mul(p.x_add).wrapping_add(l.wrapping_sub(r).wrapping_mul(expand_acc(p, k).0 as u32))
}

proof fn lemma_expand_acc(p: Import, k: int)
    requires
        0 <= k,
        p.x_sub <= p.x_add <= i32::MAX,
    ensures
        0 <= expand_acc(p, k).0 <= p.x_add,
        0 <= expand_acc(p, k).1 <= k,
    decreases k,
{
    if k > 0 {
        lemma_expand_acc(p, k - 1);
    }
}

proof fn lemma_expand_steps_mono(p: Import, k: int, m: int)
    requires
        0 <= k <= m,
    ensures
        expand_acc(p, k).1 <= expand_acc(p, m).1,
    decreases m - k,
{
    if k < m {
        lemma_expand_steps_mono(p, k, m - 1);
    }
}

/// Widens one source row into `frow`. Channel `c` of output sample `k` lands
/// at `c + num_channels * k`.
pub fn import_row_expand(frow: &mut [u32], src: &[u8], p: Import)
    requires
        p.x_sub <= p.x_add <= i32::MAX,
        p.num_channels > 0 ==> p.dst_width >= 1,
        p.dst_width * p.num_channels <= old(frow).len(),
        p.num_channels * expand_reads(p) <= src.len(),
        src.len() + p.num_channels <= usize::MAX,
        p.dst_width * p.num_channels + p.num_channels <= usize::MAX,
    ensures
        final(frow)@.len() == old(frow)@.len(),
        forall|c: int, k: int|
            0 <= c < p.num_channels && 0 <= k < p.dst_width ==> #[trigger] final(frow)@[c + p.num_channels * k]
                == expand_out(src@, p.num_channels as int, c, p, k),
        forall|i: int| p.dst_width * p.num_channels <= i < old(frow)@.len() ==> #[trigger] final(frow)@[i] == old(frow)@[i],
{
    let stride = p.num_channels;
    let x_out_max = p.dst_width * stride;
    let ghost s = stride as int;
    let ghost d = p.dst_width as int;
    let mut channel: usize = 0;
    proof {
        if stride > 0 {
            lemma_expand_acc(p, d - 1);
        }
    }
    while channel < stride
        invariant
            channel <= stride,
            s == stride,
            stride == p.num_channels,
            d == p.dst_width,
            x_out_max == p.dst_width * stride,
            p.x_sub <= p.x_add <= i32::MAX,
            stride > 0 ==> d >= 1,
            x_out_max <= frow.len() == old(frow).len(),
            stride * expand_reads(p) <= src.len(),
            src.len() + stride <= usize::MAX,
            x_out_max + stride <= usize::MAX,
            forall|cc: int, kk: int|
                0 <= cc < channel && 0 <= kk < p.dst_width ==> #[trigger] frow@[cc + stride * kk] == expand_out(src@, s, cc, p, kk),
            forall|i: int| x_out_max <= i < old(frow)@.len() ==> #[trigger] frow@[i] == old(frow)@[i],
        decreases stride - channel,
    {
        let ghost c = channel as int;
        let ghost row0 = frow@;
        let ghost total = expand_acc(p, d - 1).1;
        proof {
            lemma_expand_acc(p, d - 1);
            assert(c + s * 0 < s * expand_reads(p)) by (nonlinear_arith)
                requires
                    0 <= c < s,
                    expand_reads(p) >= 1,
            ;
        }
        let mut x_in = channel;
        let mut x_out = channel;
        let mut accum: i32 = p.x_add as i32;
        let mut leftv = src[x_in] as u32;
        let mut right = if p.src_width > 1 {
            proof {
                assert(c + s * 1 < s * expand_reads(p)) by (nonlinear_arith)
                    requires
                        0 <= c < s,
                        expand_reads(p) >= 2,
                ;
            }
            src[x_in + stride] as u32
        } else {
            leftv
        };
        x_in = x_in + stride;
        let ghost mut k: int = 0;
        assert(x_out == c + s * 0);
        assert(c < x_out_max) by (nonlinear_arith)
            requires
                0 <= c < s,
                d >= 1,
                x_out_max == d * s,
        ;
        let ghost pre0 = frow@;
        frow[x_out] = right.wrapping_mul(p.x_add).wrapping_add(leftv.wrapping_sub(right).wrapping_mul(accum as u32));
        x_out = x_out + stride;
        proof {
            lemma_residue(c, s, 0);
            k = 1;
        }
        while x_out < x_out_max
            invariant
                channel < stride,
                0 <= c < s,
                c == channel,
                s == stride,
                stride == p.num_channels,
                d == p.dst_width,
                x_out_max == p.dst_width * stride,
                p.x_sub <= p.x_add <= i32::MAX,
                x_out_max <= frow.len() == old(frow).len(),
                row0.len() == frow.len(),
                stride * expand_reads(p) <= src.len(),
                total == expand_acc(p, d - 1).1,
                src.len() + stride <= usize::MAX,
                x_out_max + stride <= usize::MAX,
                forall|cc: int, kk: int|
                    0 <= cc < channel && 0 <= kk < p.dst_width ==> #[trigger] row0[cc + stride * kk] == expand_out(src@, s, cc, p, kk),
                1 <= k <= d,
                x_out == c + s * k,
                x_in == c + s * (expand_acc(p, k - 1).1 + 1),
                accum == expand_acc(p, k - 1).0,
                (leftv, right) == expand_pair(src@, s, c, p, k - 1),
                forall|kk: int| 0 <= kk < k ==> #[trigger] frow@[c + stride * kk] == expand_out(src@, s, c, p, kk),
                forall|i: int| 0 <= i < frow.len() && (i >= x_out || i % s != c || i >= x_out_max) ==> #[trigger] frow@[i] == row0[i],
            decreases d - k,
        {
            assert(k < d) by (nonlinear_arith)
                requires
                    x_out == c + s * k,
                    x_out < x_out_max,
                    x_out_max == d * s,
                    0 <= c < s,
            ;
            proof {
                lemma_expand_acc(p, k - 1);
                lemma_expand_acc(p, k);
            }
            accum = accum - p.x_sub as i32;
            if accum < 0 {
                proof {
                    lemma_expand_steps_mono(p, k, d - 1);
                    assert(c + s * (expand_acc(p, k).1 + 1) < s * expand_reads(p)) by (nonlinear_arith)
                        requires
                            0 <= c < s,
                            expand_acc(p, k).1 + 2 <= expand_reads(p),
                    ;
                }
                leftv = right;
                assert(x_in + s == c + s * (expand_acc(p, k).1 + 1)) by (nonlinear_arith)
                    requires
                        x_in == c + s * (expand_acc(p, k - 1).1 + 1),
                        expand_acc(p, k).1 == expand_acc(p, k - 1).1 + 1,
                ;
                x_in = x_in + stride;
                right = src[x_in] as u32;
                accum = accum + p.x_add as i32;
            }
            let ghost at = x_out as int;
            frow[x_out] = right.wrapping_mul(p.x_add).wrapping_add(leftv.wrapping_sub(right).wrapping_mul(accum as u32));
            x_out = x_out + stride;
            proof {
                assert forall|kk: int| 0 <= kk < k implies #[trigger] (stride * kk) < at - c by {
                    assert(stride * kk < stride * k) by (nonlinear_arith)
                        requires
                            0 <= kk < k,
                            stride >= 1,
                    ;
                }
                lemma_residue(c, s, k);
                k = k + 1;
                assert(x_out == c + s * k) by (nonlinear_arith)
                    requires
                        x_out == c + s * (k - 1) + s,
                ;
            }
        }
        assert(k == p.dst_width) by (nonlinear_arith)
            requires
                x_out == c + s * k,
                x_out >= x_out_max,
                x_out_max == p.dst_width * s,
                0 <= c < s,
                k <= p.dst_width,
        ;
        proof {
            assert forall|cc: int, kk: int|
                0 <= cc < channel + 1 && 0 <= kk < p.dst_width implies #[trigger] frow@[cc + stride * kk] == expand_out(src@, s, cc, p, kk) by {
                if cc < channel {
                    lemma_residue(cc, s, kk);
                    assert(cc + stride * kk < x_out_max) by (nonlinear_arith)
                        requires
                            0 <= cc < stride,
                            0 <= kk < p.dst_width,
                            x_out_max == p.dst_width * stride,
                    ;
                }
            }
        }
        channel = channel + 1;
    }
}

/// The inner step of a shrinking import: while credit is left, take the next
/// source sample (the `r`-th of channel `c`) into the sum, and pay `xs` for it.
/// Gives the samples taken so far, the credit, the sum and the last sample.
pub open spec fn shrink_take(src: Seq<u8>, s: int, c: int, xs: int, r: int, a: int, sum: u32, base: u32) -> (int, int, u32, u32)
    decreases (if a > 0 { a } else { 0 }),
{
    if a <= 0 || xs <= 0 {
        (r, a, sum, base)
    } else {
        let b = src[c + s * r] as u32;
        shrink_take(src, s, c, xs, r + 1, a - xs, sum.wrapping_add(b), b)
    }
}

/// Channel `c` of a shrinking import after `k` output samples: how many source
/// samples were taken, the credit left (never positive), the part of the last
/// source sample carried into the next output, and output sample `k - 1`.
pub open spec fn shrink_walk(src: Seq<u8>, s: int, c: int, p: Import, k: int) -> (int, int, u32, u32)
    decreases k,
{
    if k <= 0 {
        (0, 0, 0u32, 0u32)
    } else {
        let prev = shrink_walk(src, s, c, p, k - 1);
        let t = shrink_take(src, s, c, p.x_sub as int, prev.0, prev.1 + p.x_add, prev.2, 0u32);
        let fract = t.3.wrapping_mul((-t.1) as u32);
        (t.0, t.1, mult_fix_of(fract as int, p.fx_scale as int) as u32, t.2.wrapping_mul(p.x_sub).wrapping_sub(fract))
    }
}

/// How many source samples per channel a shrinking import reads: the credit
/// of `dst_width` outputs, `x_add` each, paid off `x_sub` at a time.
pub open spec fn shrink_reads(p: Import) -> int {
    (p.dst_width * p.x_add + p.x_sub - 1) / (p.x_sub as int)
}

proof fn lemma_shrink_read_fits(r: int, k: int, d: int, xa: int, xs: int, s: int, c: int)
    requires
        xs >= 1,
        xa >= 0,
        0 <= r,
        0 <= k < d,
        r * xs < (k + 1) * xa,
        0 <= c < s,
    ensures
        c + s * r < s * ((d * xa + xs - 1) / xs),
        c + s * (r + 1) < s * ((d * xa + xs - 1) / xs) + s,
{
    assert((k + 1) * xa <= d * xa) by (nonlinear_arith)
        requires
            k + 1 <= d,
            xa >= 0,
    ;
    let q = (d * xa + xs - 1) / xs;
    assert((r + 1) * xs == r * xs + xs) by (nonlinear_arith);
    assert(r + 1 <= q) by (nonlinear_arith)
        requires
            (r + 1) * xs <= d * xa + xs - 1,
            xs >= 1,
            q == (d * xa + xs - 1) / xs,
    {
        vstd::arithmetic::div_mod::lemma_fundamental_div_mod(d * xa + xs - 1, xs);
    }
    assert(c + s * r < s * q) by (nonlinear_arith)
        requires
            r + 1 <= q,
            0 <= c < s,
    ;
    assert(c + s * (r + 1) < s * q + s) by (nonlinear_arith)
        requires
            c + s * r < s * q,
    ;
}

proof fn lemma_residue(c: int, s: int, k: int)
    requires
        0 <= c < s,
        0 <= k,
    ensures
        (c + s * k) % s == c,
{
    vstd::arithmetic::div_mod::lemma_mod_multiples_vanish(k, c, s);
    vstd::arithmetic::div_mod::lemma_small_mod(c as nat, s as nat);
    assert(s * k + c == c + s * k);
}

/// Narrows one source row into `frow`, accumulating the fractional tail.
/// Channel `c` of output sample `k` lands at `c + num_channels * k`.
pub fn import_row_shrink(frow: &mut [u32], src: &[u8], p: Import)
    requires
        1 <= p.x_sub <= i32::MAX,
        p.x_add <= i32::MAX,
        p.dst_width * p.num_channels <= old(frow).len(),
        p.num_channels * shrink_reads(p) <= src.len(),
        src.len() + p.num_channels <= usize::MAX,
        p.dst_width * p.num_channels + p.num_channels <= usize::MAX,
    ensures
        final(frow)@.len() == old(frow)@.len(),
        forall|c: int, k: int|
            0 <= c < p.num_channels && 0 <= k < p.dst_width ==> #[trigger] final(frow)@[c + p.num_channels * k]
                == shrink_walk(src@, p.num_channels as int, c, p, k + 1).3,
        forall|i: int| p.dst_width * p.num_channels <= i < old(frow)@.len() ==> #[trigger] final(frow)@[i] == old(frow)@[i],
{
    let stride = p.num_channels;
    let x_out_max = p.dst_width * stride;
    let ghost s = stride as int;
    let ghost xs = p.x_sub as int;
    let ghost xa = p.x_add as int;
    let mut channel: usize = 0;
    while channel < stride
        invariant
            channel <= stride,
            s == stride,
            stride == p.num_channels,
            xs == p.x_sub as int,
            xa == p.x_add as int,
            x_out_max == p.dst_width * stride,
            1 <= p.x_sub <= i32::MAX,
            p.x_add <= i32::MAX,
            x_out_max <= frow.len() == old(frow).len(),
            stride * shrink_reads(p) <= src.len(),
            src.len() + stride <= usize::MAX,
            x_out_max + stride <= usize::MAX,
            forall|cc: int, kk: int|
                0 <= cc < channel && 0 <= kk < p.dst_width ==> #[trigger] frow@[cc + stride * kk] == shrink_walk(src@, s, cc, p, kk + 1).3,
            forall|i: int| x_out_max <= i < old(frow)@.len() ==> #[trigger] frow@[i] == old(frow)@[i],
        decreases stride - channel,
    {
        let mut x_in = channel;
        let mut x_out = channel;
        let mut sum: u32 = 0;
        let mut accum: i32 = 0;
        let ghost mut r: int = 0;
        let ghost mut k: int = 0;
        let ghost c = channel as int;
        let ghost row0 = frow@;
        assert(x_out == c + s * 0);
        while x_out < x_out_max
            invariant
                channel < stride,
                c == channel,
                s == stride,
                stride == p.num_channels,
                x_out_max == p.dst_width * stride,
                xs == p.x_sub as int,
                xa == p.x_add as int,
                1 <= p.x_sub <= i32::MAX,
                p.x_add <= i32::MAX,
                x_out_max <= frow.len() == old(frow).len(),
                row0.len() == frow.len(),
                stride * shrink_reads(p) <= src.len(),
                src.len() + stride <= usize::MAX,
                x_out_max + stride <= usize::MAX,
                forall|cc: int, kk: int|
                    0 <= cc < channel && 0 <= kk < p.dst_width ==> #[trigger] row0[cc + stride * kk] == shrink_walk(src@, s, cc, p, kk + 1).3,
                0 <= k <= p.dst_width,
                x_out == c + s * k,
                x_in == c + s * r,
                0 <= r,
                accum as int == k * xa - r * xs,
                -xs < accum <= 0,
                r == shrink_walk(src@, s, c, p, k).0,
                accum == shrink_walk(src@, s, c, p, k).1,
                sum == shrink_walk(src@, s, c, p, k).2,
                forall|kk: int| 0 <= kk < k ==> #[trigger] frow@[c + stride * kk] == shrink_walk(src@, s, c, p, kk + 1).3,
                forall|i: int| 0 <= i < frow.len() && (i >= x_out || i % s != c || i >= x_out_max) ==> #[trigger] frow@[i] == row0[i],
            decreases p.dst_width - k,
        {
            assert(k < p.dst_width) by (nonlinear_arith)
                requires
                    x_out == c + s * k,
                    x_out < x_out_max,
                    x_out_max == p.dst_width * s,
                    0 <= c,
            ;
            let mut base: u32 = 0;
            let ghost a0 = accum + p.x_add;
            let ghost r0 = r;
            let ghost sum0 = sum;
            accum = accum + p.x_add as i32;
            assert(accum as int == (k + 1) * xa - r * xs) by (nonlinear_arith)
                requires
                    accum as int == k * xa - r * xs + xa,
            ;
            while accum > 0
                invariant
                    channel < stride,
                    0 <= c < s,
                    s == stride,
                    stride == p.num_channels,
                    1 <= p.x_sub <= i32::MAX,
                    xs == p.x_sub as int,
                    xa == p.x_add as int,
                    stride * shrink_reads(p) <= src.len(),
                    src.len() + stride <= usize::MAX,
                    0 <= k < p.dst_width,
                    x_in == c + s * r,
                    0 <= r0 <= r,
                    accum as int == (k + 1) * xa - r * xs,
                    -xs < accum,
                    accum <= a0,
                    shrink_take(src@, s, c, xs, r, accum as int, sum, base) == shrink_take(src@, s, c, xs, r0, a0, sum0, 0u32),
                decreases accum as int + xs,
            {
                proof {
                    lemma_shrink_read_fits(r, k, p.dst_width as int, xa, xs, s, c);
                }
                accum = accum - p.x_sub as i32;
                base = src[x_in] as u32;
                sum = sum.wrapping_add(base);
                x_in = x_in + stride;
                proof {
                    r = r + 1;
                    assert(x_in == c + s * r) by (nonlinear_arith)
                        requires
                            x_in == c + s * (r - 1) + s,
                    ;
                    assert(accum as int == (k + 1) * xa - r * xs) by (nonlinear_arith)
                        requires
                            accum as int == (k + 1) * xa - (r - 1) * xs - xs,
                    ;
                }
            }
            let fract = base.wrapping_mul((-accum) as u32);
            let ghost pre = frow@;
            let ghost at = x_out as int;
            let ghost t = shrink_take(src@, s, c, xs, r0, a0, sum0, 0u32);
            assert(t == (r, accum as int, sum, base));
            assert(shrink_walk(src@, s, c, p, k + 1).3 == sum.wrapping_mul(p.x_sub).wrapping_sub(fract));
            frow[x_out] = sum.wrapping_mul(p.x_sub).wrapping_sub(fract);
            sum = mult_fix(fract, p.fx_scale);
            x_out = x_out + stride;
            proof {
                assert forall|kk: int| 0 <= kk < k implies #[trigger] (stride * kk) < at - c by {
                    assert(stride * kk < stride * k) by (nonlinear_arith)
                        requires
                            0 <= kk < k,
                            stride >= 1,
                    ;
                }
                lemma_residue(c, s, k);
                k = k + 1;
                assert(x_out == c + s * k) by (nonlinear_arith)
                    requires
                        x_out == c + s * (k - 1) + s,
                ;
                assert(accum as int == k * xa - r * xs) by (nonlinear_arith)
                    requires
                        accum as int == (k - 1 + 1) * xa - r * xs,
                ;
            }
        }
        assert(k == p.dst_width) by (nonlinear_arith)
            requires
                x_out == c + s * k,
                x_out >= x_out_max,
                x_out_max == p.dst_width * s,
                0 <= c < s,
                k <= p.dst_width,
        ;
        proof {
            assert forall|cc: int, kk: int|
                0 <= cc < channel + 1 && 0 <= kk < p.dst_width implies #[trigger] frow@[cc + stride * kk] == shrink_walk(src@, s, cc, p, kk + 1).3 by {
                if cc < channel {
                    lemma_residue(cc, s, kk);
                    assert(cc + stride * kk < x_out_max) by (nonlinear_arith)
                        requires
                            0 <= cc < stride,
                            0 <= kk < p.dst_width,
                            x_out_max == p.dst_width * stride,
                    ;
                    assert(cc + stride * kk < frow.len());
                }
            }
        }
        channel = channel + 1;
    }
}

/// Adds the just-imported row into the accumulator, for the shrinking case,
/// over the length the two rows share.
pub fn accumulate(irow: &mut [u32], frow: &[u32])
    ensures
        final(irow)@.len() == old(irow)@.len(),
        forall|i: int|
            0 <= i < old(irow)@.len() ==> #[trigger] final(irow)@[i] == if i < frow@.len() {
                ((old(irow)@[i] + frow@[i]) % one()) as u32
            } else {
                old(irow)@[i]
            },
{
    let n = if irow.len() < frow.len() {
        irow.len()
    } else {
        frow.len()
    };
    let mut i: usize = 0;
    while i < n
        invariant
            n as int == min2(old(irow)@.len() as int, frow@.len() as int),
            irow@.len() == old(irow)@.len(),
            i <= n,
            forall|k: int|
                0 <= k < old(irow)@.len() ==> #[trigger] irow@[k] == if k < i {
                    ((old(irow)@[k] + frow@[k]) % one()) as u32
                } else {
                    old(irow)@[k]
                },
        decreases n - i,
    {
        irow[i] = irow[i].wrapping_add(frow[i]);
        i = i + 1;
    }
}

/// Sample `i` of an expanding export: the row in `frow` weighted against the
/// one in `irow` by how far the output row lies between them, then scaled.
pub open spec fn expand_sample(f: u32, i: u32, p: Export) -> u8 {
    if p.y_accum == 0 {
        clip8_of(mult_fix_of(f as int, p.fy_scale as int))
    } else {
        let b = frac_of((-p.y_accum) % one(), p.y_sub as int) as int;
        let a = (one() - b) % one();
        let j = (a * f + b * i + 0x8000_0000) / one();
        clip8_of(mult_fix_of(j, p.fy_scale as int))
    }
}

/// Emits one output row, interpolating between the two buffered rows.
pub fn export_row_expand(dst: &mut [u8], irow: &[u32], frow: &[u32], p: Export)
    requires
        p.y_accum != 0 ==> p.y_sub != 0 && p.y_accum > i32::MIN,
    ensures
        final(dst)@.len() == old(dst)@.len(),
        forall|k: int|
            0 <= k < old(dst)@.len() ==> #[trigger] final(dst)@[k] == if k < frow@.len() && (p.y_accum == 0 || k
                < irow@.len()) {
                expand_sample(frow@[k], if p.y_accum == 0 { 0 } else { irow@[k] }, p)
            } else {
                old(dst)@[k]
            },
{
    if p.y_accum == 0 {
        let n = if dst.len() < frow.len() {
            dst.len()
        } else {
            frow.len()
        };
        let mut k: usize = 0;
        while k < n
            invariant
                p.y_accum == 0,
                n as int == min2(old(dst)@.len() as int, frow@.len() as int),
                dst@.len() == old(dst)@.len(),
                k <= n,
                forall|m: int|
                    0 <= m < old(dst)@.len() ==> #[trigger] dst@[m] == if m < k {
                        expand_sample(frow@[m], 0, p)
                    } else {
                        old(dst)@[m]
                    },
            decreases n - k,
        {
            dst[k] = clip8(mult_fix(frow[k], p.fy_scale));
            k = k + 1;
        }
        return ;
    }
    let b = frac(neg_u32(p.y_accum), p.y_sub);
    let a = 0u32.wrapping_sub(b);
    let mut n = if dst.len() < frow.len() {
        dst.len()
    } else {
        frow.len()
    };
    if irow.len() < n {
        n = irow.len();
    }
    let mut k: usize = 0;
    while k < n
        invariant
            p.y_accum != 0,
            p.y_sub != 0,
            p.y_accum > i32::MIN,
            b == frac_of((-p.y_accum) % one(), p.y_sub as int),
            a as int == (one() - b) % one(),
            n as int == min2(min2(old(dst)@.len() as int, frow@.len() as int), irow@.len() as int),
            dst@.len() == old(dst)@.len(),
            k <= n,
            forall|m: int|
                0 <= m < old(dst)@.len() ==> #[trigger] dst@[m] == if m < k {
                    expand_sample(frow@[m], irow@[m], p)
                } else {
                    old(dst)@[m]
                },
        decreases n - k,
    {
        let f = frow[k];
        let i = irow[k];
        proof {
            assert(a * f + b * i <= 0xffff_ffff * 0x1_0000_0000) by (nonlinear_arith)
                requires
                    a + b <= 0x1_0000_0000,
                    f <= 0xffff_ffff,
                    i <= 0xffff_ffff,
                    a >= 0,
                    b >= 0,
            ;
            assert(a * f >= 0 && b * i >= 0) by (nonlinear_arith)
                requires
                    a >= 0,
                    b >= 0,
                    f >= 0,
                    i >= 0,
            ;
        }
        let acc = a as u64 * f as u64 + b as u64 * i as u64;
        let j = ((acc + 0x8000_0000) / 0x1_0000_0000) as u32;
        dst[k] = clip8(mult_fix(j, p.fy_scale));
        k = k + 1;
    }
}

/// What an output sample and the carried accumulator become when a shrinking
/// export emits a row: the fractional part of `frow` that belongs to the next
/// row stays behind.
pub open spec fn shrink_yscale(p: Export) -> u32 {
    ((p.fy_scale as int * ((-p.y_accum) % one())) % one()) as u32
}

pub open spec fn shrink_sample(i: u32, f: u32, p: Export) -> (u8, u32) {
    let yscale = shrink_yscale(p);
    if yscale != 0 {
        let fract = mult_fix_floor_of(f as int, yscale as int);
        (clip8_of(mult_fix_of((i - fract) % one(), p.fxy_scale as int)), fract as u32)
    } else {
        (clip8_of(mult_fix_of(i as int, p.fxy_scale as int)), 0u32)
    }
}

/// Emits one output row, leaving the part of the accumulator that belongs to
/// the next one behind in `irow`.
pub fn export_row_shrink(dst: &mut [u8], irow: &mut [u32], frow: &[u32], p: Export)
    requires
        p.y_accum > i32::MIN,
    ensures
        final(dst)@.len() == old(dst)@.len(),
        final(irow)@.len() == old(irow)@.len(),
        ({
            let n = if shrink_yscale(p) != 0 {
                min2(min2(old(dst)@.len() as int, old(irow)@.len() as int), frow@.len() as int)
            } else {
                min2(old(dst)@.len() as int, old(irow)@.len() as int)
            };
            &&& forall|k: int|
                0 <= k < old(dst)@.len() ==> #[trigger] final(dst)@[k] == if k < n {
                    shrink_sample(old(irow)@[k], frow@[k], p).0
                } else {
                    old(dst)@[k]
                }
            &&& forall|k: int|
                0 <= k < old(irow)@.len() ==> #[trigger] final(irow)@[k] == if k < n {
                    shrink_sample(old(irow)@[k], frow@[k], p).1
                } else {
                    old(irow)@[k]
                }
        }),
{
    let neg = neg_u32(p.y_accum);
    let yscale = p.fy_scale.wrapping_mul(neg);
    let mut n = if dst.len() < irow.len() {
        dst.len()
    } else {
        irow.len()
    };
    if yscale != 0 && frow.len() < n {
        n = frow.len();
    }
    let mut k: usize = 0;
    while k < n
        invariant
            yscale == shrink_yscale(p),
            n as int == (if yscale != 0 {
                min2(min2(old(dst)@.len() as int, old(irow)@.len() as int), frow@.len() as int)
            } else {
                min2(old(dst)@.len() as int, old(irow)@.len() as int)
            }),
            dst@.len() == old(dst)@.len(),
            irow@.len() == old(irow)@.len(),
            k <= n,
            forall|m: int|
                0 <= m < old(dst)@.len() ==> #[trigger] dst@[m] == if m < k {
                    shrink_sample(old(irow)@[m], frow@[m], p).0
                } else {
                    old(dst)@[m]
                },
            forall|m: int|
                0 <= m < old(irow)@.len() ==> #[trigger] irow@[m] == if m < k {
                    shrink_sample(old(irow)@[m], frow@[m], p).1
                } else {
                    old(irow)@[m]
                },
        decreases n - k,
    {
        let i = irow[k];
        if yscale != 0 {
            let fract = mult_fix_floor(frow[k], yscale);
            dst[k] = clip8(mult_fix(i.wrapping_sub(fract), p.fxy_scale));
            irow[k] = fract;
        } else {
            dst[k] = clip8(mult_fix(i, p.fxy_scale));
            irow[k] = 0;
        }
        k = k + 1;
    }
}

/// The degenerate case where the ratio does not fit in 32.32: `src_width == 1`
/// with `dst_width <= 2`. Each accumulator's low byte is the output, and the
/// accumulator is cleared.
pub fn export_row_direct(dst: &mut [u8], irow: &mut [u32])
    ensures
        final(dst)@.len() == old(dst)@.len(),
        final(irow)@.len() == old(irow)@.len(),
        forall|k: int|
            0 <= k < old(dst)@.len() ==> #[trigger] final(dst)@[k] == if k < old(irow)@.len() {
                old(irow)@[k] as u8
            } else {
                old(dst)@[k]
            },
        forall|k: int|
            0 <= k < old(irow)@.len() ==> #[trigger] final(irow)@[k] == if k < old(dst)@.len() {
                0
            } else {
                old(irow)@[k]
            },
{
    let n = if dst.len() < irow.len() {
        dst.len()
    } else {
        irow.len()
    };
    let mut k: usize = 0;
    while k < n
        invariant
            n as int == min2(old(dst)@.len() as int, old(irow)@.len() as int),
            dst@.len() == old(dst)@.len(),
            irow@.len() == old(irow)@.len(),
            k <= n,
            forall|m: int|
                0 <= m < old(dst)@.len() ==> #[trigger] dst@[m] == if m < k {
                    old(irow)@[m] as u8
                } else {
                    old(dst)@[m]
                },
            forall|m: int|
                0 <= m < old(irow)@.len() ==> #[trigger] irow@[m] == if m < k {
                    0
                } else {
                    old(irow)@[m]
                },
        decreases n - k,
    {
        dst[k] = irow[k] as u8;
        irow[k] = 0;
        k = k + 1;
    }
}

/// `x` scaled by `scale`, a 8.24 fixed-point factor, rounded; the product
/// wraps at 32 bits.
pub open spec fn alpha_mult_of(x: int, scale: int) -> u8 {
    ((((x * scale) % one() + 0x80_0000) % one()) / 0x100_0000) as u8
}

/// The factor that multiplies alpha `a` in, or divides it out.
pub open spec fn alpha_scale_of(a: int, inverse: bool) -> int {
    if inverse {
        (255 * 0x100_0000int) / a
    } else {
        a * (0x100_0000int / 255)
    }
}

/// A colour sample with alpha `a` multiplied in, or divided out.
pub open spec fn premultiplied(v: u8, a: u8, inverse: bool) -> u8 {
    if a == 255 {
        v
    } else if a == 0 {
        0
    } else {
        alpha_mult_of(v as int, alpha_scale_of(a as int, inverse))
    }
}

/// A row of ARGB pixels with alpha multiplied in, or divided out: each whole
/// pixel's colour bytes by its own alpha byte, the alpha bytes and a trailing
/// partial pixel left as they are.
pub open spec fn premultiplied_row(row: Seq<u8>, inverse: bool) -> Seq<u8> {
    Seq::new(
        row.len(),
        |k: int|
            if k % 4 == 0 || k >= row.len() / 4 * 4 {
                row[k]
            } else {
                premultiplied(row[k], row[k - k % 4], inverse)
            },
    )
}

/// Every whole pixel of the row is opaque.
pub open spec fn opaque_row(row: Seq<u8>) -> bool {
    forall|k: int| 0 <= k < row.len() / 4 * 4 && k % 4 == 0 ==> #[trigger] row[k] == 255
}

/// Multiplying alpha into a row of opaque pixels and dividing it out again
/// gives the row back.
pub proof fn law_opaque_pixels_round_trip(row: Seq<u8>)
    requires
        opaque_row(row),
    ensures
        premultiplied_row(premultiplied_row(row, false), true) == row,
{
    let mid = premultiplied_row(row, false);
    assert forall|k: int| 0 <= k < row.len() implies #[trigger] premultiplied_row(mid, true)[k] == row[k] by {
        if k % 4 != 0 && k < row.len() / 4 * 4 {
            assert(row[k - k % 4] == 255);
            assert(mid[k - k % 4] == row[k - k % 4]);
        }
    }
    assert(premultiplied_row(mid, true) =~= row);
}

/// Multiplying alpha into a transparent pixel clears its colour.
pub proof fn law_transparent_pixels_lose_their_colour(row: Seq<u8>, k: int)
    requires
        0 <= k < row.len() / 4 * 4,
        k % 4 != 0,
        row[k - k % 4] == 0,
    ensures
        premultiplied_row(row, false)[k] == 0,
{
}

fn alpha_mult(x: u8, scale: u32) -> (r: u8)
    ensures
        r == alpha_mult_of(x as int, scale as int),
{
    ((x as u32).wrapping_mul(scale).wrapping_add(0x80_0000) / 0x100_0000) as u8
}

fn alpha_scale(a: u8, inverse: bool) -> (r: u32)
    requires
        inverse ==> a != 0,
    ensures
        r as int == alpha_scale_of(a as int, inverse),
{
    if inverse {
        (255 * 0x100_0000) / a as u32
    } else {
        assert(0x100_0000int / 255 == 65793);
        a as u32 * 65793
    }
}

/// Multiplies alpha into an ARGB row, or divides it back out. Each whole
/// pixel of four bytes, alpha first, is done on its own; a trailing partial
/// pixel is left alone.
pub fn premultiply_argb_row(argb: &mut [u8], inverse: bool)
    ensures
        final(argb)@ == premultiplied_row(old(argb)@, inverse),
        final(argb)@.len() == old(argb)@.len(),
        forall|k: int|
            0 <= k < old(argb)@.len() ==> #[trigger] final(argb)@[k] == if k % 4 == 0 || k >= old(argb)@.len() / 4 * 4 {
                old(argb)@[k]
            } else {
                premultiplied(old(argb)@[k], old(argb)@[k - k % 4], inverse)
            },
{
    let n = argb.len() / 4;
    let mut px: usize = 0;
    while px < n
        invariant
            n == old(argb)@.len() / 4,
            n * 4 <= argb.len(),
            argb@.len() == old(argb)@.len(),
            px <= n,
            forall|k: int|
                0 <= k < old(argb)@.len() ==> #[trigger] argb@[k] == if k % 4 == 0 || k >= px * 4 {
                    old(argb)@[k]
                } else {
                    premultiplied(old(argb)@[k], old(argb)@[k - k % 4], inverse)
                },
        decreases n - px,
    {
        let at = px * 4;
        let a = argb[at];
        if a == 0 {
            argb[at + 1] = 0;
            argb[at + 2] = 0;
            argb[at + 3] = 0;
        } else if a != 0xff {
            let scale = alpha_scale(a, inverse);
            argb[at + 1] = alpha_mult(argb[at + 1], scale);
            argb[at + 2] = alpha_mult(argb[at + 2], scale);
            argb[at + 3] = alpha_mult(argb[at + 3], scale);
        }
        proof {
            assert forall|k: int| 0 <= k < old(argb)@.len() implies #[trigger] argb@[k] == if k % 4 == 0 || k >= (
            px + 1) * 4 {
                old(argb)@[k]
            } else {
                premultiplied(old(argb)@[k], old(argb)@[k - k % 4], inverse)
            } by {
                if at <= k < at + 4 {
                    assert(k - k % 4 == at);
                }
            }
        }
        px = px + 1;
    }
}

/// The same against a separate alpha plane, over the length the two share.
pub fn multiply_row(plane: &mut [u8], alpha: &[u8], inverse: bool)
    ensures
        final(plane)@.len() == old(plane)@.len(),
        forall|k: int|
            0 <= k < old(plane)@.len() ==> #[trigger] final(plane)@[k] == if k < alpha@.len() {
                premultiplied(old(plane)@[k], alpha@[k], inverse)
            } else {
                old(plane)@[k]
            },
{
    let n = if plane.len() < alpha.len() {
        plane.len()
    } else {
        alpha.len()
    };
    let mut k: usize = 0;
    while k < n
        invariant
            n as int == min2(old(plane)@.len() as int, alpha@.len() as int),
            plane@.len() == old(plane)@.len(),
            k <= n,
            forall|m: int|
                0 <= m < old(plane)@.len() ==> #[trigger] plane@[m] == if m < k {
                    premultiplied(old(plane)@[m], alpha@[m], inverse)
                } else {
                    old(plane)@[m]
                },
        decreases n - k,
    {
        let a = alpha[k];
        if a != 255 {
            plane[k] = if a != 0 {
                alpha_mult(plane[k], alpha_scale(a, inverse))
            } else {
                0
            };
        }
        k = k + 1;
    }
}

} // verus!
