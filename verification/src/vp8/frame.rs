//! The per-frame state a VP8 frame header sets up: segmentation, the loop
//! filter and its deltas, and the coefficient partitions; and the loop-filter
//! strength each macroblock gets from it.

use vstd::prelude::*;
use vstd::arithmetic::power2::pow2;
use crate::error::{Error, Result, Status};
use crate::bits::{le, rl16, rl24};
use super::rac::{RangeCoder, uint_fold};
use crate::dsp::vp8::{along, across, loop_filtered_at, loop_filter_at, strides};

verus! {

/// How hard one macroblock's edges are filtered.
#[derive(Clone, Copy, PartialEq, Eq, Debug, Structural)]
pub struct FilterStrength {
    pub filter_level: u8,
    pub inner_limit: u8,
    pub inner_filter: bool,
}

/// What the filter strength needs of a macroblock: whether it has no
/// coefficients, and whether it is predicted in 4x4 sub-blocks.
#[derive(Clone, Copy, PartialEq, Eq, Debug, Structural)]
pub struct Macroblock {
    pub skip: bool,
    pub intra4x4: bool,
}

/// The frame's segmentation: whether it is on, whether the per-segment values
/// replace the frame's or adjust them, and the values.
#[derive(Clone, Copy, Debug)]
pub struct Segmentation {
    pub enabled: bool,
    pub absolute_vals: bool,
    pub update_map: bool,
    pub base_quant: [i8; 4],
    pub filter_level: [i8; 4],
}

/// The frame's loop filter.
#[derive(Clone, Copy, PartialEq, Eq, Debug, Structural)]
pub struct Filter {
    pub simple: bool,
    pub level: u8,
    pub sharpness: u8,
}

/// The loop-filter adjustments for intra frames and for 4x4 prediction.
#[derive(Clone, Copy, PartialEq, Eq, Debug, Structural)]
pub struct LfDelta {
    pub enabled: bool,
    pub ref_intra: i32,
    pub mode_i4: i32,
}

/// `v` clamped to the `p`-bit unsigned range.
pub open spec fn clip_uintp2_of(v: int, p: nat) -> int {
    if v < 0 {
        0
    } else if v >= pow2(p) {
        pow2(p) - 1
    } else {
        v
    }
}

pub(crate) fn clip_uintp2(v: i32, p: u32) -> (r: i32)
    requires
        p <= 30,
    ensures
        r == clip_uintp2_of(v as int, p as nat),
{
    proof {
        vstd::bits::lemma_u32_pow2_no_overflow(p as nat);
        vstd::bits::lemma_u32_shl_is_mul(1, p);
        vstd::arithmetic::power2::lemma_pow2_pos(p as nat);
        if p < 30 {
            vstd::arithmetic::power2::lemma_pow2_strictly_increases(p as nat, 30);
        }
        vstd::arithmetic::power2::lemma2_to64();
    }
    let top = (1u32 << p) as i32;
    if v < 0 {
        0
    } else if v >= top {
        top - 1
    } else {
        v
    }
}

/// The filter level of a macroblock in `segment`, before clamping: the
/// segment's own level (or the frame's adjusted by it), then the deltas.
pub open spec fn raw_filter_level(seg: Segmentation, segment: int, filter: Filter, lf: LfDelta, mb: Macroblock) -> int {
    let base = if seg.enabled {
        let l = seg.filter_level[segment] as int;
        if seg.absolute_vals { l } else { l + filter.level }
    } else {
        filter.level as int
    };
    if lf.enabled {
        base + lf.ref_intra + if mb.intra4x4 { lf.mode_i4 as int } else { 0int }
    } else {
        base
    }
}

/// How a macroblock's edges are filtered: the level clamped to six bits; the
/// interior limit lowered by the sharpness and kept at least one; the inner
/// edges filtered unless the macroblock has no coefficients and is not
/// predicted in sub-blocks.
pub open spec fn filter_strength(seg: Segmentation, segment: int, filter: Filter, lf: LfDelta, mb: Macroblock) -> FilterStrength {
    let level = clip_uintp2_of(raw_filter_level(seg, segment, filter, lf, mb), 6);
    let sharp = filter.sharpness as int;
    let lowered = if sharp != 0 {
        let shifted = level / pow2(((sharp + 3) / 4) as nat) as int;
        if shifted < 9 - sharp { shifted } else { 9 - sharp }
    } else {
        level
    };
    let limit = if lowered < 1 { 1 } else { lowered };
    FilterStrength { filter_level: level as u8, inner_limit: limit as u8, inner_filter: !mb.skip || mb.intra4x4 }
}

/// How a macroblock's edges are filtered.
pub fn filter_level_for_mb(seg: &Segmentation, segment: usize, filter: &Filter, lf: &LfDelta, mb: &Macroblock) -> (r: FilterStrength)
    requires
        segment < 4,
        filter.sharpness <= 124,
        -0x2000_0000 <= lf.ref_intra <= 0x2000_0000,
        -0x2000_0000 <= lf.mode_i4 <= 0x2000_0000,
    ensures
        r == filter_strength(*seg, segment as int, *filter, *lf, *mb),
{
    let mut filter_level: i32 = if seg.enabled {
        let level = seg.filter_level[segment] as i32;
        if seg.absolute_vals {
            level
        } else {
            level + filter.level as i32
        }
    } else {
        filter.level as i32
    };
    if lf.enabled {
        filter_level = filter_level + lf.ref_intra;
        if mb.intra4x4 {
            filter_level = filter_level + lf.mode_i4;
        }
    }
    let filter_level = clip_uintp2(filter_level, 6);
    proof {
        vstd::arithmetic::power2::lemma2_to64();
    }
    let mut interior_limit = filter_level;
    if filter.sharpness != 0 {
        let s3 = (filter.sharpness as u32) + 3;
        let sh = s3 >> 2;
        proof {
            vstd::bits::lemma_u32_shr_is_div(s3, 2);
            vstd::bits::lemma_u32_pow2_no_overflow(sh as nat);
            assert(sh < 32);
        }
        let d = (1u32 << sh) as i32;
        proof {
            vstd::bits::lemma_u32_shl_is_mul(1, sh);
            vstd::arithmetic::power2::lemma_pow2_pos(sh as nat);
            if sh < 31 {
                vstd::arithmetic::power2::lemma_pow2_strictly_increases(sh as nat, 31);
            }
        }
        interior_limit = if d > 0 { interior_limit / d } else { 0 };
        let cap = 9 - filter.sharpness as i32;
        if interior_limit > cap {
            interior_limit = cap;
        }
    }
    if interior_limit < 1 {
        interior_limit = 1;
    }
    FilterStrength {
        filter_level: filter_level as u8,
        inner_limit: interior_limit as u8,
        inner_filter: !mb.skip || mb.intra4x4,
    }
}

/// A signed value of `bits` magnitude bits as the coder reads it: a flag,
/// then the magnitude and its sign when the flag is set, else zero.
pub open spec fn sint_step(c: RangeCoder, buf: Seq<u8>, bits: nat) -> (RangeCoder, i32) {
    let (c1, f) = c.got_prob(buf, 128);
    if f == 0 {
        (c1, 0i32)
    } else {
        let (c2, v) = uint_fold(c1, buf, bits);
        let (c3, s) = c2.got_prob(buf, 128);
        (c3, if s != 0 { (-v) as i32 } else { v })
    }
}

/// `n` signed values of `bits` bits in a row.
pub open spec fn sints(c: RangeCoder, buf: Seq<u8>, bits: nat, n: nat) -> (RangeCoder, Seq<i32>)
    decreases n,
{
    if n == 0 {
        (c, Seq::empty())
    } else {
        let (c1, s) = sints(c, buf, bits, (n - 1) as nat);
        let (c2, v) = sint_step(c1, buf, bits);
        (c2, s.push(v))
    }
}

/// `n` segment-map probabilities: each an eight-bit value behind a flag, or
/// 255 without one.
pub open spec fn map_probs(c: RangeCoder, buf: Seq<u8>, n: nat) -> (RangeCoder, Seq<u8>)
    decreases n,
{
    if n == 0 {
        (c, Seq::empty())
    } else {
        let (c1, s) = map_probs(c, buf, (n - 1) as nat);
        let (c2, f) = c1.got_prob(buf, 128);
        if f != 0 {
            let (c3, v) = uint_fold(c2, buf, 8);
            (c3, s.push(v as u8))
        } else {
            (c2, s.push(255u8))
        }
    }
}

fn read_sints(c: &mut RangeCoder, buf: &[u8], bits: u32, out: &mut [i8; 4])
    requires
        old(c).wf(),
        old(c).spec_end() <= buf.len(),
        1 <= bits <= 7,
    ensures
        final(c).wf(),
        final(c).spec_end() == old(c).spec_end(),
        ({
            let (c1, s) = sints(*old(c), buf@, bits as nat, 4);
            &&& *final(c) == c1
            &&& forall|i: int| 0 <= i < 4 ==> #[trigger] final(out)@[i] == s[i] as i8
        }),
{
    let ghost c0 = *c;
    let mut i: usize = 0;
    while i < 4
        invariant
            i <= 4,
            c.wf(),
            c.spec_end() == c0.spec_end(),
            c.spec_end() <= buf.len(),
            1 <= bits <= 7,
            *c == sints(c0, buf@, bits as nat, i as nat).0,
            sints(c0, buf@, bits as nat, i as nat).1.len() == i,
            forall|k: int| 0 <= k < i ==> #[trigger] out@[k] == sints(c0, buf@, bits as nat, i as nat).1[k] as i8,
        decreases 4 - i,
    {
        let ghost before = out@;
        let v = c.get_sint(buf, bits);
        out[i] = v as i8;
        i += 1;
        proof {
            let prev = sints(c0, buf@, bits as nat, (i - 1) as nat);
            assert(sints(c0, buf@, bits as nat, i as nat) == (sint_step(prev.0, buf@, bits as nat).0, prev.1.push(sint_step(prev.0, buf@, bits as nat).1)));
        }
    }
}

/// Reads the segmentation header: whether the map is updated, and, when the
/// segment values are, whether they are absolute and the four quantiser and
/// four filter-level values; then, for an updated map, its three
/// probabilities.
/// The coder after the segment header: the update-map flag, the
/// update-data flag, and where they are set the data and the map
/// probabilities.
pub open spec fn segment_info_coder(c: RangeCoder, buf: Seq<u8>) -> RangeCoder {
    let (c1, u) = c.got_prob(buf, 128);
    let (c2, f) = c1.got_prob(buf, 128);
    let (c3, a) = c2.got_prob(buf, 128);
    let (c4, q) = sints(c3, buf, 7, 4);
    let (c5, l) = sints(c4, buf, 6, 4);
    let ce = if f != 0 { c5 } else { c2 };
    let (c6, pr) = map_probs(ce, buf, 3);
    if u != 0 { c6 } else { ce }
}

/// What the segment header read from `c` makes of a segmentation (on or off
/// as `enabled0`, with the mode `abs0`, the base indices `base0` and the
/// filter levels `lvl0`) and of the map probabilities `mp0`: `s1` and `mp1`.
pub open spec fn segment_info_read(
    c: RangeCoder,
    buf: Seq<u8>,
    enabled0: bool,
    abs0: bool,
    base0: Seq<i8>,
    lvl0: Seq<i8>,
    mp0: Seq<u8>,
    s1: Segmentation,
    mp1: [u8; 3],
) -> bool {
    let (c1, u) = c.got_prob(buf, 128);
    let (c2, f) = c1.got_prob(buf, 128);
    let (c3, a) = c2.got_prob(buf, 128);
    let (c4, q) = sints(c3, buf, 7, 4);
    let (c5, l) = sints(c4, buf, 6, 4);
    let ce = if f != 0 { c5 } else { c2 };
    let (c6, pr) = map_probs(ce, buf, 3);
    &&& s1.update_map == (u != 0)
    &&& s1.enabled == enabled0
    &&& s1.absolute_vals == if f != 0 { a != 0 } else { abs0 }
    &&& forall|i: int| 0 <= i < 4 ==> #[trigger] s1.base_quant@[i] == if f != 0 { q[i] as i8 } else { base0[i] }
    &&& forall|i: int| 0 <= i < 4 ==> #[trigger] s1.filter_level@[i] == if f != 0 { l[i] as i8 } else { lvl0[i] }
    &&& forall|i: int| 0 <= i < 3 ==> #[trigger] mp1@[i] == if u != 0 { pr[i] } else { mp0[i] }
}

pub fn parse_segment_info(c: &mut RangeCoder, buf: &[u8], seg: &mut Segmentation, map_prob: &mut [u8; 3])
    requires
        old(c).wf(),
        old(c).spec_end() <= buf.len(),
    ensures
        final(c).wf(),
        final(c).spec_end() == old(c).spec_end(),
        *final(c) == segment_info_coder(*old(c), buf@),
        segment_info_read(
            *old(c), buf@, old(seg).enabled, old(seg).absolute_vals, old(seg).base_quant@, old(seg).filter_level@,
            old(map_prob)@, *final(seg), *final(map_prob),
        ),
{
    seg.update_map = c.get(buf) != 0;
    if c.get(buf) != 0 {
        seg.absolute_vals = c.get(buf) != 0;
        read_sints(c, buf, 7, &mut seg.base_quant);
        read_sints(c, buf, 6, &mut seg.filter_level);
    }
    if seg.update_map {
        let ghost c0 = *c;
        let mut i: usize = 0;
        while i < 3
            invariant
                i <= 3,
                c.wf(),
                c.spec_end() == c0.spec_end(),
                c.spec_end() <= buf.len(),
                *c == map_probs(c0, buf@, i as nat).0,
                map_probs(c0, buf@, i as nat).1.len() == i,
                forall|k: int| 0 <= k < i ==> #[trigger] map_prob@[k] == map_probs(c0, buf@, i as nat).1[k],
            decreases 3 - i,
        {
            let p = if c.get(buf) != 0 {
                proof {
                    vstd::arithmetic::power2::lemma2_to64();
                }
                c.get_uint(buf, 8) as u8
            } else {
                255
            };
            map_prob[i] = p;
            i += 1;
        }
    }
}

/// The filter deltas after the entries from `i` on: each of the eight is a
/// flag and, when set, a six-bit magnitude and a sign; only the first (intra
/// frames) and the fifth (4x4 prediction) are kept.
pub open spec fn lf_deltas(c: RangeCoder, buf: Seq<u8>, i: int, ref_intra: i32, mode_i4: i32) -> (RangeCoder, i32, i32)
    decreases 8 - i,
{
    if i >= 8 {
        (c, ref_intra, mode_i4)
    } else {
        let (c1, f) = c.got_prob(buf, 128);
        if f != 0 {
            let (c2, d) = uint_fold(c1, buf, 6);
            let (c3, s) = c2.got_prob(buf, 128);
            let delta = if s != 0 { (-d) as i32 } else { d };
            lf_deltas(c3, buf, i + 1, if i == 0 { delta } else { ref_intra }, if i == 4 { delta } else { mode_i4 })
        } else {
            lf_deltas(c1, buf, i + 1, ref_intra, mode_i4)
        }
    }
}

/// Reads the eight coded filter deltas, even though key frames apply only
/// two.
pub fn update_lf_deltas(c: &mut RangeCoder, buf: &[u8], lf: &mut LfDelta)
    requires
        old(c).wf(),
        old(c).spec_end() <= buf.len(),
    ensures
        final(c).wf(),
        final(c).spec_end() == old(c).spec_end(),
        (*final(c), final(lf).ref_intra, final(lf).mode_i4) == lf_deltas(*old(c), buf@, 0, old(lf).ref_intra, old(lf).mode_i4),
        final(lf).enabled == old(lf).enabled,
{
    let ghost target = lf_deltas(*c, buf@, 0, lf.ref_intra, lf.mode_i4);
    let mut i: usize = 0;
    while i < 8
        invariant
            i <= 8,
            c.wf(),
            c.spec_end() == old(c).spec_end(),
            c.spec_end() <= buf.len(),
            lf.enabled == old(lf).enabled,
            lf_deltas(*c, buf@, i as int, lf.ref_intra, lf.mode_i4) == target,
        decreases 8 - i,
    {
        if c.get(buf) != 0 {
            proof {
                vstd::arithmetic::power2::lemma2_to64();
            }
            let mut delta = c.get_uint(buf, 6);
            if c.get(buf) != 0 {
                delta = -delta;
            }
            if i == 0 {
                lf.ref_intra = delta;
            } else if i == 4 {
                lf.mode_i4 = delta;
            }
        }
        i += 1;
    }
}

/// The coefficient partitions of a frame: how many, where each starts and how
/// long it is, which have a coder opened over them, and which of those are
/// still short of their bytes.
#[derive(Clone, Copy)]
pub struct Partitions {
    pub num: usize,
    pub start: [usize; 8],
    pub size: [usize; 8],
    pub ready: u32,
    pub clamped: u32,
    pub coder: [RangeCoder; 8],
}

/// `a - b`, or zero where `b` is the larger.
pub open spec fn sat_sub(a: int, b: int) -> int {
    if a >= b { a - b } else { 0 }
}

/// Where partition `i` starts: past the table of sizes (`sl` bytes at
/// `table`) and the partitions before it, each as long as its three-byte
/// size says.
pub open spec fn part_off(buf: Seq<u8>, table: int, sl: int, i: int) -> int
    decreases i,
{
    if i <= 0 {
        table + sl
    } else {
        part_off(buf, table, sl, i - 1) + le(buf, table + 3 * (i - 1), 3)
    }
}

proof fn lemma_part_off_mono(buf: Seq<u8>, table: int, sl: int, i: int, j: int)
    requires
        0 <= i <= j,
    ensures
        part_off(buf, table, sl, i) <= part_off(buf, table, sl, j),
    decreases j - i,
{
    if i < j {
        lemma_part_off_mono(buf, table, sl, i, j - 1);
        lemma_le_nonneg(buf, table + 3 * (j - 1), 3);
    }
}

proof fn lemma_le_nonneg(b: Seq<u8>, at: int, n: nat)
    ensures
        le(b, at, n) >= 0,
    decreases n,
{
    if n > 0 {
        lemma_le_nonneg(b, at + 1, (n - 1) as nat);
    }
}

/// The outcome of reading the partitions from `c` and the size table at
/// `table`, as [`partitions_read`] gives it.
pub open spec fn partitions_outcome(c: RangeCoder, buf: Seq<u8>, table: int, avail: int, total: int) -> Result<Status> {
    let (c1, v) = uint_fold(c, buf, 2);
    let n = pow2(v as nat) as int;
    let sl = 3 * (n - 1);
    if sat_sub(total, table) < sl {
        Err(Error::InvalidData)
    } else if sat_sub(avail, table) < sl {
        Ok(Status::NeedMore)
    } else if part_off(buf, table, sl, n - 1) > total {
        Err(Error::InvalidData)
    } else {
        Ok(Status::Done)
    }
}

/// What the partition count read from `c` and the size table at `table`
/// make of `p0`, with `avail` bytes of the frame here out of `total`: `p1`,
/// and the outcome `r`.
pub open spec fn partitions_read(
    c: RangeCoder,
    buf: Seq<u8>,
    table: int,
    avail: int,
    total: int,
    p0: Partitions,
    p1: Partitions,
    r: Result<Status>,
) -> bool {
    let (c1, v) = uint_fold(c, buf, 2);
    let n = pow2(v as nat) as int;
    let sl = 3 * (n - 1);
    &&& p1.num == n
    &&& p1.coder == p0.coder
    &&& if sat_sub(total, table) < sl {
        r == Err::<Status, Error>(Error::InvalidData)
    } else if sat_sub(avail, table) < sl {
        r == Ok::<Status, Error>(Status::NeedMore)
    } else if part_off(buf, table, sl, n - 1) > total {
        r == Err::<Status, Error>(Error::InvalidData)
    } else {
        &&& r == Ok::<Status, Error>(Status::Done)
        &&& forall|i: int| 0 <= i < n - 1 ==> #[trigger] p1.start@[i] == part_off(buf, table, sl, i)
            && p1.size@[i] == le(buf, table + 3 * i, 3)
        &&& p1.start@[n - 1] == part_off(buf, table, sl, n - 1)
        &&& p1.size@[n - 1] == total - part_off(buf, table, sl, n - 1)
        &&& p1.ready == 0
        &&& p1.clamped == 0
    }
}

/// Reads the number of coefficient partitions and lays them out from the
/// table of sizes at `table`: each partition but the last is as long as its
/// size says, the last takes the rest up to `total`. Sizes that reach past
/// `total` are refused; a table not yet all within `avail` asks for more.
#[verifier::spinoff_prover]
pub fn setup_partitions(c: &mut RangeCoder, buf: &[u8], table: usize, avail: usize, total: usize, parts: &mut Partitions) -> (r: Result<Status>)
    requires
        old(c).wf(),
        old(c).spec_end() <= buf.len(),
        avail <= buf.len(),
        table <= total,
    ensures
        final(c).wf(),
        final(c).spec_end() == old(c).spec_end(),
        *final(c) == uint_fold(*old(c), buf@, 2).0,
        partitions_read(*old(c), buf@, table as int, avail as int, total as int, *old(parts), *final(parts), r),
{
    proof {
        vstd::arithmetic::power2::lemma2_to64();
    }
    let v = c.get_uint(buf, 2);
    let ghost c1 = *c;
    let n: usize = if v == 0 { 1 } else if v == 1 { 2 } else if v == 2 { 4 } else { 8 };
    assert(n == pow2(v as nat));
    parts.num = n;
    let sizes_len = 3 * (n - 1);
    let room = if total >= table { total - table } else { 0 };
    if room < sizes_len {
        return Err(Error::InvalidData);
    }
    let have = if avail >= table { avail - table } else { 0 };
    if have < sizes_len {
        return Ok(Status::NeedMore);
    }
    let ghost sl = sizes_len as int;
    let mut off = table + sizes_len;
    let mut i: usize = 0;
    while i < n - 1
        invariant
            1 <= n <= 8,
            i <= n - 1,
            sizes_len == 3 * (n - 1),
            sl == sizes_len,
            n == pow2(v as nat),
            *c == c1,
            c1 == uint_fold(*old(c), buf@, 2).0,
            v == uint_fold(*old(c), buf@, 2).1,
            c.wf(),
            c.spec_end() == old(c).spec_end(),
            n > 1 ==> table + sizes_len <= avail <= buf.len(),
            table + sizes_len <= total,
            off == part_off(buf@, table as int, sl, i as int),
            off <= total,
            parts.num == n,
            parts.coder == old(parts).coder,
            forall|k: int| 0 <= k < i ==> #[trigger] parts.start@[k] == part_off(buf@, table as int, sl, k)
                && parts.size@[k] == le(buf@, table + 3 * k, 3),
        decreases n - 1 - i,
    {
        let size = rl24(&buf[table + 3 * i..table + 3 * i + 3]) as usize;
        proof {
            assert(buf@.subrange(table + 3 * i, table + 3 * i + 3)[0] == buf@[table + 3 * i]);
            assert(le(buf@.subrange(table + 3 * i, table + 3 * i + 3), 0, 3) == le(buf@, table + 3 * i, 3)) by {
                let sb = buf@.subrange(table + 3 * i, table + 3 * i + 3);
                assert(sb[1] == buf@[table + 3 * i + 1]);
                assert(sb[2] == buf@[table + 3 * i + 2]);
                reveal_with_fuel(le, 4);
            }
        }
        if total - off < size {
            proof {
                lemma_part_off_mono(buf@, table as int, sl, i + 1, n - 1);
            }
            return Err(Error::InvalidData);
        }
        let ghost before = *parts;
        parts.start[i] = off;
        parts.size[i] = size;
        proof {
            assert forall|k: int| 0 <= k < i + 1 implies #[trigger] parts.start@[k] == part_off(buf@, table as int, sl, k)
                && parts.size@[k] == le(buf@, table + 3 * k, 3) by {
                if k < i {
                    assert(parts.start@[k] == before.start@[k]);
                    assert(parts.size@[k] == before.size@[k]);
                }
            }
        }
        off = off + size;
        i += 1;
    }
    let ghost mid = *parts;
    parts.start[n - 1] = off;
    parts.size[n - 1] = total - off;
    parts.ready = 0;
    parts.clamped = 0;
    assert forall|k: int| 0 <= k < n - 1 implies #[trigger] parts.start@[k] == part_off(buf@, table as int, sl, k)
        && parts.size@[k] == le(buf@, table + 3 * k, 3) by {
        assert(parts.start@[k] == mid.start@[k]);
        assert(parts.size@[k] == mid.size@[k]);
    }
    Ok(Status::Done)
}

/// Bit `i` of `x`.
pub open spec fn bit(x: u32, i: int) -> bool {
    (x >> (i as u32)) & 1u32 == 1u32
}

proof fn lemma_set_bit(x: u32, i: u32)
    requires
        i < 32,
    ensures
        bit(x, i as int) == ((x >> i) & 1u32 != 0),
        bit(x | (1u32 << i), i as int),
        forall|j: int| 0 <= j < 32 && j != i ==> bit(x | (1u32 << i), j) == #[trigger] bit(x, j),
        !bit(x & !(1u32 << i), i as int),
        forall|j: int| 0 <= j < 32 && j != i ==> bit(x & !(1u32 << i), j) == #[trigger] bit(x, j),
{
    assert(((x | (1u32 << i)) >> i) & 1u32 == 1u32) by (bit_vector)
        requires
            i < 32,
    ;
    assert(((x >> i) & 1u32 == 1u32) == ((x >> i) & 1u32 != 0)) by (bit_vector);
    assert(((x & !(1u32 << i)) >> i) & 1u32 != 1u32) by (bit_vector)
        requires
            i < 32,
    ;
    assert forall|j: int| 0 <= j < 32 && j != i implies bit(x | (1u32 << i), j) == #[trigger] bit(x, j) by {
        let jj = j as u32;
        assert(((x | (1u32 << i)) >> jj) & 1u32 == (x >> jj) & 1u32) by (bit_vector)
            requires
                i < 32,
                jj < 32,
                jj != i,
        ;
    }
    assert forall|j: int| 0 <= j < 32 && j != i implies bit(x & !(1u32 << i), j) == #[trigger] bit(x, j) by {
        let jj = j as u32;
        assert(((x & !(1u32 << i)) >> jj) & 1u32 == (x >> jj) & 1u32) by (bit_vector)
            requires
                i < 32,
                jj < 32,
                jj != i,
        ;
    }
}

/// The window of partition `i` the bytes so far allow: all of it, or what of
/// it has arrived.
pub open spec fn part_window(p: Partitions, avail: int, i: int) -> int {
    let have = sat_sub(avail, p.start@[i] as int);
    if have >= p.size@[i] { p.size@[i] as int } else { have }
}

/// A partition with a coder open has it in a usable state, not yet past the
/// window it is about to get.
pub open spec fn ready_ok(p: Partitions, avail: int, i: int) -> bool {
    bit(p.ready, i) ==> p.coder@[i].wf() && p.coder@[i].spec_pos() <= p.start@[i] + part_window(p, avail, i)
}

/// What opening partition `i` of `p0` leaves in `now`: its coder open over
/// its window (fresh, or where it was, only with a new end), and marked clamped
/// exactly when the window falls short of the partition.
pub open spec fn opened(p0: Partitions, now: Partitions, avail: int, i: int) -> bool {
    let win = part_window(p0, avail, i);
    let was = p0.coder@[i];
    let c = now.coder@[i];
    &&& bit(now.ready, i)
    &&& bit(now.clamped, i) == (win < p0.size@[i])
    &&& c.wf()
    &&& c.spec_end() == p0.start@[i] + win
    &&& !bit(p0.ready, i) ==> c.spec_pos() == p0.start@[i] && !c.spec_eof()
    &&& bit(p0.ready, i) ==> c.spec_pos() == was.spec_pos() && c.spec_eof() == was.spec_eof()
}

/// Bit `i` of both masks is as it was in `p0`.
pub open spec fn untouched(p0: Partitions, now: Partitions, i: int) -> bool {
    bit(now.ready, i) == bit(p0.ready, i) && bit(now.clamped, i) == bit(p0.clamped, i)
}

/// Opens, or widens, a range coder over each coefficient partition, over as
/// much of it as has arrived.
pub fn open_partitions(parts: &mut Partitions, buf: &[u8], chunk_avail: usize)
    requires
        old(parts).num <= 8,
        forall|i: int| 0 <= i < old(parts).num ==> #[trigger] old(parts).start@[i] + old(parts).size@[i] <= usize::MAX,
        forall|i: int| 0 <= i < old(parts).num ==> #[trigger] ready_ok(*old(parts), chunk_avail as int, i),
    ensures
        final(parts).num == old(parts).num,
        final(parts).start == old(parts).start,
        final(parts).size == old(parts).size,
        forall|i: int| 0 <= i < old(parts).num ==> #[trigger] opened(*old(parts), *final(parts), chunk_avail as int, i),
        forall|i: int| old(parts).num <= i < 32 ==> #[trigger] untouched(*old(parts), *final(parts), i),
        forall|i: int| old(parts).num <= i < 8 ==> #[trigger] final(parts).coder@[i] == old(parts).coder@[i],
{
    let ghost p0 = *parts;
    let n = parts.num;
    let mut i: usize = 0;
    while i < n
        invariant
            i <= n == p0.num <= 8,
            parts.num == p0.num,
            parts.start == p0.start,
            parts.size == p0.size,
            forall|k: int| 0 <= k < p0.num ==> #[trigger] p0.start@[k] + p0.size@[k] <= usize::MAX,
            p0 == *old(parts),
            forall|k: int| 0 <= k < p0.num ==> #[trigger] ready_ok(p0, chunk_avail as int, k),
            forall|k: int| 0 <= k < i ==> #[trigger] opened(p0, *parts, chunk_avail as int, k),
            forall|k: int| i <= k < 32 ==> #[trigger] untouched(p0, *parts, k),
            forall|k: int| i <= k < 8 ==> #[trigger] parts.coder@[k] == p0.coder@[k],
        decreases n - i,
    {
        let ghost pre = *parts;
        let start = parts.start[i];
        let size = parts.size[i];
        let have = if chunk_avail >= start { chunk_avail - start } else { 0 };
        let win = if have >= size { size } else { have };
        assert(win == part_window(p0, chunk_avail as int, i as int));
        assert(ready_ok(p0, chunk_avail as int, i as int));
        assert(untouched(p0, pre, i as int));
        assert(pre.coder@[i as int] == p0.coder@[i as int]);
        let bi = i as u32;
        proof {
            lemma_set_bit(parts.ready, bi);
            lemma_set_bit(parts.clamped, bi);
        }
        if (parts.ready >> bi) & 1 == 0 {
            parts.coder[i] = RangeCoder::start(buf, start, win);
            parts.ready = parts.ready | (1u32 << bi);
        } else if parts.coder[i].end() != start + win {
            let mut c = parts.coder[i];
            c.extend(start + win);
            parts.coder[i] = c;
        }
        if win < size {
            parts.clamped = parts.clamped | (1u32 << bi);
        } else {
            parts.clamped = parts.clamped & !(1u32 << bi);
        }
        proof {
            assert forall|k: int| 0 <= k < 32 && k != i implies #[trigger] bit(parts.ready, k) == bit(pre.ready, k)
                && bit(parts.clamped, k) == bit(pre.clamped, k) by {}
            assert forall|k: int| 0 <= k < 8 && k != i implies #[trigger] parts.coder@[k] == pre.coder@[k] by {}
            assert(opened(p0, *parts, chunk_avail as int, i as int));
            assert forall|k: int| 0 <= k <= i implies #[trigger] opened(p0, *parts, chunk_avail as int, k) by {
                if k < i {
                    assert(opened(p0, pre, chunk_avail as int, k));
                    assert(bit(parts.ready, k) == bit(pre.ready, k));
                    assert(parts.coder@[k] == pre.coder@[k]);
                }
            }
            assert forall|k: int| i < k < 32 implies #[trigger] untouched(p0, *parts, k) by {
                assert(untouched(p0, pre, k));
                assert(bit(parts.ready, k) == bit(pre.ready, k));
            }
            assert forall|k: int| i < k < 8 implies #[trigger] parts.coder@[k] == p0.coder@[k] by {
                assert(parts.coder@[k] == pre.coder@[k]);
            }
        }
        i += 1;
    }
}

/// The high-edge-variance threshold a filter level uses.
pub open spec fn hev_threshold(level: int) -> int {
    if level >= 40 {
        2
    } else if level >= 15 {
        1
    } else {
        0
    }
}

fn hev_threshold_of(level: i32) -> (r: i32)
    ensures
        r == hev_threshold(level as int),
{
    if level >= 40 {
        2
    } else if level >= 15 {
        1
    } else {
        0
    }
}

/// The inner edges `1` to `count` of a block whose edge is at `o`, four
/// samples apart, each filtered over `n` positions with the subblock filter.
pub open spec fn inner_edges(b: Seq<u8>, o: int, stride: int, n: int, vert: bool, count: int, bl: int, il: int, h: int) -> Seq<u8>
    decreases count,
{
    if count <= 0 {
        b
    } else {
        let sb = across(vert, stride);
        loop_filtered_at(
            inner_edges(b, o, stride, n, vert, count - 1, bl, il, h),
            o + 4 * count * sb - 4 * sb,
            n,
            along(vert, stride),
            sb,
            bl,
            il,
            h,
            true,
        )
    }
}

/// One direction of a block's filtering: the macroblock edge at `o` (when
/// there is a block before it), then the `count` inner edges (when the block
/// has them filtered).
pub open spec fn edges_filtered(
    b: Seq<u8>,
    o: int,
    stride: int,
    n: int,
    vert: bool,
    edge: bool,
    inner: bool,
    count: int,
    m: int,
    bl: int,
    il: int,
    h: int,
) -> Seq<u8> {
    let sb = across(vert, stride);
    let b1 = if edge { loop_filtered_at(b, o - 4 * sb, n, along(vert, stride), sb, m, il, h, false) } else { b };
    if inner { inner_edges(b1, o, stride, n, vert, count, bl, il, h) } else { b1 }
}

/// A macroblock's three planes loop-filtered: the left edges (luma over 16
/// rows, chroma over 8) and their inner edges, then the top edges and theirs.
/// The macroblock edge is filtered only where there is a macroblock before it
/// and uses the wider limit; nothing is filtered at level zero.
pub open spec fn mb_filtered(
    y: Seq<u8>,
    u: Seq<u8>,
    v: Seq<u8>,
    off: Seq<usize>,
    ls: int,
    uvls: int,
    f: FilterStrength,
    mb_x: int,
    mb_y: int,
) -> (Seq<u8>, Seq<u8>, Seq<u8>) {
    let l = f.filter_level as int;
    let il = f.inner_limit as int;
    let bl = 2 * l + il;
    let m = bl + 4;
    let h = hev_threshold(l);
    let inner = f.inner_filter;
    if l == 0 {
        (y, u, v)
    } else {
        let y1 = edges_filtered(y, off[0] as int, ls, 16, false, mb_x != 0, inner, 3, m, bl, il, h);
        let u1 = edges_filtered(u, off[1] as int, uvls, 8, false, mb_x != 0, inner, 1, m, bl, il, h);
        let v1 = edges_filtered(v, off[2] as int, uvls, 8, false, mb_x != 0, inner, 1, m, bl, il, h);
        (
            edges_filtered(y1, off[0] as int, ls, 16, true, mb_y != 0, inner, 3, m, bl, il, h),
            edges_filtered(u1, off[1] as int, uvls, 8, true, mb_y != 0, inner, 1, m, bl, il, h),
            edges_filtered(v1, off[2] as int, uvls, 8, true, mb_y != 0, inner, 1, m, bl, il, h),
        )
    }
}

/// Filters one direction of one plane of a block, as [`edges_filtered`] says.
fn filter_edges<const N: usize, const VERT: bool>(
    buf: &mut [u8],
    o: usize,
    stride: usize,
    edge: bool,
    inner: bool,
    count: usize,
    m: i32,
    bl: i32,
    il: i32,
    h: i32,
)
    requires
        1 <= N <= 16,
        count <= 3,
        edge ==> o >= 4 * across(VERT, stride as int),
        o + (N - 1) * along(VERT, stride as int) + (4 * count + 3) * across(VERT, stride as int) < old(buf).len(),
    ensures
        final(buf)@ == edges_filtered(
            old(buf)@,
            o as int,
            stride as int,
            N as int,
            VERT,
            edge,
            inner,
            count as int,
            m as int,
            bl as int,
            il as int,
            h as int,
        ),
        final(buf)@.len() == old(buf)@.len(),
{
    let (sa, sb) = strides::<VERT>(stride);
    assert(0 <= (4 * count + 3) * sb) by (nonlinear_arith)
        requires
            sb >= 0,
    ;
    assert(3 * sb <= (4 * count + 3) * sb) by (nonlinear_arith)
        requires
            sb >= 0,
    ;
    if edge {
        loop_filter_at::<N, VERT, false>(buf, o - 4 * sb, stride, m, il, h);
    }
    if inner {
        let ghost b1 = buf@;
        let mut k: usize = 1;
        while k <= count
            invariant
                1 <= k <= count + 1,
                1 <= N <= 16,
                count <= 3,
                sa as int == along(VERT, stride as int),
                sb as int == across(VERT, stride as int),
                o + (N - 1) * sa + (4 * count + 3) * sb < buf.len(),
                buf@.len() == b1.len(),
                buf@ == inner_edges(b1, o as int, stride as int, N as int, VERT, (k - 1) as int, bl as int, il as int, h as int),
            decreases count + 1 - k,
        {
            assert(o + 4 * k * sb - 4 * sb + (N - 1) * sa + 7 * sb <= o + (N - 1) * sa + (4 * count + 3) * sb
                && 4 * sb <= 4 * k * sb && 4 * k * sb <= 4 * count * sb && (N - 1) * sa >= 0) by (nonlinear_arith)
                requires
                    1 <= k <= count,
                    sb >= 0,
                    sa >= 0,
                    N >= 1,
            ;
            assert(o + 4 * k * sb < buf.len());
            loop_filter_at::<N, VERT, true>(buf, o + 4 * k * sb - 4 * sb, stride, bl, il, h);
            k += 1;
        }
    }
}

/// Loop-filters one macroblock whose planes' top-left samples are at `off`
/// in `y`, `u` and `v` (rows `ls` and `uvls` apart), as [`mb_filtered`] says.
pub fn filter_mb(
    y: &mut [u8],
    u: &mut [u8],
    v: &mut [u8],
    off: [usize; 3],
    ls: usize,
    uvls: usize,
    f: FilterStrength,
    mb_x: usize,
    mb_y: usize,
)
    requires
        f.filter_level < 64,
        f.filter_level != 0 ==> {
            &&& mb_x != 0 ==> off[0] >= 4 && off[1] >= 4 && off[2] >= 4
            &&& mb_y != 0 ==> off[0] >= 4 * ls && off[1] >= 4 * uvls && off[2] >= 4 * uvls
            &&& off[0] + 15 * ls + 15 < old(y).len()
            &&& off[1] + 7 * uvls + 7 < old(u).len()
            &&& off[2] + 7 * uvls + 7 < old(v).len()
        },
    ensures
        (final(y)@, final(u)@, final(v)@) == mb_filtered(
            old(y)@,
            old(u)@,
            old(v)@,
            off@,
            ls as int,
            uvls as int,
            f,
            mb_x as int,
            mb_y as int,
        ),
{
    let filter_level = f.filter_level as i32;
    if filter_level == 0 {
        return;
    }
    let inner_limit = f.inner_limit as i32;
    let bedge_lim = 2 * filter_level + inner_limit;
    let mbedge_lim = bedge_lim + 4;
    let hev = hev_threshold_of(filter_level);
    let inner = f.inner_filter;
    filter_edges::<16, false>(y, off[0], ls, mb_x != 0, inner, 3, mbedge_lim, bedge_lim, inner_limit, hev);
    filter_edges::<8, false>(u, off[1], uvls, mb_x != 0, inner, 1, mbedge_lim, bedge_lim, inner_limit, hev);
    filter_edges::<8, false>(v, off[2], uvls, mb_x != 0, inner, 1, mbedge_lim, bedge_lim, inner_limit, hev);
    filter_edges::<16, true>(y, off[0], ls, mb_y != 0, inner, 3, mbedge_lim, bedge_lim, inner_limit, hev);
    filter_edges::<8, true>(u, off[1], uvls, mb_y != 0, inner, 1, mbedge_lim, bedge_lim, inner_limit, hev);
    filter_edges::<8, true>(v, off[2], uvls, mb_y != 0, inner, 1, mbedge_lim, bedge_lim, inner_limit, hev);
}

/// What the ten bytes that open a key frame declare: the profile, the size
/// of the first partition, and the picture's size.
#[derive(Clone, Copy, PartialEq, Eq, Debug, Structural)]
pub struct FrameTag {
    pub profile: u8,
    pub header_size: usize,
    pub width: i32,
    pub height: i32,
}

/// How the opening bytes `b` of a frame read, with `avail` bytes of the
/// frame here out of `total`: refused when it is not a key frame, when its
/// first partition would run past the frame, or when the start code is
/// wrong; `None` while the first partition has not all arrived.
pub open spec fn frame_tag_result(b: Seq<u8>, avail: int, total: int) -> Result<Option<FrameTag>> {
    let hs = le(b, 0, 3) / 32;
    if b[0] % 2 == 1 {
        Err(Error::InvalidData)
    } else if hs > sat_sub(total, 10) {
        Err(Error::InvalidData)
    } else if sat_sub(avail, 10) < hs {
        Ok(None)
    } else if le(b, 3, 3) != 0x2a019d {
        Err(Error::InvalidData)
    } else {
        Ok(
            Some(
                FrameTag {
                    profile: ((b[0] / 2) % 8) as u8,
                    header_size: hs as usize,
                    width: (le(b, 6, 2) % 0x4000) as i32,
                    height: (le(b, 8, 2) % 0x4000) as i32,
                },
            ),
        )
    }
}

/// What a frame's opening bytes decide, said directly: only key frames are
/// read; a first partition larger than the frame is refused; one that fits
/// the frame but has not all arrived asks for more; and a frame whose start
/// code is right and whose first partition is here gives its fourteen-bit
/// width and height.
pub proof fn law_what_a_frame_tag_decides(b: Seq<u8>, avail: int, total: int)
    requires
        b.len() >= 10,
    ensures
        b[0] % 2 == 1 ==> frame_tag_result(b, avail, total) == Err::<Option<FrameTag>, Error>(Error::InvalidData),
        b[0] % 2 == 0 && le(b, 0, 3) / 32 > sat_sub(total, 10) ==> frame_tag_result(b, avail, total) == Err::<
            Option<FrameTag>,
            Error,
        >(Error::InvalidData),
        b[0] % 2 == 0 && le(b, 0, 3) / 32 <= sat_sub(total, 10) && sat_sub(avail, 10) < le(b, 0, 3) / 32
            ==> frame_tag_result(b, avail, total) == Ok::<Option<FrameTag>, Error>(None),
        frame_tag_result(b, avail, total) matches Ok(Some(t)) ==> le(b, 3, 3) == 0x2a019d && 0 <= t.width < 0x4000
            && 0 <= t.height < 0x4000 && 10 + t.header_size <= (if avail > 10 { avail } else { 10 }),
{
    reveal_with_fuel(le, 4);
}

/// Reads the opening bytes of a key frame, as [`frame_tag_result`] says.
pub fn frame_tag(buf: &[u8], avail: usize, total: usize) -> (r: Result<Option<FrameTag>>)
    requires
        buf.len() >= 10,
    ensures
        r == frame_tag_result(buf@, avail as int, total as int),
{
    let b0 = buf[0];
    proof {
        assert(b0 & 1 == b0 % 2 && (b0 >> 1u8) & 7 == (b0 / 2) % 8) by (bit_vector);
    }
    if b0 & 1 != 0 {
        return Err(Error::InvalidData);
    }
    let profile = (b0 >> 1u8) & 7;
    let tag = rl24(buf);
    proof {
        assert(tag >> 5u32 == tag / 32) by (bit_vector);
    }
    let header_size = (tag >> 5u32) as usize;
    if header_size > total.saturating_sub(10) {
        return Err(Error::InvalidData);
    }
    if avail.saturating_sub(10) < header_size {
        return Ok(None);
    }
    let code = rl24(&buf[3..6]);
    proof {
        assert(buf@.subrange(3, 6) =~= buf@.subrange(3, 6));
        reveal_with_fuel(le, 4);
        assert(le(buf@.subrange(3, 6), 0, 3) == le(buf@, 3, 3));
    }
    if code != 0x2a019d {
        return Err(Error::InvalidData);
    }
    let w = rl16(&buf[6..8]);
    let h = rl16(&buf[8..10]);
    proof {
        reveal_with_fuel(le, 3);
        assert(le(buf@.subrange(6, 8), 0, 2) == le(buf@, 6, 2));
        assert(le(buf@.subrange(8, 10), 0, 2) == le(buf@, 8, 2));
        assert(w & 0x3fff == w % 0x4000 && h & 0x3fff == h % 0x4000) by (bit_vector);
    }
    Ok(Some(FrameTag { profile, header_size, width: (w & 0x3fff) as i32, height: (h & 0x3fff) as i32 }))
}

} // verus!
