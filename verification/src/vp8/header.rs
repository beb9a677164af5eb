//! A key frame's header, read into the state its macroblocks are decoded
//! with: the frame tag, the segmentation, the loop filter, the coefficient
//! partitions, the quantisers and the token probabilities.

use vstd::prelude::*;
use crate::error::{Error, Result, Status, check_image_size, image_size_ok};
use crate::bits::le;
use super::rac::{RangeCoder, uint_fold};
use super::frame::{
    FrameTag, Segmentation, Filter, LfDelta, Partitions, frame_tag, frame_tag_result, parse_segment_info,
    segment_info_coder, segment_info_read, update_lf_deltas, lf_deltas, setup_partitions, partitions_read,
    partitions_outcome,
};
use super::coeffs::{
    QMat, TokenProbs, UpdateProbs, get_quants, quant_indices, qmat_ok, segment_base, update_token_probs,
    token_updates, token_fn, band_of, lemma_token_updates_agree,
};

verus! {

/// What a key frame's header sets up.
pub struct FrameHeader {
    pub profile: u8,
    pub width: i32,
    pub height: i32,
    pub c: RangeCoder,
    pub segmentation: Segmentation,
    pub segment_probs: [u8; 3],
    pub filter: Filter,
    pub lf_delta: LfDelta,
    pub parts: Partitions,
    pub qmat: [QMat; 4],
    pub token: TokenProbs,
    pub mbskip_enabled: bool,
    pub mbskip_prob: u8,
}

/// The tables a frame header is read with: the default token probabilities
/// by block type and band, the probabilities of their updates, and the DC
/// and AC quantiser tables.
pub struct HeaderTables {
    pub default_token: [[[[u8; 11]; 3]; 8]; 4],
    pub update: UpdateProbs,
    pub dc_q: [u8; 128],
    pub ac_q: [u16; 128],
}

/// The token probabilities a key frame starts from: each position takes its
/// band's defaults.
pub open spec fn default_tokens(tb: HeaderTables) -> spec_fn(int, int, int, int) -> u8 {
    |a: int, p: int, x: int, y: int| tb.default_token[a][band_of(p)][x][y]
}

/// Whether `t` holds the token probabilities `f`.
pub open spec fn tokens_are(t: TokenProbs, f: spec_fn(int, int, int, int) -> u8) -> bool {
    forall|a: int, p: int, x: int, y: int|
        0 <= a < 4 && 0 <= p < 16 && 0 <= x < 3 && 0 <= y < 11 ==> #[trigger] t[a][p][x][y] == f(a, p, x, y)
}

/// A segmentation as a key frame starts it: off, with every value zero.
pub open spec fn segmentation_cleared(s: Segmentation) -> bool {
    &&& !s.enabled
    &&& !s.absolute_vals
    &&& !s.update_map
    &&& forall|i: int| 0 <= i < 4 ==> #[trigger] s.base_quant@[i] == 0 && s.filter_level@[i] == 0
}

/// The coder after the header's fields up to the partitions: the colour
/// space and clamping bits, the segmentation, the loop filter and its
/// deltas.
pub open spec fn coder_before_partitions(b: Seq<u8>, hs: usize) -> RangeCoder {
    let c0 = RangeCoder::started(10, hs);
    let c1 = c0.got_prob(b, 128).0.got_prob(b, 128).0;
    let (c2, en) = c1.got_prob(b, 128);
    let c3 = if en != 0 { segment_info_coder(c2, b) } else { c2 };
    let c4 = c3.got_prob(b, 128).0;
    let c6 = uint_fold(uint_fold(c4, b, 6).0, b, 3).0;
    let (c7, lfe) = c6.got_prob(b, 128);
    if lfe != 0 {
        let (c8, upd) = c7.got_prob(b, 128);
        if upd != 0 { lf_deltas(c8, b, 0, 0, 0).0 } else { c8 }
    } else {
        c7
    }
}

/// The fields the header sets before the partitions: the size, the
/// segmentation, the loop filter and its deltas, read with the first
/// partition, which starts at byte 10 and is `hs` long.
pub open spec fn fields_read(h0: FrameHeader, b: Seq<u8>, t: FrameTag, h1: FrameHeader) -> bool {
    let c0 = RangeCoder::started(10, t.header_size);
    let c1 = c0.got_prob(b, 128).0.got_prob(b, 128).0;
    let (c2, en) = c1.got_prob(b, 128);
    let c3 = if en != 0 { segment_info_coder(c2, b) } else { c2 };
    let (c4, simple) = c3.got_prob(b, 128);
    let (c5, level) = uint_fold(c4, b, 6);
    let (c6, sharp) = uint_fold(c5, b, 3);
    let (c7, lfe) = c6.got_prob(b, 128);
    let (c8, upd) = c7.got_prob(b, 128);
    let d = lf_deltas(c8, b, 0, 0, 0);
    &&& h1.width == t.width
    &&& h1.height == t.height
    &&& if en != 0 {
        segment_info_read(c2, b, true, false, seq![0i8, 0, 0, 0], seq![0i8, 0, 0, 0], h0.segment_probs@,
            h1.segmentation, h1.segment_probs)
    } else {
        segmentation_cleared(h1.segmentation) && h1.segment_probs == h0.segment_probs
    }
    &&& h1.filter == (Filter { simple: simple != 0, level: level as u8, sharpness: sharp as u8 })
    &&& h1.lf_delta.enabled == (lfe != 0)
    &&& h1.lf_delta.ref_intra == if lfe != 0 && upd != 0 { d.1 } else { 0 }
    &&& h1.lf_delta.mode_i4 == if lfe != 0 && upd != 0 { d.2 } else { 0 }
}

/// What reading a frame header does, with `avail` bytes of the frame here
/// out of `total`: the profile is taken from any key frame's first byte; a
/// tag that is refused or still arriving changes nothing more. Otherwise the
/// token probabilities, segmentation and filter deltas start afresh, a size
/// out of range is refused, and the header's fields are read; partitions
/// that are refused or still arriving end it there; else the quantisers, the
/// token probability updates and the skip probability follow.
pub open spec fn header_read(
    h0: FrameHeader,
    b: Seq<u8>,
    avail: int,
    total: int,
    tb: HeaderTables,
    h1: FrameHeader,
    r: Result<Status>,
) -> bool {
    let profile = if b[0] % 2 == 0 { ((b[0] / 2) % 8) as u8 } else { h0.profile };
    &&& h1.profile == profile
    &&& match frame_tag_result(b, avail, total) {
        Err(e) => r == Err::<Status, Error>(e) && h1 == (FrameHeader { profile, ..h0 }),
        Ok(None) => r == Ok::<Status, Error>(Status::NeedMore) && h1 == (FrameHeader { profile, ..h0 }),
        Ok(Some(t)) => if !image_size_ok(t.width as int, t.height as int) {
            &&& r == Err::<Status, Error>(Error::TooLarge)
            &&& tokens_are(h1.token, default_tokens(tb))
            &&& segmentation_cleared(h1.segmentation)
            &&& h1.lf_delta == (LfDelta { enabled: false, ref_intra: 0, mode_i4: 0 })
            &&& h1.width == h0.width && h1.height == h0.height && h1.c == h0.c
            &&& h1.segment_probs == h0.segment_probs && h1.filter == h0.filter && h1.parts == h0.parts
            &&& h1.qmat == h0.qmat && h1.mbskip_enabled == h0.mbskip_enabled && h1.mbskip_prob == h0.mbskip_prob
        } else {
            let cp = coder_before_partitions(b, t.header_size);
            let table = 10 + t.header_size;
            let rp = partitions_outcome(cp, b, table, avail, total);
            let c10 = uint_fold(cp, b, 2).0;
            &&& fields_read(h0, b, t, h1)
            &&& partitions_read(cp, b, table, avail, total, h0.parts, h1.parts, rp)
            &&& if rp != Ok::<Status, Error>(Status::Done) {
                &&& r == rp
                &&& h1.c == c10
                &&& tokens_are(h1.token, default_tokens(tb))
                &&& h1.qmat == h0.qmat && h1.mbskip_enabled == h0.mbskip_enabled && h1.mbskip_prob == h0.mbskip_prob
            } else {
                let q = quant_indices(c10, b);
                let c12 = q.0.got_prob(b, 128).0;
                let tu = token_updates(c12, b, tb.update, default_tokens(tb), 1056);
                let (c13, skip) = tu.0.got_prob(b, 128);
                let p = uint_fold(c13, b, 8);
                &&& r == Ok::<Status, Error>(Status::Done)
                &&& forall|i: int| 0 <= i < 4 ==> #[trigger] qmat_ok(
                    h1.qmat[i], segment_base(h1.segmentation, i, q.1[0]), q.1, tb.dc_q, tb.ac_q)
                &&& tokens_are(h1.token, tu.1)
                &&& h1.mbskip_enabled == (skip != 0)
                &&& h1.mbskip_prob == if skip != 0 { p.1 as u8 } else { h0.mbskip_prob }
                &&& h1.c == if skip != 0 { p.0 } else { c13 }
            }
        },
    }
}

/// Gives every position of `token` its band's default probabilities.
fn reset_tokens(token: &mut TokenProbs, defaults: &[[[[u8; 11]; 3]; 8]; 4])
    ensures
        forall|a: int, p: int, x: int, y: int|
            0 <= a < 4 && 0 <= p < 16 && 0 <= x < 3 && 0 <= y < 11 ==> #[trigger] final(token)[a][p][x][y]
                == defaults[a][band_of(p)][x][y],
{
    let band: [usize; 16] = [0, 1, 2, 3, 6, 4, 5, 6, 6, 6, 6, 6, 6, 6, 6, 7];
    let mut a: usize = 0;
    while a < 4
        invariant
            a <= 4,
            forall|q: int| 0 <= q < 16 ==> #[trigger] band@[q] as int == band_of(q),
            forall|a2: int, p: int, x: int, y: int|
                0 <= a2 < a && 0 <= p < 16 && 0 <= x < 3 && 0 <= y < 11 ==> #[trigger] token[a2][p][x][y]
                    == defaults[a2][band_of(p)][x][y],
        decreases 4 - a,
    {
        let mut p: usize = 0;
        while p < 16
            invariant
                a < 4,
                p <= 16,
                forall|q: int| 0 <= q < 16 ==> #[trigger] band@[q] as int == band_of(q),
                forall|a2: int, p2: int, x: int, y: int|
                    0 <= a2 < a && 0 <= p2 < 16 && 0 <= x < 3 && 0 <= y < 11 ==> #[trigger] token[a2][p2][x][y]
                        == defaults[a2][band_of(p2)][x][y],
                forall|p2: int, x: int, y: int|
                    0 <= p2 < p && 0 <= x < 3 && 0 <= y < 11 ==> #[trigger] token[a as int][p2][x][y]
                        == defaults[a as int][band_of(p2)][x][y],
            decreases 16 - p,
        {
            token[a][p] = defaults[a][band[p]];
            p = p + 1;
        }
        a = a + 1;
    }
}

/// Reads a frame header into `h`, as [`header_read`] says, with the tables
/// `tb`.
#[verifier::rlimit(100)]
#[verifier::spinoff_prover]
pub fn decode_frame_header(h: &mut FrameHeader, buf: &[u8], avail: usize, total: usize, tb: &HeaderTables) -> (r:
    Result<Status>)
    requires
        buf.len() >= 10,
        total >= 10,
        avail <= buf.len(),
        forall|i: int| 0 <= i < 128 ==> #[trigger] tb.ac_q[i] <= 284,
    ensures
        header_read(*old(h), buf@, avail as int, total as int, *tb, *final(h), r),
{
    let tag = frame_tag(buf, avail, total);
    let b0 = buf[0];
    if b0 % 2 == 0 {
        h.profile = (b0 / 2) % 8;
    }
    let t = match tag {
        Err(e) => {
            return Err(e);
        },
        Ok(None) => {
            return Ok(Status::NeedMore);
        },
        Ok(Some(t)) => t,
    };
    proof {
        reveal_with_fuel(le, 4);
        assert(0 <= le(buf@, 0, 3) < 0x1000000);
        assert(10 + t.header_size <= buf.len());
        assert(10 + t.header_size <= total);
    }
    let ghost h_tag = *h;
    reset_tokens(&mut h.token, &tb.default_token);
    h.segmentation = Segmentation {
        enabled: false,
        absolute_vals: false,
        update_map: false,
        base_quant: [0; 4],
        filter_level: [0; 4],
    };
    h.lf_delta = LfDelta { enabled: false, ref_intra: 0, mode_i4: 0 };
    match check_image_size(t.width, t.height) {
        Err(e) => {
            return Err(e);
        },
        Ok(()) => {},
    }
    h.width = t.width;
    h.height = t.height;
    h.c = RangeCoder::start(buf, 10, t.header_size);
    h.c.get(buf);
    h.c.get(buf);
    let ghost c2 = h.c;
    h.segmentation.enabled = h.c.get(buf) != 0;
    let ghost mp0 = h.segment_probs@;
    if h.segmentation.enabled {
        proof {
            assert(h.segmentation.base_quant@ =~= seq![0i8, 0, 0, 0]);
            assert(h.segmentation.filter_level@ =~= seq![0i8, 0, 0, 0]);
        }
        parse_segment_info(&mut h.c, buf, &mut h.segmentation, &mut h.segment_probs);
    }
    h.filter.simple = h.c.get(buf) != 0;
    h.filter.level = h.c.get_uint(buf, 6) as u8;
    h.filter.sharpness = h.c.get_uint(buf, 3) as u8;
    h.lf_delta.enabled = h.c.get(buf) != 0;
    if h.lf_delta.enabled && h.c.get(buf) != 0 {
        update_lf_deltas(&mut h.c, buf, &mut h.lf_delta);
    }
    let ghost cp = h.c;
    let ghost parts0 = h.parts;
    match setup_partitions(&mut h.c, buf, 10 + t.header_size, avail, total, &mut h.parts) {
        Err(e) => {
            return Err(e);
        },
        Ok(Status::NeedMore) => {
            return Ok(Status::NeedMore);
        },
        Ok(Status::Done) => {},
    }
    get_quants(&mut h.c, buf, &h.segmentation, &tb.dc_q, &tb.ac_q, &mut h.qmat);
    h.c.get(buf);
    let ghost c12 = h.c;
    let ghost tok0 = h.token;
    update_token_probs(&mut h.c, buf, &tb.update, &mut h.token);
    proof {
        lemma_token_updates_agree(c12, buf@, tb.update, token_fn(tok0), default_tokens(*tb), 1056);
    }
    h.mbskip_enabled = h.c.get(buf) != 0;
    if h.mbskip_enabled {
        h.mbskip_prob = h.c.get_uint(buf, 8) as u8;
    }
    Ok(Status::Done)
}

} // verus!
