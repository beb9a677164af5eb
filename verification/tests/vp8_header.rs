use wpd::error::{Error, Status};
use wpd::vp8::coeffs::QMat;
use wpd::vp8::frame::{Filter, LfDelta, Partitions, Segmentation};
use wpd::vp8::header::{decode_frame_header, FrameHeader, HeaderTables};
use wpd::vp8::rac::RangeCoder;

fn fresh_header() -> FrameHeader {
    FrameHeader {
        profile: 3,
        width: 0,
        height: 0,
        c: RangeCoder::new(0, 0),
        segmentation: Segmentation { enabled: true, absolute_vals: true, update_map: true, base_quant: [5; 4], filter_level: [5; 4] },
        segment_probs: [255; 3],
        filter: Filter { simple: true, level: 9, sharpness: 9 },
        lf_delta: LfDelta { enabled: true, ref_intra: 3, mode_i4: 3 },
        parts: Partitions { num: 0, start: [0; 8], size: [0; 8], ready: 0, clamped: 0, coder: [RangeCoder::new(0, 0); 8] },
        qmat: [QMat { luma_qmul: [0, 0], luma_dc_qmul: [0, 0], chroma_qmul: [0, 0] }; 4],
        token: [[[[0u8; 11]; 3]; 16]; 4],
        mbskip_enabled: true,
        mbskip_prob: 7,
    }
}

fn tables() -> HeaderTables {
    let mut default_token = [[[[0u8; 11]; 3]; 8]; 4];
    for a in 0..4 {
        for band in 0..8 {
            default_token[a][band] = [[10 * band as u8 + 1; 11]; 3];
        }
    }
    let mut dc_q = [0u8; 128];
    let mut ac_q = [0u16; 128];
    for k in 0..128 {
        dc_q[k] = k as u8 + 4;
        ac_q[k] = k as u16 + 4;
    }
    HeaderTables { default_token, update: [[[[128u8; 11]; 3]; 8]; 4], dc_q, ac_q }
}

fn frame(width: u16, height: u16) -> Vec<u8> {
    // A key frame whose twenty-byte first partition is all zeros, then ten
    // bytes of the one coefficient partition.
    let header_size: u32 = 20;
    let tag = (header_size << 5) | 0x10;
    let w = width.to_le_bytes();
    let h = height.to_le_bytes();
    let mut buf = vec![tag as u8, (tag >> 8) as u8, (tag >> 16) as u8, 0x9d, 0x01, 0x2a, w[0], w[1], h[0], h[1]];
    buf.extend_from_slice(&[0u8; 30]);
    buf
}

#[test]
fn a_key_frame_header_of_zero_bits_sets_up_defaults_and_one_partition() {
    let buf = frame(16, 16);
    let tb = tables();
    let mut h = fresh_header();

    let r = decode_frame_header(&mut h, &buf, buf.len(), buf.len(), &tb);

    assert_eq!(r, Ok(Status::Done));
    assert_eq!(h.profile, 0);
    assert_eq!((h.width, h.height), (16, 16));
    assert!(!h.segmentation.enabled);
    assert_eq!(h.segmentation.base_quant, [0; 4]);
    assert_eq!(h.filter, Filter { simple: false, level: 0, sharpness: 0 });
    assert_eq!(h.lf_delta, LfDelta { enabled: false, ref_intra: 0, mode_i4: 0 });
    assert_eq!(h.parts.num, 1);
    assert_eq!(h.parts.start[0], 30);
    assert_eq!(h.parts.size[0], 10);
    // Position 4 is in band 6, position 15 in band 7.
    assert_eq!(h.token[0][4][0][0], 61);
    assert_eq!(h.token[1][15][2][10], 71);
    assert_eq!(h.token[3][0][1][5], 1);
    assert_eq!(h.qmat[0].luma_qmul, [4, 4]);
    assert!(!h.mbskip_enabled);
    assert_eq!(h.mbskip_prob, 7);
}

#[test]
fn a_key_frame_of_no_width_is_refused_after_the_probabilities_start_afresh() {
    let buf = frame(0, 16);
    let tb = tables();
    let mut h = fresh_header();

    let r = decode_frame_header(&mut h, &buf, buf.len(), buf.len(), &tb);

    assert_eq!(r, Err(Error::TooLarge));
    assert_eq!(h.token[2][4][1][1], 61);
    assert!(!h.segmentation.enabled);
    assert_eq!(h.width, 0);
    assert_eq!(h.filter, Filter { simple: true, level: 9, sharpness: 9 });
}

#[test]
fn a_first_partition_still_arriving_leaves_all_but_the_profile() {
    let buf = frame(16, 16);
    let tb = tables();
    let mut h = fresh_header();

    let r = decode_frame_header(&mut h, &buf, 15, buf.len(), &tb);

    assert_eq!(r, Ok(Status::NeedMore));
    assert_eq!(h.profile, 0);
    assert!(h.segmentation.enabled);
    assert_eq!(h.token[0][0][0][0], 0);
}
