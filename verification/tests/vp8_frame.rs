use wpd::error::{Error, Status};
use wpd::vp8::frame::{
    filter_level_for_mb, filter_mb, frame_tag, FrameTag, open_partitions, parse_segment_info, setup_partitions, update_lf_deltas, Filter, LfDelta,
    Macroblock, Partitions, Segmentation,
};
use wpd::vp8::rac::RangeCoder;

fn segmentation(enabled: bool, absolute_vals: bool, filter_level: [i8; 4]) -> Segmentation {
    Segmentation { enabled, absolute_vals, update_map: false, base_quant: [0; 4], filter_level }
}

fn empty_partitions() -> Partitions {
    Partitions { num: 0, start: [0; 8], size: [0; 8], ready: 0, clamped: 0, coder: [RangeCoder::new(0, 0); 8] }
}

#[test]
fn without_segments_or_deltas_the_frame_level_applies() {
    let seg = segmentation(false, false, [0; 4]);
    let filter = Filter { simple: false, level: 40, sharpness: 0 };
    let lf = LfDelta { enabled: false, ref_intra: 0, mode_i4: 0 };
    let mb = Macroblock { skip: true, intra4x4: false };
    let s = filter_level_for_mb(&seg, 0, &filter, &lf, &mb);

    assert_eq!(s.filter_level, 40);
    assert_eq!(s.inner_limit, 40);
    assert!(!s.inner_filter);
}

#[test]
fn deltas_add_up_and_the_level_is_clamped_to_six_bits() {
    // 10 + 40, then +20 for intra and -5 for 4x4 prediction: 65, clamped to 63.
    let seg = segmentation(true, false, [0, 10, 0, 0]);
    let filter = Filter { simple: false, level: 40, sharpness: 5 };
    let lf = LfDelta { enabled: true, ref_intra: 20, mode_i4: -5 };
    let mb = Macroblock { skip: true, intra4x4: true };
    let s = filter_level_for_mb(&seg, 1, &filter, &lf, &mb);

    assert_eq!(s.filter_level, 63);
    // 63 >> 2 = 15, held to 9 - 5 = 4.
    assert_eq!(s.inner_limit, 4);
    assert!(s.inner_filter);
}

#[test]
fn a_negative_absolute_level_filters_nothing_but_keeps_a_limit_of_one() {
    let seg = segmentation(true, true, [-10, 0, 0, 0]);
    let filter = Filter { simple: true, level: 40, sharpness: 7 };
    let lf = LfDelta { enabled: false, ref_intra: 0, mode_i4: 0 };
    let mb = Macroblock { skip: false, intra4x4: false };
    let s = filter_level_for_mb(&seg, 0, &filter, &lf, &mb);

    assert_eq!(s.filter_level, 0);
    assert_eq!(s.inner_limit, 1);
    assert!(s.inner_filter);
}

#[test]
fn a_stream_of_zero_bits_leaves_the_segmentation_alone() {
    let zeros = [0u8; 32];
    let mut c = RangeCoder::start(&zeros, 0, zeros.len());
    let mut seg = Segmentation { enabled: true, absolute_vals: false, update_map: true, base_quant: [1, 2, 3, 4], filter_level: [5, 6, 7, 8] };
    let mut map_prob = [9u8, 10, 11];

    parse_segment_info(&mut c, &zeros, &mut seg, &mut map_prob);
    assert!(!seg.update_map);
    assert!(!seg.absolute_vals);
    assert_eq!(seg.base_quant, [1, 2, 3, 4]);
    assert_eq!(seg.filter_level, [5, 6, 7, 8]);
    assert_eq!(map_prob, [9, 10, 11]);
}

#[test]
fn a_stream_of_one_bits_sets_every_segment_value_to_its_negative_extreme() {
    let ones = [0xffu8; 32];
    let mut c = RangeCoder::start(&ones, 0, ones.len());
    let mut seg = segmentation(true, false, [0; 4]);
    let mut map_prob = [0u8; 3];

    parse_segment_info(&mut c, &ones, &mut seg, &mut map_prob);
    assert!(seg.update_map);
    assert!(seg.absolute_vals);
    assert_eq!(seg.base_quant, [-127; 4]);
    assert_eq!(seg.filter_level, [-63; 4]);
    assert_eq!(map_prob, [255; 3]);
}

#[test]
fn loop_filter_deltas_keep_only_the_intra_and_4x4_slots() {
    let ones = [0xffu8; 32];
    let mut c = RangeCoder::start(&ones, 0, ones.len());
    let mut lf = LfDelta { enabled: true, ref_intra: 1, mode_i4: 2 };

    update_lf_deltas(&mut c, &ones, &mut lf);
    assert!(lf.enabled);
    assert_eq!(lf.ref_intra, -63);
    assert_eq!(lf.mode_i4, -63);

    let zeros = [0u8; 32];
    let mut c = RangeCoder::start(&zeros, 0, zeros.len());
    let mut lf = LfDelta { enabled: false, ref_intra: 1, mode_i4: 2 };

    update_lf_deltas(&mut c, &zeros, &mut lf);
    assert_eq!(lf.ref_intra, 1);
    assert_eq!(lf.mode_i4, 2);
}

#[test]
fn a_single_partition_takes_everything_after_the_table() {
    let zeros = [0u8; 100];
    let mut c = RangeCoder::start(&zeros, 0, 8);
    let mut parts = empty_partitions();

    assert_eq!(setup_partitions(&mut c, &zeros, 10, 100, 100, &mut parts), Ok(Status::Done));
    assert_eq!(parts.num, 1);
    assert_eq!(parts.start[0], 10);
    assert_eq!(parts.size[0], 90);
}

/// Eight bytes of ones (eight partitions), then a table of the sizes 1 to 7.
fn eight_partition_stream() -> Vec<u8> {
    let mut buf = vec![0xffu8; 8];
    for s in 1u8..8 {
        buf.extend_from_slice(&[s, 0, 0]);
    }
    buf.resize(120, 0);
    buf
}

#[test]
fn eight_partitions_are_laid_out_from_their_size_table() {
    let buf = eight_partition_stream();
    let mut c = RangeCoder::start(&buf, 0, 8);
    let mut parts = empty_partitions();

    assert_eq!(setup_partitions(&mut c, &buf, 8, 120, 120, &mut parts), Ok(Status::Done));
    assert_eq!(parts.num, 8);
    assert_eq!(parts.start, [29, 30, 32, 35, 39, 44, 50, 57]);
    assert_eq!(parts.size, [1, 2, 3, 4, 5, 6, 7, 63]);
}

#[test]
fn a_size_table_that_does_not_fit_is_refused_or_waited_for() {
    let buf = eight_partition_stream();

    let mut c = RangeCoder::start(&buf, 0, 8);
    let mut parts = empty_partitions();
    assert_eq!(setup_partitions(&mut c, &buf, 8, 120, 20, &mut parts), Err(Error::InvalidData));

    let mut c = RangeCoder::start(&buf, 0, 8);
    let mut parts = empty_partitions();
    assert_eq!(setup_partitions(&mut c, &buf, 8, 20, 120, &mut parts), Ok(Status::NeedMore));

    let mut big = buf.clone();
    big[8] = 200;
    let mut c = RangeCoder::start(&big, 0, 8);
    let mut parts = empty_partitions();
    assert_eq!(setup_partitions(&mut c, &big, 8, 120, 120, &mut parts), Err(Error::InvalidData));
}

#[test]
fn partitions_short_of_their_bytes_are_opened_clamped() {
    let buf = eight_partition_stream();
    let mut c = RangeCoder::start(&buf, 0, 8);
    let mut parts = empty_partitions();
    assert_eq!(setup_partitions(&mut c, &buf, 8, 120, 120, &mut parts), Ok(Status::Done));

    // Bytes up to one into the fourth partition.
    open_partitions(&mut parts, &buf, 36);
    assert_eq!(parts.ready, 0xff);
    assert_eq!(parts.clamped, 0xf8);
    assert_eq!(parts.coder[2].end(), 35);
    assert_eq!(parts.coder[3].end(), 36);
    assert_eq!(parts.coder[5].end(), 44);

    // The rest arrives: every window widens to its whole partition.
    open_partitions(&mut parts, &buf, 120);
    assert_eq!(parts.ready, 0xff);
    assert_eq!(parts.clamped, 0);
    assert_eq!(parts.coder[3].end(), 39);
    assert_eq!(parts.coder[7].end(), 120);
}

/// A 32x24 plane whose left half is dark and right half bright.
fn step_plane() -> Vec<u8> {
    let mut p = vec![0u8; 32 * 24];
    for row in 0..24 {
        for x in 16..32 {
            p[row * 32 + x] = 60;
        }
        for x in 0..16 {
            p[row * 32 + x] = 40;
        }
    }
    p
}

#[test]
fn a_level_of_zero_filters_nothing() {
    let (mut y, mut u, mut v) = (step_plane(), vec![7u8; 16 * 16], vec![9u8; 16 * 16]);
    let f = wpd::vp8::frame::FilterStrength { filter_level: 0, inner_limit: 1, inner_filter: true };
    filter_mb(&mut y, &mut u, &mut v, [16 + 32 * 4, 4 + 16 * 4, 4 + 16 * 4], 32, 16, f, 1, 1);
    assert_eq!(y, step_plane());
    assert_eq!(u, vec![7u8; 16 * 16]);
    assert_eq!(v, vec![9u8; 16 * 16]);
}

#[test]
fn the_left_macroblock_edge_is_filtered_as_the_edge_kernel_does() {
    let (mut y, mut u, mut v) = (step_plane(), vec![7u8; 16 * 16], vec![9u8; 16 * 16]);
    let f = wpd::vp8::frame::FilterStrength { filter_level: 20, inner_limit: 10, inner_filter: false };
    let off = 16 + 32 * 4;
    filter_mb(&mut y, &mut u, &mut v, [off, 4 + 16 * 4, 4 + 16 * 4], 32, 16, f, 1, 0);

    let mut expected = step_plane();
    // Macroblock-edge limit 2 * 20 + 10 + 4, interior limit 10, threshold 1.
    wpd::dsp::vp8::loop_filter_at::<16, false, false>(&mut expected, off - 4, 32, 54, 10, 1);
    assert_eq!(y, expected);
    assert_ne!(y, step_plane());
    // Flat chroma has no edge to smooth.
    assert_eq!(u, vec![7u8; 16 * 16]);
    assert_eq!(v, vec![9u8; 16 * 16]);
}

fn key_frame_opening(header_size: u32, width: u16, height: u16) -> [u8; 10] {
    // Key frame, profile 0, shown, then the first partition's size.
    let tag = (header_size << 5) | 0x10;
    let w = width.to_le_bytes();
    let h = height.to_le_bytes();
    [tag as u8, (tag >> 8) as u8, (tag >> 16) as u8, 0x9d, 0x01, 0x2a, w[0], w[1], h[0], h[1]]
}

#[test]
fn a_key_frame_tag_gives_its_size_and_first_partition() {
    let buf = key_frame_opening(100, 17, 9 | 0x4000);

    assert_eq!(
        frame_tag(&buf, 200, 200),
        Ok(Some(FrameTag { profile: 0, header_size: 100, width: 17, height: 9 }))
    );
}

#[test]
fn a_first_partition_still_arriving_asks_for_more() {
    let buf = key_frame_opening(100, 17, 9);

    assert_eq!(frame_tag(&buf, 50, 200), Ok(None));
}

#[test]
fn a_first_partition_larger_than_the_frame_is_refused() {
    let buf = key_frame_opening(100, 17, 9);

    assert_eq!(frame_tag(&buf, 200, 50), Err(Error::InvalidData));
}

#[test]
fn an_inter_frame_or_a_bad_start_code_is_refused() {
    let mut inter = key_frame_opening(100, 17, 9);
    inter[0] |= 1;
    let mut bad = key_frame_opening(100, 17, 9);
    bad[4] = 0;

    assert_eq!(frame_tag(&inter, 200, 200), Err(Error::InvalidData));
    assert_eq!(frame_tag(&bad, 200, 200), Err(Error::InvalidData));
}
