use wpd::vp8::coeffs::{decode_block_coeffs, decode_mb_coeffs, get_quants, update_token_probs, QMat};
use wpd::vp8::frame::{Macroblock, Segmentation};
use wpd::vp8::rac::RangeCoder;

fn even_probs() -> [[[[u8; 11]; 3]; 16]; 4] {
    [[[[128u8; 11]; 3]; 16]; 4]
}

#[test]
fn a_block_that_ends_at_once_reads_nothing() {
    let buf = [0u8; 64];
    let probs = even_probs();
    let mut c = RangeCoder::start(&buf, 0, buf.len());
    let mut block = [7i16; 16];

    let n = decode_block_coeffs(&mut c, &buf, &mut block, &probs[0], 0, 0, [1, 1]);

    assert_eq!(n, 0);
    assert_eq!(block, [7i16; 16]);
}

#[test]
fn an_all_ones_stream_fills_the_block_with_the_largest_negative_token() {
    // Every bit decodes as one: no block end, the sixth category with all
    // eleven extra bits (3 + 64 + 2047), and a negative sign.
    let buf = [0xffu8; 256];
    let probs = even_probs();
    let mut c = RangeCoder::start(&buf, 0, buf.len());
    let mut block = [0i16; 16];

    let n = decode_block_coeffs(&mut c, &buf, &mut block, &probs[0], 0, 0, [2, 3]);

    assert_eq!(n, 16);
    assert_eq!(block[0], -2114 * 2);
    for k in 1..16 {
        assert_eq!(block[k], -2114 * 3);
    }
}

#[test]
fn a_macroblock_without_coefficients_is_skipped() {
    let buf = [0u8; 64];
    let probs = even_probs();
    let q = QMat { luma_qmul: [1, 1], luma_dc_qmul: [1, 1], chroma_qmul: [1, 1] };
    let mut c = RangeCoder::start(&buf, 0, buf.len());
    let mut mb = Macroblock { skip: false, intra4x4: false };
    let mut luma = [[0i16; 16]; 16];
    let mut chroma = [[0i16; 16]; 8];
    let mut dc = [0i16; 16];
    let mut top = [1u8; 9];
    let mut left = [1u8; 9];
    let mut cache = [[9u8; 4]; 6];

    decode_mb_coeffs(&mut c, &buf, &probs, &q, &mut mb, &mut luma, &mut chroma, &mut dc, &mut top, &mut left, &mut cache);

    assert!(mb.skip);
    assert_eq!(top, [0u8; 9]);
    assert_eq!(left, [0u8; 9]);
    assert_eq!(cache, [[0u8; 4]; 6]);
    assert_eq!(luma, [[0i16; 16]; 16]);
}

#[test]
fn a_full_macroblock_sets_every_context_and_counts_the_dc_block_into_luma() {
    let buf = [0xffu8; 2048];
    let probs = even_probs();
    let q = QMat { luma_qmul: [1, 1], luma_dc_qmul: [1, 1], chroma_qmul: [1, 1] };
    let mut c = RangeCoder::start(&buf, 0, buf.len());
    let mut mb = Macroblock { skip: false, intra4x4: false };
    let mut luma = [[0i16; 16]; 16];
    let mut chroma = [[0i16; 16]; 8];
    let mut dc = [0i16; 16];
    let mut top = [0u8; 9];
    let mut left = [0u8; 9];
    let mut cache = [[0u8; 4]; 6];

    decode_mb_coeffs(&mut c, &buf, &probs, &q, &mut mb, &mut luma, &mut chroma, &mut dc, &mut top, &mut left, &mut cache);

    assert!(!mb.skip);
    assert_eq!(top, [1u8; 9]);
    assert_eq!(left, [1u8; 9]);
    // Luma blocks read from position one after the DC block: fifteen
    // coefficients end at sixteen, plus one for the DC block.
    for row in &cache[..4] {
        assert_eq!(*row, [17u8; 4]);
    }
    for row in &cache[4..] {
        assert_eq!(row[..], [16u8; 4][..]);
    }
    assert_eq!(dc, [0i16; 16]);
    assert_eq!(chroma[0], [-2114i16; 16]);
}

#[test]
fn without_update_bits_the_token_probabilities_stay() {
    let buf = [0u8; 256];
    let upd = [[[[128u8; 11]; 3]; 8]; 4];
    let mut token = [[[[7u8; 11]; 3]; 16]; 4];
    let mut c = RangeCoder::start(&buf, 0, buf.len());

    update_token_probs(&mut c, &buf, &upd, &mut token);

    assert_eq!(token, [[[[7u8; 11]; 3]; 16]; 4]);
}

#[test]
fn every_update_bit_set_gives_every_position_the_probability_read() {
    let buf = [0xffu8; 2048];
    let upd = [[[[128u8; 11]; 3]; 8]; 4];
    let mut token = [[[[7u8; 11]; 3]; 16]; 4];
    let mut c = RangeCoder::start(&buf, 0, buf.len());

    update_token_probs(&mut c, &buf, &upd, &mut token);

    assert_eq!(token, [[[[255u8; 11]; 3]; 16]; 4]);
}

fn ramp_tables() -> ([u8; 128], [u16; 128]) {
    let mut dc = [0u8; 128];
    let mut ac = [0u16; 128];
    for k in 0..128 {
        dc[k] = k as u8 + 4;
        ac[k] = k as u16 + 4;
    }
    (dc, ac)
}

#[test]
fn index_zero_with_no_deltas_takes_the_first_entries() {
    let buf = [0u8; 64];
    let (dc, ac) = ramp_tables();
    let seg = Segmentation { enabled: false, absolute_vals: false, update_map: false, base_quant: [0; 4], filter_level: [0; 4] };
    let mut c = RangeCoder::start(&buf, 0, buf.len());
    let mut qmat = [QMat { luma_qmul: [0, 0], luma_dc_qmul: [0, 0], chroma_qmul: [0, 0] }; 4];

    get_quants(&mut c, &buf, &seg, &dc, &ac, &mut qmat);

    for m in &qmat {
        assert_eq!(m.luma_qmul, [4, 4]);
        // 4 * 101581 / 65536 is 6, raised to the floor of 8.
        assert_eq!(m.luma_dc_qmul, [8, 8]);
        assert_eq!(m.chroma_qmul, [4, 4]);
    }
}

#[test]
fn the_largest_index_with_negative_deltas_scales_the_second_order_ac() {
    // All ones: index 127, and every delta -15.
    let buf = [0xffu8; 64];
    let (dc, ac) = ramp_tables();
    let seg = Segmentation { enabled: false, absolute_vals: false, update_map: false, base_quant: [0; 4], filter_level: [0; 4] };
    let mut c = RangeCoder::start(&buf, 0, buf.len());
    let mut qmat = [QMat { luma_qmul: [0, 0], luma_dc_qmul: [0, 0], chroma_qmul: [0, 0] }; 4];

    get_quants(&mut c, &buf, &seg, &dc, &ac, &mut qmat);

    for m in &qmat {
        assert_eq!(m.luma_qmul, [116, 131]);
        assert_eq!(m.luma_dc_qmul, [232, 179]);
        assert_eq!(m.chroma_qmul, [116, 116]);
    }
}
