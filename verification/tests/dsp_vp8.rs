use wpd::dsp::vp8::{idct_add, idct_dc_add, loop_filter, loop_filter_simple, luma_dc_wht, luma_dc_wht_dc};

#[test]
fn a_flat_edge_is_left_alone() {
    let mut buf = [128u8; 8 * 4];
    let want = buf;

    loop_filter::<4, true, false>(&mut buf, 4, 20, 10, 7);
    assert_eq!(buf, want);
}

#[test]
fn a_step_edge_is_smoothed() {
    let mut buf = [0u8; 8];

    buf[4..].fill(4);
    loop_filter::<1, true, false>(&mut buf, 1, 60, 10, 7);
    assert_eq!(buf, [0, 1, 1, 2, 2, 3, 3, 4]);
}

#[test]
fn the_dc_only_transform_shifts_every_sample() {
    let mut block = [0i16; 16];
    let mut dst = [10u8; 16];

    block[0] = 16;
    idct_dc_add(&mut dst, 4, &mut block);
    assert_eq!(dst, [12u8; 16]);
    assert_eq!(block[0], 0);
}

#[test]
fn the_transform_clears_its_coefficients() {
    let mut block = [7i16; 16];
    let mut dst = [128u8; 16];

    idct_add(&mut dst, 4, &mut block);
    assert_eq!(block, [0i16; 16]);
}

#[test]
fn an_edge_past_the_limit_is_not_filtered() {
    let mut buf = [0u8; 8];

    buf[4..].fill(100);
    let want = buf;
    loop_filter::<1, true, false>(&mut buf, 1, 60, 10, 7);
    assert_eq!(buf, want);
}

#[test]
fn the_inner_filter_only_touches_the_four_middle_samples() {
    let mut buf = [0u8; 8];

    buf[4..].fill(4);
    loop_filter::<1, true, true>(&mut buf, 1, 60, 10, 7);
    assert_eq!(buf[0], 0);
    assert_eq!(buf[1], 0);
    assert_eq!(buf[6], 4);
    assert_eq!(buf[7], 4);
    assert_eq!(&buf[2..6], &[1, 1, 2, 3]);
}

#[test]
fn the_simple_filter_moves_the_two_middle_samples_together() {
    // Sixteen positions down a horizontal edge: each row holds p1 p0 q0 q1.
    let stride = 4;
    let mut buf = vec![0u8; 16 * stride];
    for j in 0..16 {
        buf[j * stride..j * stride + 4].copy_from_slice(&[10, 10, 20, 20]);
    }
    loop_filter_simple::<false>(&mut buf, stride, 40);
    for j in 0..16 {
        assert_eq!(&buf[j * stride..j * stride + 4], &[10, 12, 17, 20]);
    }
}

#[test]
fn a_lone_dc_spreads_evenly_through_the_walsh_hadamard() {
    let mut block = [[0i16; 16]; 16];
    let mut dc = [0i16; 16];

    dc[0] = 80;
    luma_dc_wht(&mut block, &mut dc);
    for b in block.iter() {
        assert_eq!(b[0], 10);
    }
    assert_eq!(dc, [0i16; 16]);

    let mut block2 = [[1i16; 16]; 16];
    let mut dc2 = [0i16; 16];
    dc2[0] = 80;
    luma_dc_wht_dc(&mut block2, &mut dc2);
    for b in block2.iter() {
        assert_eq!(b[0], 10);
        assert_eq!(b[1], 1);
    }
    assert_eq!(dc2[0], 0);
}

#[test]
fn a_negative_dc_rounds_towards_minus_infinity_and_clamps() {
    let mut block = [0i16; 16];
    let mut dst = [3u8; 16];

    block[0] = -40;
    idct_dc_add(&mut dst, 4, &mut block);
    assert_eq!(dst, [0u8; 16]);
}

#[test]
fn a_dc_only_block_transforms_as_the_dc_only_shortcut_does() {
    let mut full = [0i16; 16];
    let mut dc = [0i16; 16];
    full[0] = -37;
    dc[0] = -37;
    let mut a = [100u8; 16];
    let mut b = [100u8; 16];

    idct_add(&mut a, 4, &mut full);
    idct_dc_add(&mut b, 4, &mut dc);
    assert_eq!(a, b);
}

#[test]
fn the_dc_only_wht_agrees_with_the_full_one_on_a_dc_only_block() {
    for dc0 in [-1000i16, -9, -4, -3, 0, 4, 5, 77, 2047] {
        let mut dc1 = [0i16; 16];
        dc1[0] = dc0;
        let mut dc2 = dc1;
        let mut blk1 = [[3i16; 16]; 16];
        let mut blk2 = blk1;

        luma_dc_wht(&mut blk1, &mut dc1);
        luma_dc_wht_dc(&mut blk2, &mut dc2);

        assert_eq!(blk1, blk2);
        assert_eq!(dc1, [0i16; 16]);
        assert_eq!(dc2, [0i16; 16]);
        assert_eq!(blk1[5][0], (dc0 as i32 + 3).div_euclid(8) as i16);
        assert_eq!(blk1[5][1], 3);
    }
}
