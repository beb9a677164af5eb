use wpd::dsp::vp8pred::{
    pred4x4_dc, pred4x4_down_left, pred4x4_down_right, pred4x4_horizontal, pred4x4_horizontal_down,
    pred4x4_horizontal_up, pred4x4_vertical, pred4x4_vertical_left, pred4x4_vertical_right, pred_dc,
    pred_dc128, pred_horizontal, pred_left_dc, pred_tm, pred_top_dc, pred_vertical,
};

/// A 4x4 block at `(1, 1)` of a 16-wide plane, with the row above and the
/// column to its left already filled.
fn plane(top_value: u8, left_value: u8) -> (Vec<u8>, usize, usize) {
    let (stride, o) = (16, 16 + 1);
    let mut buf = vec![0u8; 18 * stride];

    buf[o - stride - 1] = 200;
    for x in 0..8 {
        buf[o - stride + x] = top_value;
    }
    for y in 0..4 {
        buf[o + y * stride - 1] = left_value;
    }
    (buf, o, stride)
}

/// A plane whose every sample is distinct enough to tell the modes apart.
fn ramp() -> (Vec<u8>, usize, usize) {
    let (stride, o) = (24, 24 + 1);
    let mut buf = vec![0u8; 20 * stride];

    for i in 0..buf.len() {
        buf[i] = (i * 7 % 251) as u8;
    }
    (buf, o, stride)
}

fn block(buf: &[u8], o: usize, stride: usize, n: usize) -> Vec<Vec<u8>> {
    (0..n).map(|y| buf[o + y * stride..][..n].to_vec()).collect()
}

#[test]
fn a_uniform_neighbourhood_predicts_itself() {
    let (mut buf, o, stride) = plane(90, 90);

    pred4x4_dc(&mut buf, o, stride);
    for y in 0..4 {
        assert_eq!(&buf[o + y * stride..][..4], &[90u8; 4]);
    }
}

#[test]
fn vertical_smooths_across_the_corner() {
    let (mut buf, o, stride) = plane(100, 0);

    pred4x4_vertical(&mut buf, o, stride, &[100; 4]);
    assert_eq!(&buf[o..][..4], &[125, 100, 100, 100]);
}

#[test]
fn truemotion_adds_the_left_and_top_deltas() {
    let (mut buf, o, stride) = plane(100, 150);

    pred_tm::<4>(&mut buf, o, stride);
    for y in 0..4 {
        assert_eq!(&buf[o + y * stride..][..4], &[50u8; 4]);
    }
}

#[test]
fn the_flat_predictor_ignores_its_neighbours() {
    let (mut buf, o, stride) = plane(0, 0);

    pred_dc128::<8>(&mut buf, o, stride);
    for y in 0..8 {
        assert_eq!(&buf[o + y * stride..][..8], &[128u8; 8]);
    }
}

#[test]
fn truemotion_clamps_to_a_byte() {
    let (mut buf, o, stride) = plane(250, 250);

    buf[o - stride - 1] = 10;
    pred_tm::<4>(&mut buf, o, stride);
    assert_eq!(block(&buf, o, stride, 4), vec![vec![255u8; 4]; 4]);

    let (mut buf, o, stride) = plane(5, 5);
    buf[o - stride - 1] = 250;
    pred_tm::<4>(&mut buf, o, stride);
    assert_eq!(block(&buf, o, stride, 4), vec![vec![0u8; 4]; 4]);
}

#[test]
fn only_the_block_is_written() {
    let (buf0, o, stride) = ramp();
    let mut buf = buf0.clone();

    pred4x4_down_right(&mut buf, o, stride);
    for i in 0..buf.len() {
        let (y, x) = ((i as isize - o as isize).div_euclid(stride as isize), (i as isize - o as isize).rem_euclid(stride as isize));
        if !(0..4).contains(&y) || !(0..4).contains(&x) {
            assert_eq!(buf[i], buf0[i], "sample {i} outside the block");
        }
    }
}

#[test]
fn the_diagonal_modes_are_constant_along_their_diagonals() {
    let (buf0, o, stride) = ramp();
    let mut right = buf0.clone();
    let mut left = buf0.clone();

    pred4x4_down_right(&mut right, o, stride);
    pred4x4_down_left(&mut left, o, stride, &[1, 2, 3, 4]);
    let r = block(&right, o, stride, 4);
    let l = block(&left, o, stride, 4);
    for y in 1..4 {
        for x in 1..4 {
            assert_eq!(r[y][x], r[y - 1][x - 1]);
        }
        for x in 0..3 {
            assert_eq!(l[y][x], l[y - 1][x + 1]);
        }
    }
}

#[test]
fn the_smoothed_modes_give_their_tabulated_values() {
    // Neighbours: corner 10, row above 20 30 40 50, top right 60 70 80 90,
    // left column 100 110 120 130.
    let (stride, o) = (8, 9);
    let mut buf0 = vec![0u8; 6 * stride];
    buf0[o - stride - 1] = 10;
    for x in 0..4 {
        buf0[o - stride + x] = 20 + 10 * x as u8;
    }
    for y in 0..4 {
        buf0[o + y * stride - 1] = 100 + 10 * y as u8;
    }
    let tr = [60u8, 70, 80, 90];

    let mut b = buf0.clone();
    pred4x4_vertical(&mut b, o, stride, &tr);
    assert_eq!(block(&b, o, stride, 4)[0], vec![20, 30, 40, 50]);

    let mut b = buf0.clone();
    pred4x4_horizontal(&mut b, o, stride);
    assert_eq!(block(&b, o, stride, 4).iter().map(|r| r[0]).collect::<Vec<_>>(), vec![80, 110, 120, 128]);

    let mut b = buf0.clone();
    pred4x4_down_left(&mut b, o, stride, &tr);
    assert_eq!(block(&b, o, stride, 4)[0], vec![30, 40, 50, 60]);
    assert_eq!(block(&b, o, stride, 4)[3][3], 88);

    let mut b = buf0.clone();
    pred4x4_vertical_right(&mut b, o, stride);
    assert_eq!(block(&b, o, stride, 4)[0], vec![15, 25, 35, 45]);

    let mut b = buf0.clone();
    pred4x4_vertical_left(&mut b, o, stride, &tr);
    assert_eq!(block(&b, o, stride, 4)[0], vec![25, 35, 45, 55]);

    let mut b = buf0.clone();
    pred4x4_horizontal_up(&mut b, o, stride);
    assert_eq!(block(&b, o, stride, 4)[3], vec![130, 130, 130, 130]);
    assert_eq!(block(&b, o, stride, 4)[0], vec![105, 110, 115, 120]);

    let mut b = buf0.clone();
    pred4x4_horizontal_down(&mut b, o, stride);
    assert_eq!(block(&b, o, stride, 4)[0], vec![55, 35, 20, 30]);
}

#[test]
fn the_wide_modes_copy_average_and_fill() {
    let (buf0, o, stride) = ramp();

    let mut b = buf0.clone();
    pred_vertical::<8>(&mut b, o, stride);
    for y in 0..8 {
        assert_eq!(&b[o + y * stride..][..8], &buf0[o - stride..][..8]);
    }

    let mut b = buf0.clone();
    pred_horizontal::<8>(&mut b, o, stride);
    for y in 0..8 {
        assert_eq!(&b[o + y * stride..][..8], &[buf0[o + y * stride - 1]; 8]);
    }

    let top: u32 = (0..8).map(|x| buf0[o - stride + x] as u32).sum();
    let left: u32 = (0..8).map(|y| buf0[o + y * stride - 1] as u32).sum();

    let mut b = buf0.clone();
    pred_dc::<8>(&mut b, o, stride);
    assert_eq!(b[o], ((top + left + 8) >> 4) as u8);

    let mut b = buf0.clone();
    pred_left_dc::<8>(&mut b, o, stride);
    assert_eq!(b[o + 7 * stride + 7], ((left + 4) / 8) as u8);

    let mut b = buf0.clone();
    pred_top_dc::<8>(&mut b, o, stride);
    assert_eq!(b[o + 3], ((top + 4) / 8) as u8);
}
