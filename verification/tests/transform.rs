use wpd::error::Error;
use wpd::vp8l::state::{ImageContext, Picture, Transform};
use wpd::vp8l::transform::{
    color_indexing_alpha, color_indexing_rows, color_rows, predict_batch, predictor_rows, subtract_green_rows,
    apply_transforms, transform_rows,
};

fn px(a: u32, r: u32, g: u32, b: u32) -> u32 {
    a | r << 8 | g << 16 | b << 24
}

#[test]
fn green_is_added_back_into_red_and_blue() {
    let mut plane = [px(1, 10, 20, 250), px(9, 9, 9, 9)];
    subtract_green_rows(&mut plane, 0, 2, 1, 1);
    assert_eq!(plane[0], px(1, 30, 20, 14));
    assert_eq!(plane[1], px(9, 9, 9, 9));
}

#[test]
fn subtracting_green_walks_rows_by_stride() {
    let mut plane = [px(0, 1, 1, 1), 7, px(0, 2, 3, 4)];
    subtract_green_rows(&mut plane, 0, 2, 1, 2);
    assert_eq!(plane, [px(0, 2, 1, 2), 7, px(0, 5, 3, 7)]);
}

#[test]
fn an_alpha_palette_is_looked_up_by_green() {
    let pal = [px(0, 0, 11, 0), px(0, 0, 22, 0), px(0, 0, 33, 0)];
    let src = [px(0, 0, 2, 0), px(0, 0, 0, 0), px(0, 0, 9, 0)];
    let mut dst = [0u8; 3];
    color_indexing_alpha(&src, 3, 3, 1, &pal, 0, &mut dst, 3);
    /* An index past the palette reads the zero padding. */
    assert_eq!(dst, [33, 11, 0]);
}

#[test]
fn packed_alpha_indices_come_lowest_first() {
    let pal = [px(0, 0, 10, 0), px(0, 0, 20, 0), px(0, 0, 30, 0)];
    /* Two four-bit indices per pixel: 1 then 2, and then 0 then 1. */
    let src = [px(0, 0, 0x21, 0), px(0, 0, 0x10, 0)];
    let mut dst = [0u8; 4];
    color_indexing_alpha(&src, 2, 4, 1, &pal, 1, &mut dst, 4);
    assert_eq!(dst, [20, 30, 10, 20]);
}

#[test]
fn a_partial_last_group_is_expanded_too() {
    let pal = [px(0, 0, 5, 0), px(0, 0, 6, 0)];
    let src = [px(0, 0, 0b01, 0), px(0, 0, 0b1, 0)];
    let mut dst = [0u8; 9];
    color_indexing_alpha(&src, 2, 9, 1, &pal, 3, &mut dst, 9);
    assert_eq!(dst, [6, 5, 5, 5, 5, 5, 5, 5, 6]);
}

#[test]
fn the_first_row_predicts_from_black_and_then_the_left() {
    let mut plane = [px(1, 0, 0, 0), px(5, 0, 0, 0), px(2, 0, 0, 0)];
    let modes = [0u32];
    predictor_rows(&mut plane, 0, 3, 3, &modes, 1, 2, 0, 1, None).unwrap();
    assert_eq!(plane, [0, 5, 7]);
}

#[test]
fn a_later_row_adds_the_row_above() {
    let mut plane = [px(1, 0, 0, 0), px(5, 0, 0, 0), px(2, 0, 0, 0), 1, 1, 1, 0];
    let modes = [px(0, 0, 2, 0)];
    predictor_rows(&mut plane, 0, 3, 3, &modes, 1, 2, 0, 2, None).unwrap();
    assert_eq!(&plane[..6], &[0, 5, 7, 1, 6, 8]);
}

#[test]
fn an_unknown_predictor_mode_is_refused() {
    let mut plane = [0u32, 0, 0, 1, 1, 1, 0];
    let modes = [px(0, 0, 14, 0)];
    let r = predictor_rows(&mut plane, 3, 3, 3, &modes, 1, 2, 1, 2, Some(0));
    assert_eq!(r, Err(Error::InvalidData));
    /* The row's first pixel, which needs no mode, was already done. */
    assert_eq!(plane[3], 1);
}

#[test]
fn without_a_row_above_nothing_is_done() {
    let mut plane = [3u32, 4];
    let modes = [0u32];
    predictor_rows(&mut plane, 0, 2, 2, &modes, 1, 2, 1, 2, None).unwrap();
    assert_eq!(plane, [3, 4]);
}

#[test]
fn indices_become_their_palette_colours() {
    let pal = [0xAAAA_AAAAu32, 0xBBBB_BBBB];
    let mut plane = [px(0, 0, 1, 0), px(0, 0, 5, 0)];
    color_indexing_rows(&mut plane, 0, 2, 2, 2, 1, &pal, 0, false);
    assert_eq!(plane, [0xBBBB_BBBB, 0]);
}

#[test]
fn the_large_picture_path_gives_the_same_picture() {
    let pal = [0xAAAA_AAAAu32, 0xBBBB_BBBB];
    let mut a = [px(0, 0, 1, 0), px(0, 0, 0, 0), px(0, 0, 7, 0)];
    let mut b = a;
    color_indexing_rows(&mut a, 0, 3, 3, 3, 1, &pal, 0, false);
    color_indexing_rows(&mut b, 0, 3, 3, 3, 1, &pal, 0, true);
    assert_eq!(a, b);
}

#[test]
fn packed_rows_widen_in_place_from_the_bottom() {
    let pal = [10u32, 11, 12, 13, 14];
    /* Two rows of one packed pixel each, at 0 and 1, widen into rows of two
    at 0 and 2. */
    let mut plane = [px(0, 0, 0x21, 0), px(0, 0, 0x43, 0), 0, 0];
    color_indexing_rows(&mut plane, 0, 2, 1, 2, 2, &pal, 1, false);
    assert_eq!(plane, [11, 12, 13, 14]);
}

#[test]
fn red_and_blue_get_back_what_green_and_red_predicted() {
    // Green-to-red -32, green-to-blue 64, red-to-blue 32; green is 16.
    // Red: 10 + (-32 * 16) / 32 = -6, that is 250. Blue: 20 + (64 * 16) / 32
    // + (32 * -6) / 32 = 46.
    let m = px(0, 0x20, 0x40, 0xe0);
    let mut plane = [px(0x80, 10, 16, 20), px(0xff, 0, 0xf0, 0)];
    color_rows(&mut plane, 0, 2, 2, &[m], 1, 2, 0, 1);
    assert_eq!(plane[0], px(0x80, 250, 16, 46));
    // Green -16: red 0 + (-32 * -16) / 32 = 16; blue 0 - 32 + (32 * 16) / 32 = -16.
    assert_eq!(plane[1], px(0xff, 16, 0xf0, 240));
}

#[test]
fn the_colour_delta_rounds_towards_minus_infinity() {
    // Green-to-blue 1 against green -16: -16 / 32 is -0.5, which is -1.
    let m = px(0, 0, 1, 0);
    let mut plane = [px(0xff, 0, 0xf0, 0)];
    color_rows(&mut plane, 0, 1, 1, &[m], 1, 2, 0, 1);
    assert_eq!(plane[0], px(0xff, 0, 0xf0, 255));
}

#[test]
fn each_tile_takes_its_own_multipliers() {
    let v = px(0x80, 10, 16, 20);
    let done = px(0x80, 250, 16, 46);
    let m = px(0, 0x20, 0x40, 0xe0);
    // Tiles two pixels square; the multiplier image is two by two.
    let mult = [m, 0, 0, m];
    let mut plane = [v; 12];
    color_rows(&mut plane, 0, 4, 4, &mult, 2, 1, 0, 3);
    assert_eq!(plane, [done, done, v, v, done, done, v, v, v, v, done, done]);

    // Starting at picture row 2 reads the second row of multipliers.
    let mut plane = [v; 4];
    color_rows(&mut plane, 0, 4, 4, &mult, 2, 1, 2, 3);
    assert_eq!(plane, [v, v, done, done]);
}

#[test]
fn a_batch_takes_its_row_above_from_the_scratch_row() {
    // Every tile predicts from the pixel above (mode 2).
    let modes = [px(0, 0, 2, 0)];
    let mut scratch = [px(1, 2, 3, 4), px(5, 6, 7, 8), 0, 0];
    let mut plane = [px(10, 10, 10, 10), px(20, 20, 20, 20), px(1, 1, 1, 1), px(2, 2, 2, 2)];

    assert_eq!(predict_batch(&mut plane, &mut scratch, 0, 2, 2, 2, &modes, 1, 2, 1, 3), Ok(()));
    assert_eq!(plane, [px(11, 12, 13, 14), px(25, 26, 27, 28), px(12, 13, 14, 15), px(27, 28, 29, 30)]);
    assert_eq!(scratch[2..], [px(11, 12, 13, 14), px(25, 26, 27, 28)]);
}

#[test]
fn a_batch_with_an_unknown_mode_is_refused_before_the_picture_changes() {
    let modes = [px(0, 0, 14, 0)];
    let mut scratch = [px(1, 2, 3, 4), px(5, 6, 7, 8), 0, 0];
    let mut plane = [px(10, 10, 10, 10), px(20, 20, 20, 20), px(1, 1, 1, 1), px(2, 2, 2, 2)];

    assert_eq!(predict_batch(&mut plane, &mut scratch, 0, 2, 2, 2, &modes, 1, 2, 1, 3), Err(Error::InvalidData));
    assert_eq!(plane, [px(10, 10, 10, 10), px(20, 20, 20, 20), px(1, 1, 1, 1), px(2, 2, 2, 2)]);
}

#[test]
fn the_first_batch_of_a_picture_needs_no_scratch_row() {
    let modes = [px(0, 0, 2, 0)];
    let mut scratch: [u32; 0] = [];
    let mut plane = [px(1, 1, 1, 1), px(2, 2, 2, 2)];

    // The first row predicts from black and then from the left.
    assert_eq!(predict_batch(&mut plane, &mut scratch, 0, 2, 2, 2, &modes, 1, 2, 0, 1), Ok(()));
    assert_eq!(plane, [px(0, 1, 1, 1), px(2, 3, 3, 3)]);
}

fn picture(data: Vec<u32>, stride: usize, width: i32, height: i32) -> Picture {
    Picture { data, stride, width, height }
}

fn context(data: Vec<u32>, stride: usize, width: i32, size_reduction: u32) -> ImageContext {
    ImageContext { storage: picture(data, stride, width, 1), size_reduction }
}

#[test]
fn rows_are_copied_out_and_green_added_back() {
    let argb = picture(vec![px(1, 10, 20, 250), px(2, 1, 1, 1), px(3, 0, 5, 0), px(4, 7, 7, 7)], 2, 2, 2);
    let mut out = picture(vec![0; 4], 2, 2, 2);
    let mut scratch = [0u32; 4];
    let none = context(vec![0], 1, 1, 0);
    let ts = [Transform::SubtractGreen, Transform::Predictor, Transform::Predictor, Transform::Predictor];

    assert_eq!(transform_rows(&mut out, &argb, &mut scratch, &ts, 1, &none, &none, &none, 2, 2, 0, 2), Ok(()));
    assert_eq!(out.data, [px(1, 30, 20, 14), px(2, 2, 1, 2), px(3, 5, 5, 5), px(4, 14, 7, 14)]);
}

#[test]
fn transforms_are_undone_last_first() {
    // The stream lists subtract-green, then the colour transform; the colour
    // transform is undone first, then green is added back.
    let argb = picture(vec![px(0x80, 10, 16, 20)], 1, 1, 1);
    let mut out = picture(vec![0], 1, 1, 1);
    let mut scratch = [0u32; 2];
    let none = context(vec![0], 1, 1, 0);
    let mult = context(vec![px(0, 0x20, 0x40, 0xe0)], 1, 1, 2);
    let ts = [Transform::SubtractGreen, Transform::Color, Transform::Predictor, Transform::Predictor];

    assert_eq!(transform_rows(&mut out, &argb, &mut scratch, &ts, 2, &none, &mult, &none, 1, 1, 0, 1), Ok(()));
    // 250 + 16 wraps to 10; 46 + 16 is 62.
    assert_eq!(out.data, [px(0x80, 10, 16, 62)]);
}

#[test]
fn an_unknown_predictor_stops_the_rows() {
    let argb = picture(vec![px(1, 1, 1, 1); 4], 2, 2, 2);
    let mut out = picture(vec![0; 4], 2, 2, 2);
    let mut scratch = [0u32; 4];
    let modes = context(vec![px(0, 0, 14, 0)], 1, 1, 2);
    let none = context(vec![0], 1, 1, 0);
    let ts = [Transform::Predictor, Transform::Predictor, Transform::Predictor, Transform::Predictor];

    assert_eq!(
        transform_rows(&mut out, &argb, &mut scratch, &ts, 1, &modes, &none, &none, 2, 2, 0, 2),
        Err(Error::InvalidData)
    );
}

#[test]
fn palette_indices_become_colours_in_the_output() {
    let argb = picture(vec![px(0, 0, 1, 0), px(0, 0, 2, 0)], 2, 2, 1);
    let mut out = picture(vec![0; 2], 2, 2, 1);
    let mut scratch = [0u32; 2];
    let pal = context(vec![7, 8, 9], 3, 3, 0);
    let none = context(vec![0], 1, 1, 0);
    let ts = [Transform::ColorIndexing, Transform::Predictor, Transform::Predictor, Transform::Predictor];

    assert_eq!(transform_rows(&mut out, &argb, &mut scratch, &ts, 1, &none, &none, &pal, 2, 2, 0, 1), Ok(()));
    assert_eq!(out.data, [8, 9]);
}

#[test]
fn a_whole_picture_unpacks_its_palette_and_widens() {
    // Two indices per pixel, low nibble first: 1, 2, then 3, 0.
    let mut pic = picture(vec![px(0, 0, 0x21, 0), px(0, 0, 0x03, 0), 0, 0], 2, 4, 1);
    let pal = context(vec![10, 11, 12, 13], 4, 4, 1);
    let none = context(vec![0], 1, 1, 0);
    let ts = [Transform::ColorIndexing, Transform::Predictor, Transform::Predictor, Transform::Predictor];
    let mut reduced_width = 2;
    let mut alpha: [u8; 0] = [];
    let mut used = false;

    let r = apply_transforms(&mut pic, &ts, 1, &none, &none, &pal, &mut reduced_width, &mut alpha, 0, false, &mut used);
    assert_eq!(r, Ok(()));
    assert_eq!(pic.data, [11, 12, 13, 10]);
    assert_eq!((pic.stride, reduced_width), (4, 4));
    assert!(!used);
}

#[test]
fn a_lone_alpha_palette_goes_straight_to_the_callers_plane() {
    let mut pic = picture(vec![px(0, 0, 1, 0), px(0, 0, 0, 0)], 2, 2, 1);
    let pal = context(vec![px(0, 0, 5, 0), px(0, 0, 6, 0)], 2, 2, 0);
    let none = context(vec![0], 1, 1, 0);
    let ts = [Transform::ColorIndexing, Transform::Predictor, Transform::Predictor, Transform::Predictor];
    let mut reduced_width = 2;
    let mut alpha = [0u8; 2];
    let mut used = false;

    let r = apply_transforms(&mut pic, &ts, 1, &none, &none, &pal, &mut reduced_width, &mut alpha, 2, true, &mut used);
    assert_eq!(r, Ok(()));
    assert_eq!(alpha, [6, 5]);
    assert_eq!(pic.data, [px(0, 0, 1, 0), px(0, 0, 0, 0)]);
    assert!(used);
}

#[test]
fn a_whole_picture_with_an_unknown_predictor_is_refused() {
    let mut pic = picture(vec![px(1, 1, 1, 1); 4], 2, 2, 2);
    let modes = context(vec![px(0, 0, 14, 0)], 1, 1, 2);
    let none = context(vec![0], 1, 1, 0);
    let ts = [Transform::SubtractGreen, Transform::Predictor, Transform::Predictor, Transform::Predictor];
    let mut reduced_width = 2;
    let mut alpha: [u8; 0] = [];
    let mut used = false;

    let r = apply_transforms(&mut pic, &ts, 2, &modes, &none, &none, &mut reduced_width, &mut alpha, 0, false, &mut used);
    assert_eq!(r, Err(Error::InvalidData));
}
