use wpd::dsp::vp8l::{
    add_pixels, blend_row_argb, blend_row_argb_premult, map_color32, map_color32_inplace,
    pred_add_1, pred_add_2,
};

fn lcg(state: &mut u32) -> u32 {
    *state = state.wrapping_mul(1_664_525).wrapping_add(1_013_904_223);
    *state
}

#[test]
fn predictor_2_adds_the_row_above() {
    let upper = [0x0001_0203u32, 0x0405_0607];
    let mut out = [0x0102_0304u32, 0x0000_0001];

    pred_add_2(&mut out, &upper, 0, 0);
    assert_eq!(out, [0x0103_0507, 0x0405_0608]);
}

#[test]
fn predictor_1_chains_through_the_row() {
    let mut out = [1u32, 1, 1];

    pred_add_1(&mut out, 0);
    assert_eq!(out, [1, 2, 3]);
}

#[test]
fn channels_do_not_carry_into_each_other() {
    assert_eq!(add_pixels(0x00FF_00FF, 0x0001_0001), 0x0000_0000);
}

#[test]
fn map_color32_matches_its_in_place_form() {
    let mut state = 12345;
    let palette: Vec<u32> = (0..256).map(|_| lcg(&mut state)).collect();
    let src: Vec<u8> = (0..64).map(|_| lcg(&mut state) as u8).collect();
    let mut dst = vec![0u8; 64];
    let mut inplace = src.clone();

    map_color32(&mut dst, &src, &palette);
    map_color32_inplace(&mut inplace, &palette);
    assert_eq!(dst, inplace);
}

#[test]
fn blending_an_opaque_row_replaces_the_destination() {
    let src = [255u8, 1, 2, 3, 255, 4, 5, 6];
    let mut dst = [0u8; 8];

    blend_row_argb(&mut dst, &src);
    assert_eq!(dst, src);
    dst = [0u8; 8];
    blend_row_argb_premult(&mut dst, &src);
    assert_eq!(dst, src);
}

#[test]
fn blending_a_transparent_row_leaves_the_destination() {
    let src = [0u8; 8];
    let mut dst = [1u8, 2, 3, 4, 5, 6, 7, 8];
    let want = dst;

    blend_row_argb(&mut dst, &src);
    assert_eq!(dst, want);
}
