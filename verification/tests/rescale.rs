use wpd::rescale::{
    accumulate, export_row_direct, export_row_expand, export_row_shrink, frac, import_row_expand, import_row_shrink,
    multiply_row, premultiply_argb_row, Export, Import,
};

#[test]
fn premultiplying_and_undoing_it_round_trips_opaque_pixels() {
    let mut argb = [255u8, 10, 200, 90];
    let want = argb;

    premultiply_argb_row(&mut argb, false);
    premultiply_argb_row(&mut argb, true);
    assert_eq!(argb, want);
}

#[test]
fn a_transparent_pixel_loses_its_colour() {
    let mut argb = [0u8, 10, 200, 90];

    premultiply_argb_row(&mut argb, false);
    assert_eq!(argb, [0, 0, 0, 0]);
}

#[test]
fn half_alpha_halves_the_colour_and_a_trailing_partial_pixel_is_kept() {
    let mut argb = [128u8, 200, 100, 0, 7, 7];

    premultiply_argb_row(&mut argb, false);
    assert_eq!(argb, [128, 100, 50, 0, 7, 7]);
}

#[test]
fn fixed_point_fractions_are_thirty_two_bits_wide() {
    assert_eq!(frac(1, 2), 0x8000_0000);
    assert_eq!(frac(1, 4), 0x4000_0000);
    assert_eq!(frac(3, 3), 0);
}

#[test]
fn accumulating_wraps_and_covers_the_shorter_row() {
    let mut irow = [u32::MAX, 5, 9];
    accumulate(&mut irow, &[2, 6]);
    assert_eq!(irow, [1, 11, 9]);
}

#[test]
fn exporting_scales_by_the_fixed_point_factor() {
    let mut dst = [0u8; 3];
    let p = Export { y_accum: 0, y_sub: 1, fy_scale: frac(1, 2), fxy_scale: 0 };
    export_row_expand(&mut dst, &[], &[100, 600, 7], p);
    assert_eq!(dst, [50, 255, 4]);

    let mut dst = [0u8; 2];
    let mut irow = [300u32, 40];
    let p = Export { y_accum: 0, y_sub: 1, fy_scale: 0, fxy_scale: frac(1, 2) };
    export_row_shrink(&mut dst, &mut irow, &[0, 0], p);
    assert_eq!(dst, [150, 20]);
    assert_eq!(irow, [0, 0]);

    let mut dst = [0u8; 2];
    let mut irow = [0x1_02u32, 3];
    export_row_direct(&mut dst, &mut irow);
    assert_eq!(dst, [2, 3]);
    assert_eq!(irow, [0, 0]);
}

#[test]
fn a_separate_alpha_plane_multiplies_the_same_way() {
    let mut plane = [200u8, 200, 200];
    multiply_row(&mut plane, &[255, 0, 128], false);
    assert_eq!(plane, [200, 0, 100]);
}

#[test]
fn halving_a_row_averages_pairs() {
    let src = [10u8, 20, 30, 40];
    let mut frow = [0u32; 2];
    let p = Import {
        num_channels: 1,
        src_width: 4,
        dst_width: 2,
        x_add: 4,
        x_sub: 2,
        fx_scale: frac(1, 2),
    };
    let mut irow = [0u32; 2];

    import_row_shrink(&mut frow, &src, p);
    accumulate(&mut irow, &frow);
    assert_eq!(frow, [(10 + 20) * 2, (30 + 40) * 2]);
}

#[test]
fn shrinking_keeps_channels_apart() {
    /* Two channels, two pixels into one. */
    let src = [1u8, 100, 3, 200];
    let mut frow = [0u32; 2];
    let p = Import {
        num_channels: 2,
        src_width: 2,
        dst_width: 1,
        x_add: 2,
        x_sub: 1,
        fx_scale: frac(1, 2),
    };
    import_row_shrink(&mut frow, &src, p);
    assert_eq!(frow, [1 + 3, 100 + 200]);
}

#[test]
fn doubling_a_row_interpolates() {
    let src = [10u8, 20];
    let mut frow = [0u32; 4];
    let p = Import {
        num_channels: 1,
        src_width: 2,
        dst_width: 4,
        x_add: 3,
        x_sub: 1,
        fx_scale: 0,
    };
    import_row_expand(&mut frow, &src, p);
    assert_eq!(frow, [30, 40, 50, 60]);
}

#[test]
fn expanding_one_pixel_repeats_it() {
    let src = [7u8];
    let mut frow = [0u32; 3];
    let p = Import {
        num_channels: 1,
        src_width: 1,
        dst_width: 3,
        x_add: 2,
        x_sub: 0,
        fx_scale: 0,
    };
    import_row_expand(&mut frow, &src, p);
    assert_eq!(frow, [14, 14, 14]);
}
