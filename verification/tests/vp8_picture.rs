use wpd::dsp::vp8pred::{DC_128_PRED8X8, DC_PRED8X8, LEFT_DC_PRED8X8, PLANE_PRED8X8, TOP_DC_PRED8X8};
use wpd::vp8::{check_intra_pred8x8_mode, Picture, Plane, ALIGN, PLANE_COL_PAD, PLANE_ROW_PAD};

#[test]
fn every_plane_starts_aligned_and_has_room_for_its_borders() {
    let mut pic = Picture::default();

    pic.allocate(17, 9).unwrap();

    for p in 0..3 {
        let g = pic.planes[p];
        let data = pic.plane(p);
        let rows = if p == 0 { 9 } else { 5 };

        assert_eq!((data.as_ptr() as usize + g.origin - PLANE_COL_PAD) % ALIGN, 0);
        assert!(g.origin >= PLANE_ROW_PAD * g.stride + PLANE_COL_PAD);
        assert!(data.len() >= g.at(0, rows - 1) + 32 * g.stride);
    }
}

/// One allocation, three disjoint plane slices: what plane `p` hands out
/// must not reach into plane `p + 1`.
#[test]
fn the_planes_do_not_overlap() {
    let mut pic = Picture::default();

    pic.allocate(64, 64).unwrap();

    for p in 0..2 {
        let end = pic.planes[p].base + pic.planes[p].len;

        assert!(end <= pic.planes[p + 1].base);
    }
    assert!(pic.planes[2].base + pic.planes[2].len <= pic.data.len());
}

/// A frame that shrinks reuses the block, and must not be handed the
/// previous frame's samples with it.
#[test]
fn laying_the_planes_out_again_starts_from_zero() {
    let mut pic = Picture::default();

    pic.allocate(64, 64).unwrap();

    let was = pic.data.as_ptr() as usize;

    for p in 0..3 {
        let g = pic.planes[p];

        pic.data[g.base + g.at(0, 0)] = 0xff;
    }
    pic.invalidate();
    assert!(!pic.allocated());
    pic.allocate(32, 32).unwrap();
    assert_eq!(pic.data.as_ptr() as usize, was, "the block was replaced");
    for p in 0..3 {
        assert_eq!(pic.plane(p)[pic.planes[p].at(0, 0)], 0);
    }
}

#[test]
fn a_stride_never_lands_on_a_cache_way_boundary() {
    for width in [960, 1984, 4032] {
        assert_ne!(Plane::stride_for(width) % 1024, 0);
    }
}

#[test]
fn the_chroma_planes_round_an_odd_size_up() {
    let mut p = Picture::default();

    p.allocate(17, 9).unwrap();

    assert!(p.plane(1).len() >= p.planes[1].at(8, 4));
    assert_eq!(p.planes[1].stride, p.planes[2].stride);
}

#[test]
fn a_dc_only_prediction_mode_falls_back_at_the_frame_edges() {
    assert_eq!(check_intra_pred8x8_mode(DC_PRED8X8, 0, 0), DC_128_PRED8X8);
    assert_eq!(check_intra_pred8x8_mode(DC_PRED8X8, 0, 1), TOP_DC_PRED8X8);
    assert_eq!(check_intra_pred8x8_mode(DC_PRED8X8, 1, 0), LEFT_DC_PRED8X8);
    assert_eq!(check_intra_pred8x8_mode(DC_PRED8X8, 1, 1), DC_PRED8X8);
    assert_eq!(check_intra_pred8x8_mode(PLANE_PRED8X8, 0, 0), PLANE_PRED8X8);
}

#[test]
fn strides_are_aligned_and_leave_room_for_the_left_border() {
    assert_eq!(Plane::stride_for(0), 64);
    assert_eq!(Plane::stride_for(1), 128);
    assert_eq!(Plane::stride_for(64), 128);
    assert_eq!(Plane::stride_for(960), 1088);
}
