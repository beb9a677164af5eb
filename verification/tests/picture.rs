use wpd::image::Format;
use wpd::picture::{planes_of, Buffer, Frame, FrameMut, PlaneMut, PlaneRef};

#[test]
fn a_packed_buffer_has_one_plane_and_the_rest_are_empty() {
    let mut buf = Buffer::default();

    buf.alloc_packed(3, 2, 4, Format::Argb).unwrap();
    assert_eq!(buf.frame().row(0, 0).len(), 12);
    assert!(buf.frame().plane[1].is_empty());
    assert_eq!(buf.width, 3);
    assert_eq!(buf.height, 2);
}

#[test]
fn a_planar_buffer_rounds_its_chroma_up() {
    let mut buf = Buffer::default();

    buf.alloc_planar(5, 3, true).unwrap();

    let f = buf.frame();

    assert_eq!(f.row_len(0), 5);
    assert_eq!(f.rows(0), 3);
    assert_eq!(f.row_len(1), 3);
    assert_eq!(f.rows(1), 2);
    assert_eq!(f.row_len(3), 5);
}

/// A flip is a reading order, not a rewrite: the same bytes come out in
/// the opposite order and nothing has moved.
#[test]
fn flipping_reverses_the_rows_and_flipping_twice_restores_them() {
    let mut buf = Buffer::default();

    buf.alloc_packed(1, 3, 4, Format::Argb).unwrap();
    for y in 0..3 {
        buf.frame_mut().row(0, y)[0] = y as u8;
    }

    let f = buf.frame();

    assert_eq!(f.row(0, 0)[0], 0);
    assert_eq!(f.flipped().row(0, 0)[0], 2);
    assert_eq!(f.flipped().row(0, 2)[0], 0);
    assert_eq!(f.flipped().flipped().row(0, 0)[0], 0);
}

#[test]
fn a_window_moves_the_origin_and_keeps_the_stride() {
    let mut buf = Buffer::default();

    buf.alloc_packed(4, 4, 4, Format::Argb).unwrap();
    buf.frame_mut().row(0, 2)[8] = 0x5a;

    let w = buf.frame().window(2, 2, 2, 2);

    assert_eq!(w.width, 2);
    assert_eq!(w.row(0, 0)[0], 0x5a);
}

/// A released buffer can be allocated into again.
#[test]
fn a_released_buffer_can_be_allocated_again() {
    let mut buf = Buffer::default();

    buf.alloc_argb(2, 2).unwrap();
    buf.release();
    assert!(buf.is_empty());
    buf.alloc_argb(4, 4).unwrap();
    assert_eq!(buf.frame().row(0, 3).len(), 16);
}

/// Reuse must not hand back a row of the previous frame's pixels.
#[test]
fn shrinking_and_growing_again_still_starts_from_zero() {
    let mut buf = Buffer::default();

    buf.alloc_argb(8, 8).unwrap();
    buf.frame_mut().row(0, 0)[0] = 0xff;
    buf.alloc_argb(2, 2).unwrap();
    assert_eq!(buf.frame().row(0, 0)[0], 0);
}

#[test]
fn a_size_that_is_not_positive_is_refused_and_changes_nothing() {
    let mut buf = Buffer::default();

    assert!(buf.alloc_packed(0, 4, 4, Format::Rgb).is_err());
    assert!(buf.alloc_planar(4, -1, true).is_err());
    assert!(buf.is_empty());
    assert_eq!(buf.format, None);
}

#[test]
fn the_planar_formats_hand_out_more_than_one_plane() {
    assert_eq!(planes_of(Format::Yuva420p), 4);
    assert_eq!(planes_of(Format::Yuv420p), 3);
    assert_eq!(planes_of(Format::Rgb565), 1);
}

#[test]
fn borrowed_planes_read_and_write_the_callers_memory() {
    let data = [1u8, 2, 3, 4, 5, 6];
    let r = PlaneRef::borrowed(&data, 3);
    assert_eq!(r.stride(), 3);
    assert_eq!(r.row(1, 1, 2), &[5, 6]);
    let f = Frame::packed(&data, 3, 3, 2, Format::Rgb565);
    assert_eq!(f.row_len(0), 6);

    let mut store = [0u8; 8];
    {
        let mut m = PlaneMut::borrowed(&mut store, 4);
        m.row_mut(1, 0, 4).copy_from_slice(&[9, 8, 7, 6]);
        assert_eq!(m.row(1, 2, 2), &[7, 6]);
    }
    assert_eq!(store, [0, 0, 0, 0, 9, 8, 7, 6]);
}

#[test]
fn a_row_pair_writes_two_chroma_planes_at_once() {
    let mut buf = Buffer::default();

    buf.alloc_planar(4, 4, true).unwrap();
    {
        let mut f: FrameMut = buf.frame_mut();
        let (u, v) = f.row_pair(1, 2, 1);
        u[0] = 11;
        v[1] = 22;
    }
    let f = buf.frame();
    assert_eq!(f.row(1, 1)[0], 11);
    assert_eq!(f.row(2, 1)[1], 22);
    assert_eq!(f.row(1, 0), &[0, 0]);
}
