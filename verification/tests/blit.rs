use wpd::blit::{blend_argb, clear, copy_argb, copy_yuva, has_alpha_plane, Rect};
use wpd::image::Format;
use wpd::picture::Buffer;

fn argb(w: i32, h: i32, fill: u8) -> Buffer {
    let mut buf = Buffer::default();

    buf.alloc_argb(w, h).unwrap();
    for y in 0..h {
        buf.frame_mut().row(0, y).fill(fill);
    }
    buf
}

#[test]
fn copying_lands_the_rectangle_at_the_destination_corner() {
    let src = argb(4, 4, 0x11);
    let mut dst = argb(8, 8, 0x22);

    copy_argb(&mut dst.frame_mut(), &src.frame(), Rect { x: 0, y: 0, w: 2, h: 2 }, 3, 5);

    let f = dst.frame();

    assert_eq!(f.row(0, 5)[3 * 4], 0x11);
    assert_eq!(f.row(0, 6)[4 * 4], 0x11);
    assert_eq!(f.row(0, 4)[3 * 4], 0x22, "the row above is untouched");
    assert_eq!(f.row(0, 5)[2 * 4], 0x22, "the column left is untouched");
    assert_eq!(f.row(0, 5)[5 * 4], 0x22, "and the column right");
}

/// A fully opaque source replaces the destination; a fully transparent one
/// leaves it alone.
#[test]
fn blending_respects_the_two_extremes_of_alpha() {
    let mut src = argb(2, 1, 0x40);
    let mut dst = argb(2, 1, 0x80);

    src.frame_mut().row(0, 0)[0] = 255;
    src.frame_mut().row(0, 0)[4] = 0;

    blend_argb(false, &mut dst.frame_mut(), &src.frame(), Rect { x: 0, y: 0, w: 2, h: 1 }, 0, 0);

    let f = dst.frame();
    let row = f.row(0, 0);

    assert_eq!(&row[..4], &[255, 0x40, 0x40, 0x40]);
    assert_eq!(&row[4..8], &[0x80, 0x80, 0x80, 0x80]);
}

#[test]
fn a_source_without_alpha_leaves_the_destination_opaque() {
    let mut src = Buffer::default();

    src.alloc_planar(2, 2, true).unwrap();
    src.format = Some(Format::Yuv420p);

    let mut dst = Buffer::default();

    dst.alloc_planar(2, 2, true).unwrap();
    dst.frame_mut().row(3, 0).fill(7);

    copy_yuva(&mut dst.frame_mut(), &src.frame(), Rect { x: 0, y: 0, w: 2, h: 2 }, 0, 0);
    assert_eq!(dst.frame().row(3, 0), &[255, 255]);
}

#[test]
fn clearing_fills_only_the_rectangle() {
    let mut dst = argb(4, 4, 0x22);

    clear(&mut dst.frame_mut(), true, [1, 2, 3, 4], Rect { x: 1, y: 1, w: 2, h: 2 });

    let f = dst.frame();

    assert_eq!(&f.row(0, 1)[4..8], &[1, 2, 3, 4]);
    assert_eq!(&f.row(0, 0)[4..8], &[0x22; 4]);
    assert_eq!(&f.row(0, 1)[..4], &[0x22; 4]);
    assert_eq!(&f.row(0, 1)[12..16], &[0x22; 4]);
}

#[test]
fn clearing_a_planar_canvas_halves_the_chroma_rectangle() {
    let mut dst = Buffer::default();

    dst.alloc_planar(4, 4, true).unwrap();
    clear(&mut dst.frame_mut(), false, [16, 128, 129, 255], Rect { x: 2, y: 2, w: 2, h: 2 });

    let f = dst.frame();
    assert_eq!(f.row(0, 2), &[0, 0, 16, 16]);
    assert_eq!(f.row(0, 1), &[0, 0, 0, 0]);
    assert_eq!(f.row(1, 1), &[0, 128]);
    assert_eq!(f.row(2, 1), &[0, 129]);
    assert_eq!(f.row(3, 3), &[0, 0, 255, 255]);
}

#[test]
fn only_the_bare_yuv_format_has_no_alpha_plane() {
    assert!(!has_alpha_plane(Format::Yuv420p));
    assert!(has_alpha_plane(Format::Yuva420p));
    assert!(has_alpha_plane(Format::Argb));
}
