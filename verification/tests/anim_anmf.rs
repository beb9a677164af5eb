use wpd::anim::{anmf_advance, anmf_begin, anmf_place, AnimState};
use wpd::error::Error;
use wpd::image::Format;

fn header(x: u32, y: u32, w: u32, h: u32, duration: u32, flags: u8) -> [u8; 16] {
    let mut b = [0u8; 16];
    for (at, v) in [(0, x / 2), (3, y / 2), (6, w - 1), (9, h - 1), (12, duration)] {
        b[at] = v as u8;
        b[at + 1] = (v >> 8) as u8;
        b[at + 2] = (v >> 16) as u8;
    }
    b[15] = flags;
    b
}

#[test]
fn an_anmf_header_gives_the_frame_its_corner_size_and_duration() {
    let mut anim = AnimState::default();
    let h = header(4, 6, 10, 12, 40, 3);

    let r = anmf_begin(&mut anim, &h, 64, 64);

    assert_eq!(r, Ok((10, 12, 40)));
    assert_eq!((anim.pos_x, anim.pos_y, anim.anmf_flags), (4, 6, 3));
}

#[test]
fn a_frame_reaching_past_the_canvas_is_refused() {
    let mut anim = AnimState::default();
    let h = header(60, 0, 10, 10, 40, 0);

    assert_eq!(anmf_begin(&mut anim, &h, 64, 64), Err(Error::InvalidData));
    assert_eq!(anim.pos_x, 60);
}

#[test]
fn a_cut_short_anmf_header_is_refused_with_nothing_read() {
    let mut anim = AnimState::default();

    assert_eq!(anmf_begin(&mut anim, &[0u8; 15], 64, 64), Err(Error::InvalidData));
    assert_eq!(anim.pos_x, 0);
}

#[test]
fn the_first_frame_is_a_key_frame_and_composites_in_planar_form() {
    let mut anim = AnimState::default();

    let r = anmf_place(&mut anim, 64, 64, true, 16, 16, Format::Yuv420p, false, true);

    assert_eq!(r, Ok(Format::Yuva420p));
    assert!(anim.key_frame);
    assert!(anim.frame_has_alpha);
}

#[test]
fn a_blended_frame_over_an_argb_canvas_composites_in_argb() {
    let mut anim = AnimState { frame_index: 1, pos_x: 4, pos_y: 4, ..AnimState::default() };

    let r = anmf_place(&mut anim, 64, 64, true, 16, 16, Format::Yuv420p, false, true);

    assert_eq!(r, Ok(Format::Argb));
    assert!(!anim.key_frame);
}

#[test]
fn a_decoded_image_too_large_for_its_place_is_refused() {
    let mut anim = AnimState { frame_index: 1, pos_x: 60, ..AnimState::default() };

    assert_eq!(anmf_place(&mut anim, 64, 64, false, 16, 16, Format::Argb, false, false), Err(Error::InvalidData));
}

#[test]
fn a_composited_frame_becomes_the_previous_one() {
    let mut anim = AnimState { frame_index: 2, pos_x: 4, pos_y: 6, anmf_flags: 1, key_frame: true, ..AnimState::default() };

    let t = anmf_advance(&mut anim, 10, 12, 80, 40);

    assert_eq!(t, 120);
    assert_eq!(anim.frame_index, 3);
    assert_eq!((anim.prev_pos_x, anim.prev_pos_y, anim.prev_width, anim.prev_height), (4, 6, 10, 12));
    assert_eq!(anim.prev_anmf_flags, 1);
    assert!(anim.prev_key_frame);
}
