use wpd::anim::{regions, AnimState, Placement, Region};
use wpd::container::{ANMF_FLAG_DISPOSE, ANMF_FLAG_NO_BLEND};

fn on_canvas(frame: AnimState) -> Placement {
    Placement {
        canvas_width: 64,
        canvas_height: 64,
        frame,
    }
}

fn place() -> Placement {
    on_canvas(state())
}

fn state() -> AnimState {
    AnimState {
        frame_index: 1,
        ..AnimState::default()
    }
}

#[test]
fn the_first_frame_is_always_a_key_frame() {
    let p = on_canvas(AnimState {
        frame_index: 0,
        ..state()
    });

    assert!(p.is_key_frame(1, 1));
}

#[test]
fn a_full_opaque_frame_at_the_origin_is_a_key_frame() {
    let p = on_canvas(AnimState {
        frame_has_alpha: false,
        ..state()
    });

    assert!(p.is_key_frame(64, 64));
    assert!(!p.is_key_frame(63, 64));

    let p = on_canvas(AnimState {
        frame_has_alpha: true,
        ..state()
    });

    assert!(!p.is_key_frame(64, 64));

    let p = on_canvas(AnimState {
        frame_has_alpha: true,
        anmf_flags: ANMF_FLAG_NO_BLEND,
        ..state()
    });

    assert!(p.is_key_frame(64, 64));
}

#[test]
fn a_frame_after_a_full_dispose_is_a_key_frame() {
    let p = on_canvas(AnimState {
        frame_has_alpha: true,
        prev_anmf_flags: ANMF_FLAG_DISPOSE,
        prev_width: 64,
        prev_height: 64,
        ..state()
    });

    assert!(p.is_key_frame(10, 10));

    let p = on_canvas(AnimState {
        prev_width: 10,
        prev_height: 10,
        ..p.frame
    });

    assert!(!p.is_key_frame(10, 10));
    assert!(on_canvas(AnimState {
        prev_key_frame: true,
        ..p.frame
    })
    .is_key_frame(10, 10));
}

#[test]
fn a_key_frame_is_copied_whole() {
    let mut out = [Region {
        x: 0,
        y: 0,
        w: 0,
        h: 0,
        blend: false,
    }; 5];
    let p = on_canvas(AnimState {
        key_frame: true,
        ..state()
    });

    assert_eq!(regions(&p, 8, 8, true, false, &mut out), 1);
    assert!(!out[0].blend);
    assert_eq!((out[0].w, out[0].h), (8, 8));
}

#[test]
fn a_frame_with_no_alpha_plane_cannot_blend() {
    let mut out = [Region {
        x: 0,
        y: 0,
        w: 0,
        h: 0,
        blend: false,
    }; 5];

    assert_eq!(regions(&place(), 8, 8, false, false, &mut out), 1);
    assert!(!out[0].blend);
}

#[test]
fn without_a_dispose_behind_it_the_whole_frame_blends() {
    let mut out = [Region {
        x: 0,
        y: 0,
        w: 0,
        h: 0,
        blend: false,
    }; 5];

    assert_eq!(regions(&place(), 8, 8, true, false, &mut out), 1);
    assert!(out[0].blend);
}

#[test]
fn the_five_regions_tile_the_frame_exactly() {
    let mut out = [Region {
        x: 0,
        y: 0,
        w: 0,
        h: 0,
        blend: false,
    }; 5];
    let p = on_canvas(AnimState {
        prev_anmf_flags: ANMF_FLAG_DISPOSE,
        pos_x: 4,
        pos_y: 6,
        prev_pos_x: 6,
        prev_pos_y: 8,
        prev_width: 10,
        prev_height: 10,
        ..state()
    });
    let (w, h) = (12, 14);

    assert_eq!(regions(&p, w, h, true, false, &mut out), 5);

    let mut hits = vec![0u8; (w * h) as usize];

    for r in &out {
        for y in r.y..r.y + r.h {
            for x in r.x..r.x + r.w {
                assert!((0..w).contains(&x) && (0..h).contains(&y));
                hits[(y * w + x) as usize] += 1;
            }
        }
    }
    assert!(hits.iter().all(|&n| n == 1));
    assert!(!out[4].blend);
    assert!(out[..4].iter().all(|r| r.blend));
}

#[test]
fn a_planar_overlap_too_thin_to_align_blends_instead() {
    let mut out = [Region {
        x: 0,
        y: 0,
        w: 0,
        h: 0,
        blend: false,
    }; 5];
    let p = on_canvas(AnimState {
        prev_anmf_flags: ANMF_FLAG_DISPOSE,
        prev_pos_x: 7,
        prev_width: 1,
        prev_height: 64,
        ..state()
    });

    assert_eq!(regions(&p, 32, 32, true, true, &mut out), 1);
    assert!(out[0].blend);
    assert_eq!(regions(&p, 32, 32, true, false, &mut out), 5);
}

#[test]
fn a_disjoint_previous_frame_leaves_nothing_to_keep() {
    let mut out = [Region {
        x: 0,
        y: 0,
        w: 0,
        h: 0,
        blend: false,
    }; 5];
    let p = on_canvas(AnimState {
        prev_anmf_flags: ANMF_FLAG_DISPOSE,
        prev_pos_x: 40,
        prev_pos_y: 40,
        prev_width: 8,
        prev_height: 8,
        ..state()
    });

    assert_eq!(regions(&p, 8, 8, true, false, &mut out), 1);
    assert!(out[0].blend);
}
