use wpd::container::{get_info, Coding, Scan};
use wpd::error::Error;

fn riff(payload: &[u8]) -> Vec<u8> {
    let mut file = Vec::new();

    file.extend_from_slice(b"RIFF");
    file.extend_from_slice(&(payload.len() as u32 + 4).to_le_bytes());
    file.extend_from_slice(b"WEBP");
    file.extend_from_slice(payload);
    file
}

fn chunk(tag: &[u8; 4], body: &[u8]) -> Vec<u8> {
    let mut out = Vec::new();

    out.extend_from_slice(tag);
    out.extend_from_slice(&(body.len() as u32).to_le_bytes());
    out.extend_from_slice(body);
    if body.len() & 1 != 0 {
        out.push(0);
    }
    out
}

fn vp8l_header(w: u32, h: u32, alpha: bool) -> Vec<u8> {
    let bits = (w - 1) | (h - 1) << 14 | u32::from(alpha) << 28;
    let mut body = vec![0x2f];

    body.extend_from_slice(&bits.to_le_bytes());
    body
}

#[test]
fn a_lossless_still_reports_its_own_size() {
    let file = riff(&chunk(b"VP8L", &vp8l_header(17, 5, true)));
    let info = get_info(&file).unwrap();

    assert_eq!((info.width, info.height), (17, 5));
    assert!(info.has_alpha);
    assert_eq!(info.coding, Coding::Lossless);
    assert_eq!(info.frame_count, 1);
    assert!(!info.animation);
}

#[test]
fn something_that_is_not_a_webp_says_so() {
    assert_eq!(get_info(b"not a webp file at all"), Err(Error::NotWebp));
}

#[test]
fn a_riff_header_alone_is_merely_truncated() {
    assert_eq!(get_info(b"RIFF\0\0\0\0"), Err(Error::Truncated));
}

#[test]
fn metadata_is_found_by_tag_as_well_as_by_flag() {
    let mut payload = chunk(b"VP8X", &[0x28, 0, 0, 0, 16, 0, 0, 16, 0, 0]);

    payload.extend_from_slice(&chunk(b"VP8L", &vp8l_header(17, 17, false)));
    payload.extend_from_slice(&chunk(b"EXIF", b"exif"));
    let info = get_info(&riff(&payload)).unwrap();

    assert_eq!(info.metadata, 0b111 & !0b100);
    assert_eq!(info.meta_size[1], 4);
    assert_ne!(info.meta_offset[1], 0);
    assert_eq!(info.meta_offset[0], 0);
}

#[test]
fn a_stream_delivered_in_pieces_scans_once() {
    let mut payload = chunk(b"VP8X", &[0x02, 0, 0, 0, 16, 0, 0, 16, 0, 0]);

    payload.extend_from_slice(&chunk(b"ANIM", &[0, 0, 0, 0xff, 3, 0]));
    for _ in 0..4 {
        let mut anmf = vec![0u8; 16];

        anmf[6] = 15;
        anmf[9] = 15;
        anmf[12] = 40;
        anmf.extend_from_slice(&chunk(b"VP8L", &vp8l_header(16, 16, false)));
        payload.extend_from_slice(&chunk(b"ANMF", &anmf));
    }
    let file = riff(&payload);
    let mut scan = Scan::new();

    for split in 1..file.len() {
        let _ = scan.headers(&file[..split], 0, true, true);
    }
    scan.headers(&file, 0, false, true).unwrap();

    assert!(scan.info().animation);
    assert_eq!(scan.info().frame_count, 4);
    assert_eq!(scan.info().loop_count, 3);
    assert_eq!(scan.info().background_argb, 0xff00_0000);
    for i in 0..4 {
        let frame = scan.frame(i).unwrap();

        assert_eq!((frame.width, frame.height), (16, 16));
        assert_eq!(frame.duration, 40);
        assert!(frame.complete);
    }
    assert!(scan.frame(4).is_none());
}

#[test]
fn a_chunk_declaring_more_than_arrived_reads_only_what_is_there() {
    let mut payload = chunk(b"VP8L", &vp8l_header(17, 5, false));

    payload[4] = 0xff;
    payload[5] = 0xff;
    let file = riff(&payload);

    let mut scan = Scan::new();

    scan.headers(&file, 0, true, true).unwrap();
    assert_eq!((scan.info().width, scan.info().height), (17, 5));
    assert!(scan.info().truncated);

    let mut scan = Scan::new();

    assert_eq!(scan.headers(&file, 0, false, true), Err(Error::Truncated));
}

#[test]
fn every_prefix_of_every_test_file_is_scanned_without_panicking() {
    let mut payload = chunk(b"VP8X", &[0x12, 0, 0, 0, 16, 0, 0, 16, 0, 0]);

    payload.extend_from_slice(&chunk(b"ANIM", &[0, 0, 0, 0xff, 3, 0]));
    payload.extend_from_slice(&chunk(b"ALPH", &[0, 1, 2]));
    payload.extend_from_slice(&chunk(b"VP8L", &vp8l_header(16, 16, true)));
    payload.extend_from_slice(&chunk(b"XMP ", b"xmp"));
    let mut file = riff(&payload);

    for split in 0..file.len() {
        let _ = get_info(&file[..split]);
    }
    for i in 0..file.len() {
        let saved = file[i];

        for byte in [0x00u8, 0x01, 0x7f, 0x80, 0xff] {
            file[i] = byte;
            let _ = get_info(&file);
        }
        file[i] = saved;
    }
}
