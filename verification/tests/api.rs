use wpd::api::{info, metadata_bit, version, Animation, Metadata};
use wpd::error::Error;

#[test]
fn api_what_is_not_a_webp_file_is_told_apart_from_a_damaged_one() {
    assert_eq!(info(b"not a webp file at all").unwrap_err(), Error::NotWebp);
}

#[test]
fn what_is_not_a_webp_file_is_told_apart_from_a_damaged_one() {
    assert_eq!(info(b"not a webp file at all").unwrap_err(), Error::NotWebp);
}

#[test]
fn a_riff_header_on_its_own_is_only_truncated() {
    assert_eq!(info(b"RIFF\0\0\0\0").unwrap_err(), Error::Truncated);
    assert_eq!(info(b"").unwrap_err(), Error::Truncated);
}

#[test]
fn the_version_and_the_setting_names() {
    assert_eq!(version(), "0.1.0");
    assert_eq!(Animation::default(), Animation::Composited);
    assert_eq!(metadata_bit(Metadata::Iccp), 1);
    assert_eq!(metadata_bit(Metadata::Exif), 2);
    assert_eq!(metadata_bit(Metadata::Xmp), 4);
}
