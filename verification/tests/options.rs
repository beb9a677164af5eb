use wpd::options::Options;

#[test]
fn only_the_geometry_counts_as_a_transform() {
    let mut o = Options::default();

    assert!(!o.transforms());
    o.bypass_filtering = true;
    o.no_fancy_upsampling = true;
    assert!(!o.transforms());
    o.flip = true;
    assert!(o.transforms());
}

#[test]
fn a_crop_replaces_the_whole_picture_and_nothing_else_does() {
    let mut o = Options::default();

    assert_eq!(o.crop_or(8, 6), (0, 0, 8, 6));
    o.crop = Some((1, 2, 3, 4));
    assert_eq!(o.crop_or(8, 6), (1, 2, 3, 4));
}
