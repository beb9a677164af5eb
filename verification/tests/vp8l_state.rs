use wpd::error::Error;
use wpd::vp8l::state::{grow, Picture, Transform, PADDING};

#[test]
fn a_transform_is_named_by_its_two_bit_code() {
    assert_eq!(Transform::from_bits(0), Transform::Predictor);
    assert_eq!(Transform::from_bits(1), Transform::Color);
    assert_eq!(Transform::from_bits(2), Transform::SubtractGreen);
    assert_eq!(Transform::from_bits(3), Transform::ColorIndexing);
}

#[test]
fn a_picture_is_sized_with_its_padding_and_zeroed() {
    let mut p = Picture::default();

    assert_eq!(p.allocate(3, 2), Ok(()));
    assert_eq!(p.data.len(), 6 + PADDING);
    assert!(p.data.iter().all(|&v| v == 0));
    assert_eq!((p.stride, p.width, p.height), (3, 3, 2));
}

#[test]
fn a_smaller_picture_reuses_the_buffer_and_clears_only_its_part() {
    let mut p = Picture::default();

    assert_eq!(p.allocate(4, 4), Ok(()));
    for v in p.data.iter_mut() {
        *v = 7;
    }
    assert_eq!(p.allocate(1, 1), Ok(()));
    assert_eq!(p.data.len(), 16 + PADDING);
    assert!(p.data[..1 + PADDING].iter().all(|&v| v == 0));
    assert!(p.data[1 + PADDING..].iter().all(|&v| v == 7));
    assert_eq!((p.stride, p.width, p.height), (1, 1, 1));
}

#[test]
fn an_empty_picture_is_refused_as_too_large() {
    let mut p = Picture::default();

    assert_eq!(p.allocate(0, 5), Err(Error::TooLarge));
    assert_eq!(p.allocate(5, -1), Err(Error::TooLarge));
    assert_eq!(p.data.len(), 0);

    assert_eq!(p.allocate(2, 2), Ok(()));
    p.release();
    assert_eq!((p.data.len(), p.stride, p.width, p.height), (0, 0, 0, 0));
}

#[test]
fn growing_fills_only_the_new_entries() {
    let mut v = vec![1u16, 2];

    assert_eq!(grow(&mut v, 5, 9), Ok(()));
    assert_eq!(v, [1, 2, 9, 9, 9]);
    assert_eq!(grow(&mut v, 3, 0), Ok(()));
    assert_eq!(v, [1, 2, 9, 9, 9]);
}
