use wpd::bits::{quad, rl16, rl24, rl32};

#[test]
fn reads_are_little_endian() {
    let b = [0x78, 0x56, 0x34, 0x12];

    assert_eq!(rl16(&b), 0x5678);
    assert_eq!(rl24(&b), 0x345678);
    assert_eq!(rl32(&b), 0x12345678);
}

#[test]
fn a_quad_past_the_end_reads_as_zero() {
    let b = [1, 2];

    assert_eq!(quad(&b, 0), [1, 2, 0, 0]);
    assert_eq!(quad(&b, 1), [2, 0, 0, 0]);
    assert_eq!(quad(&b, 2), [0; 4]);
    assert_eq!(quad(&b, 99), [0; 4]);
}
