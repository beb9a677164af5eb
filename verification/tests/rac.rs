use wpd::vp8::rac::RangeCoder;

#[test]
fn an_empty_buffer_reports_overrun_rather_than_reading() {
    let buf: [u8; 0] = [];
    let mut c = RangeCoder::start(&buf, 0, 0);

    for _ in 0..64 {
        c.get(&buf);
    }
    assert!(c.overran());
}

#[test]
fn a_uniform_stream_decodes_its_own_bits() {
    // 0x00 repeated keeps every equiprobable bit at zero; 0xff at one.
    let zeros = [0u8; 32];
    let ones = [0xffu8; 32];
    let mut a = RangeCoder::start(&zeros, 0, zeros.len());
    let mut b = RangeCoder::start(&ones, 0, ones.len());

    assert_eq!(a.get_uint(&zeros, 16), 0);
    assert_eq!(b.get_uint(&ones, 16), 0xffff);
}

#[test]
fn a_tree_walk_ends_on_a_leaf() {
    let buf = [0u8; 16];
    let tree = [[-1i8, 1], [-2, -3]];
    let probs = [128u8, 128];
    let mut c = RangeCoder::start(&buf, 0, buf.len());

    assert_eq!(c.get_tree(&buf, &tree, &probs), 1);
}

#[test]
fn the_branchy_and_plain_reads_agree() {
    let buf = [0x5au8, 0xc3, 0x17, 0x99, 0x00, 0xff, 0x42, 0x81, 0x3c, 0x66, 0x12, 0xe7];
    let mut a = RangeCoder::start(&buf, 0, buf.len());
    let mut b = RangeCoder::start(&buf, 0, buf.len());

    for i in 0..80u32 {
        let prob = (i * 37 % 255) as u8;
        let x = a.get_prob(&buf, prob);
        let y = b.get_prob_branchy(&buf, prob);
        assert_eq!(x == 1, y);
    }
}

#[test]
fn a_clear_flag_reads_as_zero_and_the_sign_follows_the_stream() {
    let zeros = [0u8; 16];
    let ones = [0xffu8; 16];
    let mut a = RangeCoder::start(&zeros, 0, zeros.len());
    let mut b = RangeCoder::start(&ones, 0, ones.len());

    assert_eq!(a.get_sint(&zeros, 4), 0);
    assert_eq!(b.get_sint(&ones, 4), -15);
    assert_eq!(a.get_signed(&zeros, 7), 7);
    assert_eq!(a.get_coeff(&zeros, &[200, 10, 0, 5]), 0);
}

#[test]
fn extending_the_window_lets_a_stream_read_on() {
    let buf = [0xffu8; 32];
    let mut c = RangeCoder::new(0, 2);
    c.prime(&buf);
    assert_eq!(c.end(), 2);
    c.extend(32);
    assert_eq!(c.end(), 32);
    assert_eq!(c.get_uint(&buf, 8), 0xff);
    assert!(!c.overran());
}
