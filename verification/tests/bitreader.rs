use wpd::vp8l::bitreader::BitReader;

#[test]
fn bits_come_least_significant_first() {
    let buf = [0b1010_0110u8, 0xFF];
    let mut br = BitReader::new(&buf);
    assert_eq!(br.bits(&buf, 3), 0b110);
    assert_eq!(br.bits(&buf, 5), 0b10100);
    assert_eq!(br.bits(&buf, 4), 0xF);
    assert_eq!(br.pos, 12);
    assert!(!br.is_eos(&buf));
}

#[test]
fn a_read_spans_bytes() {
    let buf = [0xF0u8, 0x0F];
    let mut br = BitReader::new(&buf);
    assert_eq!(br.bits(&buf, 4), 0);
    assert_eq!(br.bits(&buf, 8), 0xFF);
}

#[test]
fn peeking_consumes_nothing() {
    let buf = [0x34u8, 0x12, 0, 0];
    let br = BitReader::new(&buf);
    assert_eq!(br.peek(&buf, 16), 0x1234);
    assert_eq!(br.pos, 0);
}

#[test]
fn past_the_end_reads_zero_and_marks_the_end() {
    let buf = [0xFFu8];
    let mut br = BitReader::new(&buf);
    assert_eq!(br.bits(&buf, 12), 0xFF);
    assert!(br.is_eos(&buf));
    assert_eq!(br.pos, 8);
    assert_eq!(br.bits(&buf, 1), 0);
}

#[test]
fn reading_exactly_to_the_end_is_not_the_end() {
    let buf = [0xAAu8];
    let mut br = BitReader::new(&buf);
    assert_eq!(br.bits(&buf, 8), 0xAA);
    assert!(!br.is_eos(&buf));
}

#[test]
fn more_than_24_bits_at_once_is_refused() {
    let buf = [0xFFu8; 8];
    let mut br = BitReader::new(&buf);
    assert_eq!(br.bits(&buf, 25), 0);
    assert!(br.is_eos(&buf));
    assert_eq!(br.pos, 0);
}

#[test]
fn a_single_bit() {
    let buf = [0b10u8];
    let mut br = BitReader::new(&buf);
    assert_eq!(br.bit(&buf), 0);
    assert_eq!(br.bit(&buf), 1);
}
