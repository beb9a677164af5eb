use wpd::error::Error;
use wpd::vp8l::bitreader::BitReader;
use wpd::vp8l::huffman::{build, count_lengths, read_normal_code, read_simple_code, Plan, Reader};

fn build_from(lengths: &[u8]) -> Option<(Vec<u32>, Reader)> {
    let mut arena = Vec::new();
    let mut plan = Plan::default();
    let mut sorted = vec![0u16; lengths.len()];

    count_lengths(&mut plan, lengths);
    build(&mut arena, &mut plan, lengths, &mut sorted)
        .ok()
        .map(|r| (arena, r))
}

#[test]
fn a_single_symbol_needs_no_bits() {
    let (arena, reader) = build_from(&[0, 1, 0, 0]).unwrap();
    let tree = reader.tree(&arena);
    let buf = [0u8; 8];
    let mut br = BitReader::new(&buf);

    assert_eq!(tree.read(&mut br, &buf), 1);
    assert_eq!(tree.only_symbol(), 1);
}

#[test]
fn an_over_subscribed_code_is_rejected() {
    assert!(build_from(&[1, 1, 1]).is_none());
}

#[test]
fn an_incomplete_code_is_rejected() {
    assert!(build_from(&[1, 2, 0, 0]).is_none());
}

#[test]
fn a_balanced_code_round_trips() {
    let (arena, reader) = build_from(&[1, 2, 3, 3]).unwrap();
    let tree = reader.tree(&arena);
    /* Canonical codes, bit-reversed: 0 -> 0, 1 -> 01, 2 -> 011, 3 -> 111. */
    let buf = [0b0111_1010u8, 0b0000_0001, 0, 0, 0, 0, 0, 0];
    let mut br = BitReader::new(&buf);

    assert_eq!(tree.read(&mut br, &buf), 0);
    assert_eq!(tree.read(&mut br, &buf), 1);
    assert_eq!(tree.read(&mut br, &buf), 3);
}

#[test]
fn the_single_symbol_reader_consumes_nothing() {
    let (arena, reader) = build_from(&[0, 1, 0, 0]).unwrap();
    let tree = reader.tree(&arena);
    let buf = [0xFFu8; 4];
    let mut br = BitReader::new(&buf);

    assert_eq!(tree.read(&mut br, &buf), 1);
    assert_eq!(br.pos, 0);
    assert_eq!(reader.mask, 0);
    assert_eq!(reader.len, 1);
}

#[test]
fn a_code_with_no_symbols_is_rejected() {
    assert!(build_from(&[0, 0, 0]).is_none());
}

#[test]
fn lengths_count_by_their_low_four_bits() {
    let mut plan = Plan::default();
    count_lengths(&mut plan, &[1, 17, 2, 0, 15, 31]);
    assert_eq!(plan.count[1], 2);
    assert_eq!(plan.count[2], 1);
    assert_eq!(plan.count[0], 1);
    assert_eq!(plan.count[15], 2);
}

#[test]
fn a_histogram_that_disagrees_with_the_list_is_rejected() {
    let lengths = [1u8, 1, 0];
    let mut plan = Plan::default();
    plan.count[1] = 1;
    plan.count[2] = 2;
    let mut arena = Vec::new();
    let mut sorted = vec![0u16; 3];
    let r = build(&mut arena, &mut plan, &lengths, &mut sorted);
    assert_eq!(r.err(), Some(Error::InvalidData));
    assert!(arena.is_empty());
}

#[test]
fn the_arena_grows_by_the_table_and_keeps_what_was_there() {
    let lengths = [2u8, 2, 2, 2];
    let mut plan = Plan::default();
    let mut arena = vec![7u32, 9];
    let mut sorted = vec![0u16; 4];
    count_lengths(&mut plan, &lengths);
    let reader = build(&mut arena, &mut plan, &lengths, &mut sorted).unwrap();
    assert_eq!(reader.start, 2);
    assert_eq!(reader.len, 4);
    assert_eq!(reader.mask, 3);
    assert_eq!(arena.len(), 6);
    assert_eq!(&arena[..2], &[7, 9]);
    assert_eq!(sorted, vec![0, 1, 2, 3]);
}

#[test]
fn long_codes_reach_a_second_level_table() {
    /* Twelve symbols: lengths 1, 2, ..., 9 and then three of length 10 would
    over-subscribe, so use 1..=9 with two codes of length 10 and one of 9. */
    let lengths = [1u8, 2, 3, 4, 5, 6, 7, 8, 10, 10, 9];
    let (arena, reader) = build_from(&lengths).unwrap();
    assert_eq!(reader.mask, 255);
    assert!(arena.len() > 256);
    let tree = reader.tree(&arena);
    /* Symbol 0 has the one-bit code 0. */
    let buf = [0u8; 8];
    let mut br = BitReader::new(&buf);
    assert_eq!(tree.read(&mut br, &buf), 0);
    assert_eq!(br.pos, 1);
}

#[test]
fn a_simple_code_marks_its_two_symbols() {
    /* One bit: two symbols; one bit: eight-bit first symbol; 5; then 200. */
    let bits: u32 = 1 | 1 << 1 | 5 << 2 | 200 << 10;
    let buf = bits.to_le_bytes();
    let mut br = BitReader::new(&buf);
    let mut plan = Plan::default();
    let mut lengths = vec![0u8; 256];
    read_simple_code(&mut br, &buf, &mut plan, &mut lengths);
    assert_eq!(lengths[5], 1);
    assert_eq!(lengths[200], 1);
    assert_eq!(plan.count[1], 2);
    assert_eq!(br.pos, 18);
}

#[test]
fn a_repeated_simple_symbol_is_counted_once() {
    let bits: u32 = 1 | 1 << 1 | 7 << 2 | 7 << 10;
    let buf = bits.to_le_bytes();
    let mut br = BitReader::new(&buf);
    let mut plan = Plan::default();
    let mut lengths = vec![0u8; 256];
    read_simple_code(&mut br, &buf, &mut plan, &mut lengths);
    assert_eq!(lengths[7], 1);
    assert_eq!(plan.count[1], 1);
}

#[test]
fn a_normal_code_decodes_lengths_through_its_code_length_code() {
    /* Four code-length codes (17, 18, 0, 1) of lengths 0, 0, 1, 1; no
    max-symbol field; then the lengths 1, 1, 0 as one-bit codes. */
    let buf = [0x00u8, 0x24, 0x06, 0, 0, 0, 0, 0];
    let mut br = BitReader::new(&buf);
    let mut plan = Plan::default();
    let mut lengths = vec![0u8; 3];
    read_normal_code(&mut br, &buf, &mut plan, &mut lengths).unwrap();
    assert_eq!(lengths, vec![1, 1, 0]);
    assert_eq!(plan.count[1], 2);
    assert_eq!(br.pos, 20);
}

#[test]
fn a_max_symbol_beyond_the_alphabet_is_rejected() {
    /* Four code-length codes, all zero; then the max-symbol flag set, a
    width of 2 + 2 * 7 = 16 bits, and a count far past the alphabet. */
    let mut bits: u64 = 0;
    let mut at = 4 + 12;
    bits |= 1 << at;
    at += 1;
    bits |= 7 << at;
    at += 3;
    bits |= 0xFFFF << at;
    let buf = bits.to_le_bytes();
    let mut br = BitReader::new(&buf);
    let mut plan = Plan::default();
    let mut lengths = vec![0u8; 10];
    assert_eq!(read_normal_code(&mut br, &buf, &mut plan, &mut lengths), Err(Error::InvalidData));
}
