use huffman::bitstring::MAX_BITS;
use huffman::BitString;

fn bits_of(s: &BitString) -> Vec<bool> {
    (0..s.bit_len()).map(|i| s.get(i)).collect()
}

fn from_bits(bits: &[bool]) -> BitString {
    let mut s = BitString::new();
    for &b in bits {
        s.set_bit(b);
    }
    s
}

#[test]
fn new_buffer_is_empty_with_one_zero_byte() {
    let s = BitString::new();
    assert_eq!(s.bit_len(), 0);
    assert_eq!(s.len(), 1);
    assert_eq!(s.base10_bit_pointer(), 0);
    assert_eq!(s.bytes(), &vec![0u8]);
}

#[test]
fn bits_are_packed_most_significant_first() {
    let s = from_bits(&[true, false, true]);
    assert_eq!(s.bit_len(), 3);
    assert_eq!(s.len(), 1);
    assert_eq!(s.base10_bit_pointer(), 3);
    assert_eq!(s.bytes(), &vec![0b1010_0000u8]);
    assert_eq!(bits_of(&s), vec![true, false, true]);
}

#[test]
fn a_full_byte_opens_a_new_zero_byte() {
    let s = from_bits(&[true, true, false, false, true, false, true, true]);
    assert_eq!(s.bit_len(), 8);
    assert_eq!(s.len(), 2);
    assert_eq!(s.base10_bit_pointer(), 0);
    assert_eq!(s.bytes(), &vec![0b1100_1011u8, 0u8]);
}

#[test]
fn the_cursor_walks_the_eight_positions() {
    let mut s = BitString::new();
    for expected in [0u8, 1, 2, 3, 4, 5, 6, 7, 0, 1] {
        assert_eq!(s.base10_bit_pointer(), expected);
        s.set_bit(true);
    }
    assert_eq!(s.bit_len(), 10);
    assert_eq!(s.bytes(), &vec![0xffu8, 0b1100_0000u8]);
}

#[test]
fn retract_then_append_equals_direct_append() {
    let mut s = from_bits(&[true, false, true]);
    s.unset(2);
    s.set_bit(false);
    s.set_bit(false);
    let direct = from_bits(&[true, false, false]);
    assert_eq!(bits_of(&s), bits_of(&direct));
    assert_eq!(s.bytes(), direct.bytes());
    assert_eq!(s.bit_len(), direct.bit_len());
    assert_eq!(s.bytes(), &vec![0b1000_0000u8]);
}

#[test]
fn retract_clears_the_bits_it_removes() {
    let mut s = from_bits(&[true, true, true, true, true]);
    s.unset(3);
    assert_eq!(s.bit_len(), 2);
    assert_eq!(s.bytes(), &vec![0b1100_0000u8]);
    s.set_bit(false);
    assert_eq!(s.bytes(), &vec![0b1100_0000u8]);
    assert_eq!(bits_of(&s), vec![true, true, false]);
}

#[test]
fn retract_across_a_byte_boundary() {
    let mut s = from_bits(&[true; 11]);
    assert_eq!(s.len(), 2);
    s.unset(5);
    assert_eq!(s.bit_len(), 6);
    assert_eq!(s.len(), 1);
    assert_eq!(s.base10_bit_pointer(), 6);
    assert_eq!(s.bytes(), &vec![0b1111_1100u8]);
}

#[test]
fn retract_to_a_byte_boundary_keeps_an_open_byte() {
    let mut s = from_bits(&[true; 11]);
    s.unset(3);
    assert_eq!(s.bit_len(), 8);
    assert_eq!(s.len(), 2);
    assert_eq!(s.bytes(), &vec![0xffu8, 0u8]);
}

#[test]
fn retract_nothing_changes_nothing() {
    let mut s = from_bits(&[false, true, true]);
    s.unset(0);
    assert_eq!(bits_of(&s), vec![false, true, true]);
}

#[test]
fn retract_everything_leaves_an_empty_buffer() {
    let mut s = from_bits(&[true; 20]);
    s.unset(20);
    assert_eq!(s.bit_len(), 0);
    assert_eq!(s.bytes(), &vec![0u8]);
}

#[test]
fn append_joins_two_buffers() {
    let mut s = from_bits(&[true, false, true, true, false]);
    let t = from_bits(&[false, true, true, true, false, true]);
    s.append(t);
    assert_eq!(
        bits_of(&s),
        vec![true, false, true, true, false, false, true, true, true, false, true]
    );
    assert_eq!(s.bytes(), &vec![0b1011_0011u8, 0b1010_0000u8]);
}

#[test]
fn append_of_an_empty_buffer_changes_nothing() {
    let mut s = from_bits(&[true, false]);
    s.append(BitString::new());
    assert_eq!(bits_of(&s), vec![true, false]);
}

#[test]
fn a_snapshot_does_not_follow_the_buffer() {
    let mut s = from_bits(&[true, false]);
    let snapshot = s.clone();
    s.set_bit(true);
    s.unset(2);
    assert_eq!(bits_of(&snapshot), vec![true, false]);
    assert_eq!(snapshot.bytes(), &vec![0b1000_0000u8]);
    assert_eq!(bits_of(&s), vec![true]);
}

#[test]
fn get_reads_each_position() {
    let pattern = [true, false, false, true, true, true, false, true, false, true];
    let s = from_bits(&pattern);
    for (i, &b) in pattern.iter().enumerate() {
        assert_eq!(s.get(i), b);
    }
}

#[test]
fn the_limit_leaves_room_for_the_last_byte() {
    assert_eq!(MAX_BITS, usize::MAX - 8);
}
