use fuzzy_rocks::wire::{bincode_u64_le_varint, bincode_vec_fixint_item, bincode_vec_fixint_len};

fn read_at(bytes: &[u8], at: usize) -> (Option<u64>, usize) {
    let mut skip = at;
    let value = bincode_u64_le_varint(bytes, &mut skip);
    (value, skip)
}

#[test]
fn varint_single_byte() {
    assert_eq!(read_at(&[0], 0), (Some(0), 1));
    assert_eq!(read_at(&[7, 99], 0), (Some(7), 1));
    assert_eq!(read_at(&[250], 0), (Some(250), 1));
}

#[test]
fn varint_two_byte_form() {
    assert_eq!(read_at(&[251, 251, 0], 0), (Some(251), 3));
    assert_eq!(read_at(&[251, 0x34, 0x12], 0), (Some(0x1234), 3));
    assert_eq!(read_at(&[251, 0xFF, 0xFF], 0), (Some(65535), 3));
}

#[test]
fn varint_four_byte_form() {
    assert_eq!(read_at(&[252, 0, 0, 1, 0], 0), (Some(65536), 5));
    assert_eq!(read_at(&[252, 0x78, 0x56, 0x34, 0x12], 0), (Some(0x1234_5678), 5));
    assert_eq!(read_at(&[252, 0xFF, 0xFF, 0xFF, 0xFF], 0), (Some(0xFFFF_FFFF), 5));
}

#[test]
fn varint_eight_byte_form() {
    assert_eq!(read_at(&[253, 0, 0, 0, 0, 1, 0, 0, 0], 0), (Some(1 << 32), 9));
    assert_eq!(
        read_at(&[253, 0xFF, 0xFF, 0xFF, 0xFF, 0xFF, 0xFF, 0xFF, 0xFF], 0),
        (Some(u64::MAX), 9)
    );
    assert_eq!(
        read_at(&[253, 8, 7, 6, 5, 4, 3, 2, 1], 0),
        (Some(0x0102_0304_0506_0708), 9)
    );
}

#[test]
fn varint_accepts_a_longer_form_than_needed() {
    assert_eq!(read_at(&[251, 5, 0], 0), (Some(5), 3));
    assert_eq!(read_at(&[252, 5, 0, 0, 0], 0), (Some(5), 5));
    assert_eq!(read_at(&[253, 5, 0, 0, 0, 0, 0, 0, 0], 0), (Some(5), 9));
}

#[test]
fn varint_rejects_reserved_first_bytes() {
    assert_eq!(read_at(&[254, 0, 0, 0, 0, 0, 0, 0, 0, 0, 0, 0, 0, 0, 0, 0, 0], 0), (None, 0));
    assert_eq!(read_at(&[255, 0, 0], 0), (None, 0));
}

#[test]
fn varint_rejects_what_is_cut_short() {
    assert_eq!(read_at(&[], 0), (None, 0));
    assert_eq!(read_at(&[251], 0), (None, 0));
    assert_eq!(read_at(&[251, 1], 0), (None, 0));
    assert_eq!(read_at(&[252, 1, 2, 3], 0), (None, 0));
    assert_eq!(read_at(&[253, 1, 2, 3, 4, 5, 6, 7], 0), (None, 0));
}

#[test]
fn varint_reads_from_the_given_position() {
    let bytes = [9, 251, 0x10, 0x27, 3];
    assert_eq!(read_at(&bytes, 0), (Some(9), 1));
    assert_eq!(read_at(&bytes, 1), (Some(10000), 4));
    assert_eq!(read_at(&bytes, 4), (Some(3), 5));
    assert_eq!(read_at(&bytes, 5), (None, 5));
    assert_eq!(read_at(&bytes, 17), (None, 17));
}

#[test]
fn varint_leaves_position_where_nothing_is_read() {
    let bytes = [1, 2, 252, 0];
    assert_eq!(read_at(&bytes, 2), (None, 2));
}

#[test]
fn fixint_len_of_well_formed_sequences() {
    assert_eq!(bincode_vec_fixint_len(&[0, 0, 0, 0, 0, 0, 0, 0]), Some(0));
    let mut one = vec![1u8, 0, 0, 0, 0, 0, 0, 0];
    one.extend_from_slice(&42u64.to_le_bytes());
    assert_eq!(bincode_vec_fixint_len(&one), Some(1));
    let mut three = vec![3u8, 0, 0, 0, 0, 0, 0, 0];
    for id in [7u64, 8, 9] {
        three.extend_from_slice(&id.to_le_bytes());
    }
    assert_eq!(bincode_vec_fixint_len(&three), Some(3));
}

#[test]
fn fixint_len_rejects_a_wrong_count() {
    // too short for a count
    assert_eq!(bincode_vec_fixint_len(&[]), None);
    assert_eq!(bincode_vec_fixint_len(&[1, 0, 0, 0, 0, 0, 0]), None);
    // announces one item, holds none
    assert_eq!(bincode_vec_fixint_len(&[1, 0, 0, 0, 0, 0, 0, 0]), None);
    // announces no item, holds one
    let mut extra = vec![0u8; 8];
    extra.extend_from_slice(&1u64.to_le_bytes());
    assert_eq!(bincode_vec_fixint_len(&extra), None);
    // an item that is cut short
    let mut cut = vec![1u8, 0, 0, 0, 0, 0, 0, 0];
    cut.extend_from_slice(&[1, 2, 3, 4, 5, 6, 7]);
    assert_eq!(bincode_vec_fixint_len(&cut), None);
    // a count far beyond what the bytes hold
    let mut huge = vec![0xFFu8; 8];
    huge.extend_from_slice(&1u64.to_le_bytes());
    assert_eq!(bincode_vec_fixint_len(&huge), None);
}

#[test]
fn fixint_items_are_little_endian() {
    let mut bytes = vec![2u8, 0, 0, 0, 0, 0, 0, 0];
    bytes.extend_from_slice(&[0x08, 0x07, 0x06, 0x05, 0x04, 0x03, 0x02, 0x01]);
    bytes.extend_from_slice(&u64::MAX.to_le_bytes());
    assert_eq!(bincode_vec_fixint_len(&bytes), Some(2));
    assert_eq!(bincode_vec_fixint_item(&bytes, 0), Some(0x0102_0304_0506_0708));
    assert_eq!(bincode_vec_fixint_item(&bytes, 1), Some(u64::MAX));
    assert_eq!(bincode_vec_fixint_item(&bytes, 2), None);
    assert_eq!(bincode_vec_fixint_item(&bytes, usize::MAX), None);
}

#[test]
fn fixint_item_of_what_is_no_sequence() {
    assert_eq!(bincode_vec_fixint_item(&[], 0), None);
    assert_eq!(bincode_vec_fixint_item(&[0, 0, 0, 0, 0, 0, 0, 0], 0), None);
    // announces two items, holds one
    let mut bytes = vec![2u8, 0, 0, 0, 0, 0, 0, 0];
    bytes.extend_from_slice(&5u64.to_le_bytes());
    assert_eq!(bincode_vec_fixint_item(&bytes, 0), None);
}
