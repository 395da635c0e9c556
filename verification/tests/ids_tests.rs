use fuzzy_rocks::ids::{KeyGroupID, RecordID, MAX_GROUP_INDEX, MAX_RECORD_ID};

#[test]
fn key_group_id_packs_record_and_index() {
    assert_eq!(KeyGroupID::from_record_and_idx(RecordID(0), 0), Some(KeyGroupID(0)));
    assert_eq!(KeyGroupID::from_record_and_idx(RecordID(0), 5), Some(KeyGroupID(5)));
    assert_eq!(KeyGroupID::from_record_and_idx(RecordID(1), 0), Some(KeyGroupID(0x10_0000)));
    assert_eq!(KeyGroupID::from_record_and_idx(RecordID(3), 2), Some(KeyGroupID(0x30_0002)));
}

#[test]
fn key_group_id_limits() {
    assert_eq!(MAX_GROUP_INDEX, (1 << 20) - 1);
    assert_eq!(MAX_RECORD_ID, (1 << 44) - 1);
    assert_eq!(
        KeyGroupID::from_record_and_idx(RecordID(MAX_RECORD_ID), MAX_GROUP_INDEX),
        Some(KeyGroupID(u64::MAX))
    );
    assert_eq!(KeyGroupID::from_record_and_idx(RecordID(MAX_RECORD_ID + 1), 0), None);
    assert_eq!(KeyGroupID::from_record_and_idx(RecordID(0), MAX_GROUP_INDEX + 1), None);
    assert_eq!(KeyGroupID::from_record_and_idx(RecordID(u64::MAX), u64::MAX), None);
}

#[test]
fn key_group_id_gives_its_parts_back() {
    for record in [0u64, 1, 2, 1000, MAX_RECORD_ID] {
        for index in [0u64, 1, 19, MAX_GROUP_INDEX] {
            let id = KeyGroupID::from_record_and_idx(RecordID(record), index).unwrap();
            assert_eq!(id.record_id(), RecordID(record));
            assert_eq!(id.group_idx(), index);
        }
    }
}

#[test]
fn distinct_groups_have_distinct_ids() {
    let a = KeyGroupID::from_record_and_idx(RecordID(1), 0).unwrap();
    let b = KeyGroupID::from_record_and_idx(RecordID(0), MAX_GROUP_INDEX).unwrap();
    let c = KeyGroupID::from_record_and_idx(RecordID(1), 1).unwrap();
    assert_ne!(a, b);
    assert_ne!(a, c);
    assert_ne!(b, c);
}

#[test]
fn table_keys_are_eight_little_endian_bytes() {
    assert_eq!(RecordID(0).to_le_bytes(), vec![0u8; 8]);
    assert_eq!(RecordID(1).to_le_bytes(), vec![1, 0, 0, 0, 0, 0, 0, 0]);
    assert_eq!(
        RecordID(0x0102_0304_0506_0708).to_le_bytes(),
        vec![8, 7, 6, 5, 4, 3, 2, 1]
    );
    assert_eq!(KeyGroupID(0x10_0000).to_le_bytes(), vec![0, 0, 0x10, 0, 0, 0, 0, 0]);
    assert_eq!(KeyGroupID(u64::MAX).to_le_bytes(), vec![0xFF; 8]);
}
