use fuzzy_rocks::errors::EntryError;
use fuzzy_rocks::ids::{KeyGroupID, RecordID};
use fuzzy_rocks::key_groups::{key_group_entry, keys_count_in_group, keys_in_group};
use fuzzy_rocks::probe::{KeyProbe, RECORD_COUNT_HINT};
use fuzzy_rocks::records::{record_entry, record_key_groups};
use fuzzy_rocks::variants::{
    delete_variant_reference, new_variant_vec, variant_append_merge, VariantUpdate,
};
use fuzzy_rocks::wire::{bincode_vec_fixint_item, bincode_vec_fixint_len};
use fuzzy_rocks::{KEYS_CF_NAME, RECORD_DATA_CF_NAME, VALUES_CF_NAME, VARIANTS_CF_NAME};
use std::collections::{BTreeMap, HashSet};

/// Four tables in memory, driven the way an engine is driven: plain reads,
/// writes and removals, and for the variant table a merge that is applied on
/// the spot.
struct Tables {
    keys: BTreeMap<Vec<u8>, Vec<u8>>,
    rec_data: BTreeMap<Vec<u8>, Vec<u8>>,
    variants: BTreeMap<Vec<u8>, Vec<u8>>,
}

impl Tables {
    fn new() -> Self {
        Tables { keys: BTreeMap::new(), rec_data: BTreeMap::new(), variants: BTreeMap::new() }
    }

    fn record_count(&self) -> u64 {
        let mut probe = KeyProbe::new(RECORD_COUNT_HINT);
        while let Some(key) = probe.pending() {
            probe.record(self.rec_data.contains_key(&RecordID(key).to_le_bytes()));
        }
        probe.count().unwrap()
    }

    fn put_variant_references(&mut self, key_group: KeyGroupID, variants: &[&[u8]]) {
        for variant in variants {
            let operand = new_variant_vec(key_group);
            let existing = self.variants.get(*variant).map(|bytes| bytes.as_slice());
            let merged = variant_append_merge(variant, existing, &[&operand]).unwrap();
            self.variants.insert(variant.to_vec(), merged);
        }
    }

    fn delete_variant_references(&mut self, key_group: KeyGroupID, variants: &[&[u8]]) {
        for variant in variants {
            let existing = self.variants.get(*variant).map(|bytes| bytes.as_slice());
            match delete_variant_reference(key_group, existing).unwrap() {
                VariantUpdate::Untouched => {}
                VariantUpdate::Rewrite(bytes) => {
                    self.variants.insert(variant.to_vec(), bytes);
                }
                VariantUpdate::Remove => {
                    self.variants.remove(*variant);
                }
            }
        }
    }

    fn variant_references(&self, variant: &[u8]) -> Option<Vec<KeyGroupID>> {
        self.variants.get(variant).map(|entry| {
            let len = bincode_vec_fixint_len(entry).unwrap();
            (0..len).map(|i| KeyGroupID(bincode_vec_fixint_item(entry, i).unwrap())).collect()
        })
    }
}

#[test]
fn table_names() {
    assert_eq!(KEYS_CF_NAME, "keys");
    assert_eq!(RECORD_DATA_CF_NAME, "rec_data");
    assert_eq!(VALUES_CF_NAME, "values");
    assert_eq!(VARIANTS_CF_NAME, "variants");
}

#[test]
fn one_record_from_insert_to_delete() {
    let mut tables = Tables::new();
    assert_eq!(tables.record_count(), 0);

    let record = RecordID(0);
    let group = KeyGroupID::from_record_and_idx(record, 0).unwrap();
    let raw_keys: Vec<Vec<u8>> = vec![b"cat".to_vec(), b"bat".to_vec()];

    tables.rec_data.insert(record.to_le_bytes(), record_entry(&vec![0]));
    tables.keys.insert(group.to_le_bytes(), key_group_entry(&raw_keys));
    tables.put_variant_references(group, &[b"c*t", b"b*t"]);

    assert_eq!(tables.record_count(), 1);
    let entry = tables.rec_data.get(&record.to_le_bytes()).map(|b| b.as_slice());
    assert_eq!(record_key_groups(record, entry), Ok(vec![group]));
    let entry = tables.keys.get(&group.to_le_bytes()).map(|b| b.as_slice());
    let read: HashSet<Vec<u8>> = keys_in_group(entry).unwrap().into_iter().collect();
    assert_eq!(read, raw_keys.iter().cloned().collect());
    assert_eq!(keys_count_in_group(entry), Ok(2));
    assert_eq!(tables.variant_references(b"c*t"), Some(vec![group]));
    assert_eq!(tables.variant_references(b"b*t"), Some(vec![group]));
    assert_eq!(tables.variant_references(b"r*t"), None);

    // the key group and its references go first; the record is still counted
    tables.keys.remove(&group.to_le_bytes());
    tables.delete_variant_references(group, &[b"c*t", b"b*t"]);
    assert_eq!(tables.variant_references(b"c*t"), None);
    assert_eq!(tables.variant_references(b"b*t"), None);
    let entry = tables.keys.get(&group.to_le_bytes()).map(|b| b.as_slice());
    assert_eq!(keys_in_group(entry), Err(EntryError::NotFound));
    assert_eq!(tables.record_count(), 1);

    // only the removal of the record's own entry changes the count
    tables.rec_data.remove(&record.to_le_bytes());
    assert_eq!(tables.record_count(), 0);
    let entry = tables.rec_data.get(&record.to_le_bytes()).map(|b| b.as_slice());
    assert_eq!(record_key_groups(record, entry), Err(EntryError::NotFound));
}

#[test]
fn variants_shared_by_two_key_groups() {
    let mut tables = Tables::new();
    let a = KeyGroupID::from_record_and_idx(RecordID(0), 0).unwrap();
    let b = KeyGroupID::from_record_and_idx(RecordID(1), 0).unwrap();

    tables.put_variant_references(a, &[b"c*t", b"ca*"]);
    tables.put_variant_references(b, &[b"c*t", b"*ot"]);
    tables.put_variant_references(a, &[b"c*t"]);

    assert_eq!(tables.variant_references(b"c*t"), Some(vec![a, b]));
    assert_eq!(tables.variant_references(b"ca*"), Some(vec![a]));
    assert_eq!(tables.variant_references(b"*ot"), Some(vec![b]));

    tables.delete_variant_references(a, &[b"c*t", b"ca*", b"never"]);
    assert_eq!(tables.variant_references(b"c*t"), Some(vec![b]));
    assert_eq!(tables.variant_references(b"ca*"), None);
    assert_eq!(tables.variant_references(b"never"), None);

    // a key group that a variant does not refer to takes nothing away from it
    tables.delete_variant_references(a, &[b"c*t", b"*ot"]);
    assert_eq!(tables.variant_references(b"c*t"), Some(vec![b]));
    assert_eq!(tables.variant_references(b"*ot"), Some(vec![b]));

    tables.delete_variant_references(b, &[b"c*t", b"*ot"]);
    assert_eq!(tables.variant_references(b"c*t"), None);
    assert_eq!(tables.variant_references(b"*ot"), None);
    assert!(tables.variants.is_empty());
}

#[test]
fn record_count_follows_the_records() {
    let mut tables = Tables::new();
    for n in 0..700u64 {
        assert_eq!(tables.record_count(), n);
        tables.rec_data.insert(RecordID(n).to_le_bytes(), record_entry(&vec![0]));
    }
    assert_eq!(tables.record_count(), 700);
    tables.rec_data.clear();
    assert_eq!(tables.record_count(), 0);
}
