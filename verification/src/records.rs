//! Entries of the record table.
//!
//! The entry of a record lists the indices of its key groups, in the compact
//! layout. A record without key groups has no entry: an entry with an empty
//! list is treated like a missing one.

use crate::coder::{deserialize_varint_vec, serialize_varint_vec};
use crate::errors::EntryError;
use crate::ids::{KeyGroupID, RecordID, MAX_GROUP_INDEX, MAX_RECORD_ID};
use crate::wire::{entry_view, lemma_varint_vec_round_trip, read_varint_vec, varint_vec};
use vstd::prelude::*;

verus! {

/// The entry that lists `group_indices`.
pub fn record_entry(group_indices: &Vec<u64>) -> (entry: Vec<u8>)
    ensures
        entry@ == varint_vec(group_indices@),
{
    serialize_varint_vec(group_indices).unwrap()
}

/// The identifiers of the groups with the given indices within `record_id`.
pub open spec fn group_ids(record_id: RecordID, group_indices: Seq<u64>) -> Seq<KeyGroupID> {
    Seq::new(group_indices.len(), |i: int| KeyGroupID::compose(record_id, group_indices[i]))
}

/// What a lookup of `record_id` gives when the record table answered with
/// `entry`.
pub open spec fn key_groups_of(record_id: RecordID, entry: Option<Seq<u8>>) -> Result<
    Seq<KeyGroupID>,
    EntryError,
> {
    match entry {
        None => Err(EntryError::NotFound),
        Some(bytes) => match read_varint_vec(bytes) {
            None => Err(EntryError::Corrupt),
            Some(indices) => if indices.len() == 0 || record_id.0 > MAX_RECORD_ID {
                Err(EntryError::NotFound)
            } else if exists|i: int| 0 <= i < indices.len() && indices[i] > MAX_GROUP_INDEX {
                Err(EntryError::Corrupt)
            } else {
                Ok(group_ids(record_id, indices))
            },
        },
    }
}

/// The key groups of `record_id`, from what the record table holds under its
/// key.
///
/// A missing entry, an entry with an empty list and a record identifier that
/// is too large to have key groups give `NotFound`. An entry that is not a
/// list in the compact layout, or that lists an index that no key group can
/// have, gives `Corrupt`.
pub fn record_key_groups(record_id: RecordID, entry: Option<&[u8]>) -> (groups: Result<
    Vec<KeyGroupID>,
    EntryError,
>)
    ensures
        match groups {
            Ok(v) => key_groups_of(record_id, entry_view(entry)) == Ok::<
                Seq<KeyGroupID>,
                EntryError,
            >(v@),
            Err(e) => key_groups_of(record_id, entry_view(entry)) == Err::<
                Seq<KeyGroupID>,
                EntryError,
            >(e),
        },
{
    let bytes: &[u8] = match entry {
        None => { return Err(EntryError::NotFound); },
        Some(bytes) => bytes,
    };
    let indices: Vec<u64> = match deserialize_varint_vec(bytes) {
        None => { return Err(EntryError::Corrupt); },
        Some(indices) => indices,
    };
    if indices.len() == 0 || record_id.0 > MAX_RECORD_ID {
        return Err(EntryError::NotFound);
    }
    let mut groups: Vec<KeyGroupID> = Vec::new();
    let mut i: usize = 0;
    while i < indices.len()
        invariant
            i <= indices.len(),
            indices.len() > 0,
            record_id.0 <= MAX_RECORD_ID,
            entry_view(entry) == Some(bytes@),
            read_varint_vec(bytes@) == Some(indices@),
            groups@ == group_ids(record_id, indices@.take(i as int)),
            forall|j: int| 0 <= j < i ==> indices[j] <= MAX_GROUP_INDEX,
        decreases indices.len() - i,
    {
        match KeyGroupID::from_record_and_idx(record_id, indices[i]) {
            None => {
                assert(indices@[i as int] > MAX_GROUP_INDEX);
                return Err(EntryError::Corrupt);
            },
            Some(id) => {
                groups.push(id);
            },
        }
        i += 1;
        assert(groups@ =~= group_ids(record_id, indices@.take(i as int)));
    }
    assert(indices@.take(i as int) =~= indices@);
    Ok(groups)
}

/// Writing the key groups of a record and reading them back gives the
/// groups with the indices that were written, in their order.
pub proof fn lemma_record_round_trip(record_id: RecordID, group_indices: Seq<u64>)
    requires
        record_id.0 <= MAX_RECORD_ID,
        0 < group_indices.len() <= u64::MAX,
        forall|i: int| 0 <= i < group_indices.len() ==> group_indices[i] <= MAX_GROUP_INDEX,
    ensures
        key_groups_of(record_id, Some(varint_vec(group_indices))) == Ok::<
            Seq<KeyGroupID>,
            EntryError,
        >(group_ids(record_id, group_indices)),
        forall|i: int|
            0 <= i < group_indices.len() ==> {
                &&& (#[trigger] group_ids(record_id, group_indices)[i]).spec_record_id()
                    == record_id
                &&& group_ids(record_id, group_indices)[i].spec_group_idx() == group_indices[i]
            },
{
    lemma_varint_vec_round_trip(group_indices);
}

} // verus!
