//! The identifiers that key the tables.
//!
//! A record is named by a `RecordID`, handed out in sequence from zero. Each
//! of its key groups is named by a `KeyGroupID`, which packs the record's
//! identifier and the index of the group within the record into one integer:
//! the index takes the low twenty bits. Both are written into the engine as
//! eight little-endian bytes.

use vstd::bytes::*;
use vstd::prelude::*;

verus! {

/// The number of group indices that one record can have.
pub const GROUPS_PER_RECORD: u64 = 0x10_0000;

/// The largest index that a key group can have within its record.
pub const MAX_GROUP_INDEX: u64 = 0xF_FFFF;

/// The largest record identifier whose key groups can be named.
pub const MAX_RECORD_ID: u64 = 0xFFF_FFFF_FFFF;

/// Names a record.
#[derive(Clone, Copy, Debug, PartialEq, Eq, Structural, Hash)]
pub struct RecordID(pub u64);

/// Names one key group of one record.
#[derive(Clone, Copy, Debug, PartialEq, Eq, Structural, Hash)]
pub struct KeyGroupID(pub u64);

impl RecordID {
    /// The key under which the record stands in the record table and in the
    /// value table.
    pub fn to_le_bytes(&self) -> (key: Vec<u8>)
        ensures
            key@ == spec_u64_to_le_bytes(self.0),
            key@.len() == 8,
    {
        u64_to_le_bytes(self.0)
    }
}

impl KeyGroupID {
    /// The identifier of group `group_idx` of `record_id`, where both are in
    /// range.
    pub open spec fn compose(record_id: RecordID, group_idx: u64) -> KeyGroupID {
        KeyGroupID((record_id.0 * GROUPS_PER_RECORD + group_idx) as u64)
    }

    /// The identifier of group `group_idx` of `record_id`, or `None` where
    /// one of the two is too large to be packed.
    pub fn from_record_and_idx(record_id: RecordID, group_idx: u64) -> (id: Option<KeyGroupID>)
        ensures
            id == (if record_id.0 <= MAX_RECORD_ID && group_idx <= MAX_GROUP_INDEX {
                Some(KeyGroupID::compose(record_id, group_idx))
            } else {
                None
            }),
            id matches Some(k) ==> k.spec_record_id() == record_id && k.spec_group_idx()
                == group_idx,
    {
        if record_id.0 <= MAX_RECORD_ID && group_idx <= MAX_GROUP_INDEX {
            Some(KeyGroupID(record_id.0 * GROUPS_PER_RECORD + group_idx))
        } else {
            None
        }
    }

    /// The record that the group belongs to.
    pub open spec fn spec_record_id(&self) -> RecordID {
        RecordID(self.0 / GROUPS_PER_RECORD)
    }

    /// The index of the group within its record.
    pub open spec fn spec_group_idx(&self) -> u64 {
        self.0 % GROUPS_PER_RECORD
    }

    /// The record that the group belongs to.
    #[verifier::when_used_as_spec(spec_record_id)]
    pub fn record_id(&self) -> (record_id: RecordID)
        ensures
            record_id == self.spec_record_id(),
    {
        RecordID(self.0 / GROUPS_PER_RECORD)
    }

    /// The index of the group within its record.
    #[verifier::when_used_as_spec(spec_group_idx)]
    pub fn group_idx(&self) -> (group_idx: u64)
        ensures
            group_idx == self.spec_group_idx(),
    {
        self.0 % GROUPS_PER_RECORD
    }

    /// The key under which the group stands in the key table.
    pub fn to_le_bytes(&self) -> (key: Vec<u8>)
        ensures
            key@ == spec_u64_to_le_bytes(self.0),
            key@.len() == 8,
    {
        u64_to_le_bytes(self.0)
    }
}

/// Every identifier is the identifier of its own record and index: the
/// packing loses nothing.
pub proof fn lemma_key_group_id_parts(id: KeyGroupID)
    ensures
        id.spec_record_id().0 <= MAX_RECORD_ID,
        id.spec_group_idx() <= MAX_GROUP_INDEX,
        KeyGroupID::compose(id.spec_record_id(), id.spec_group_idx()) == id,
{
}

/// Distinct records or distinct indices give distinct identifiers.
pub proof fn lemma_key_group_id_injective(a: RecordID, i: u64, b: RecordID, j: u64)
    requires
        a.0 <= MAX_RECORD_ID,
        b.0 <= MAX_RECORD_ID,
        i <= MAX_GROUP_INDEX,
        j <= MAX_GROUP_INDEX,
        KeyGroupID::compose(a, i) == KeyGroupID::compose(b, j),
    ensures
        a == b,
        i == j,
{
}

} // verus!
