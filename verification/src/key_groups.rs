//! Entries of the key table.
//!
//! The entry of a key group holds the raw keys of the group, each a byte
//! string, in the compact layout. The group is a set: a key that is handed in
//! twice is stored once. The count of the keys stands at the front of the
//! entry, where it can be read without reading the keys.

use crate::coder::{deserialize_byte_string_vec, serialize_byte_string_vec};
use crate::distinct::{distinct, lemma_absorb};
use crate::errors::EntryError;
use crate::wire::{
    bincode_u64_le_varint, byte_string_vec, byte_strings, entry_view,
    lemma_byte_string_vec_round_trip, lemma_occurs_split, lemma_read_byte_strings_len,
    lemma_read_varint, read_byte_string_vec, read_varint, slice_views, varint, views,
};
use vstd::prelude::*;

verus! {

/// Whether two byte strings are the same.
fn same_bytes(a: &[u8], b: &[u8]) -> (same: bool)
    ensures
        same == (a@ == b@),
{
    if a.len() != b.len() {
        return false;
    }
    let mut i: usize = 0;
    while i < a.len()
        invariant
            i <= a.len(),
            a.len() == b.len(),
            forall|j: int| 0 <= j < i ==> a@[j] == b@[j],
        decreases a.len() - i,
    {
        if a[i] != b[i] {
            return false;
        }
        i += 1;
    }
    assert(a@ =~= b@);
    true
}

/// Whether `key` is among `keys`.
fn holds_key(keys: &Vec<&[u8]>, key: &[u8]) -> (found: bool)
    ensures
        found == slice_views(keys@).contains(key@),
{
    let mut i: usize = 0;
    while i < keys.len()
        invariant
            i <= keys.len(),
            forall|j: int| 0 <= j < i ==> slice_views(keys@)[j] != key@,
        decreases keys.len() - i,
    {
        if same_bytes(keys[i], key) {
            assert(slice_views(keys@)[i as int] == key@);
            return true;
        }
        i += 1;
    }
    false
}

/// The keys of `raw_keys` in the order of their first occurrence.
fn distinct_keys<'a>(raw_keys: &'a Vec<Vec<u8>>) -> (keys: Vec<&'a [u8]>)
    ensures
        slice_views(keys@) == distinct(views(raw_keys@)),
{
    let mut keys: Vec<&[u8]> = Vec::new();
    let mut i: usize = 0;
    assert(views(raw_keys@).take(0) =~= Seq::<Seq<u8>>::empty());
    assert(slice_views(keys@) =~= Seq::<Seq<u8>>::empty());
    while i < raw_keys.len()
        invariant
            i <= raw_keys.len(),
            slice_views(keys@) == distinct(views(raw_keys@).take(i as int)),
        decreases raw_keys.len() - i,
    {
        let ghost before = slice_views(keys@);
        let ghost taken = views(raw_keys@).take(i as int + 1);
        assert(taken.drop_last() =~= views(raw_keys@).take(i as int));
        assert(taken.last() == raw_keys@[i as int]@);
        let key: &[u8] = raw_keys[i].as_slice();
        if !holds_key(&keys, key) {
            keys.push(key);
            assert(slice_views(keys@) =~= before.push(key@));
        }
        i += 1;
    }
    assert(views(raw_keys@).take(i as int) =~= views(raw_keys@));
    keys
}

/// The entry of a key group with the given keys.
///
/// The entry holds each key once, in the order in which the keys first occur
/// in `raw_keys`.
pub fn key_group_entry(raw_keys: &Vec<Vec<u8>>) -> (entry: Vec<u8>)
    ensures
        entry@ == byte_string_vec(distinct(views(raw_keys@))),
{
    let keys: Vec<&[u8]> = distinct_keys(raw_keys);
    serialize_byte_string_vec(&keys).unwrap()
}

/// What a lookup of a key group gives when the key table answered with
/// `entry`.
pub open spec fn keys_in(entry: Option<Seq<u8>>) -> Result<Seq<Seq<u8>>, EntryError> {
    match entry {
        None => Err(EntryError::NotFound),
        Some(bytes) => match read_byte_string_vec(bytes) {
            None => Err(EntryError::Corrupt),
            Some(keys) => if keys.len() == 0 {
                Err(EntryError::NotFound)
            } else {
                Ok(keys)
            },
        },
    }
}

/// The keys of a key group, from what the key table holds under its key.
///
/// A missing entry and an entry without keys give `NotFound`. An entry that is
/// not a sequence of byte strings in the compact layout gives `Corrupt`.
pub fn keys_in_group(entry: Option<&[u8]>) -> (keys: Result<Vec<Vec<u8>>, EntryError>)
    ensures
        match keys {
            Ok(v) => keys_in(entry_view(entry)) == Ok::<Seq<Seq<u8>>, EntryError>(views(v@)),
            Err(e) => keys_in(entry_view(entry)) == Err::<Seq<Seq<u8>>, EntryError>(e),
        },
{
    match entry {
        None => Err(EntryError::NotFound),
        Some(bytes) => match deserialize_byte_string_vec(bytes) {
            None => Err(EntryError::Corrupt),
            Some(keys) => {
                assert(views(keys@).len() == keys.len());
                if keys.len() == 0 {
                    Err(EntryError::NotFound)
                } else {
                    Ok(keys)
                }
            },
        },
    }
}

/// What the count at the front of the entry of a key group says, where the
/// entry begins with a count.
pub open spec fn key_count(entry: Seq<u8>) -> Result<u64, EntryError> {
    match read_varint(entry, 0) {
        None => Err(EntryError::Corrupt),
        Some((count, next)) => Ok(count),
    }
}

/// The number of keys in a key group, read from the front of its entry
/// without reading the keys.
///
/// This is for key groups that are known to exist: the entry must be there.
/// A caller that finds none has a store that does not hold what its other
/// tables say it holds, and is to stop rather than to go on with a count.
/// An entry that does not begin with a count gives `Corrupt`, which is as
/// fatal.
pub fn keys_count_in_group(entry: Option<&[u8]>) -> (count: Result<u64, EntryError>)
    requires
        entry is Some,
    ensures
        count == key_count(entry.unwrap()@),
{
    let mut skip_bytes: usize = 0;
    match bincode_u64_le_varint(entry.unwrap(), &mut skip_bytes) {
        None => Err(EntryError::Corrupt),
        Some(count) => Ok(count),
    }
}

/// Writing a key group and reading it back gives the keys that were written,
/// each once: the same set of keys.
pub proof fn lemma_key_group_round_trip(raw_keys: Seq<Seq<u8>>)
    requires
        raw_keys.len() <= u64::MAX,
        forall|i: int| 0 <= i < raw_keys.len() ==> (#[trigger] raw_keys[i]).len() <= u64::MAX,
    ensures
        distinct(raw_keys).to_set() == raw_keys.to_set(),
        distinct(raw_keys).no_duplicates(),
        raw_keys.len() > 0 ==> keys_in(Some(byte_string_vec(distinct(raw_keys)))) == Ok::<
            Seq<Seq<u8>>,
            EntryError,
        >(distinct(raw_keys)),
        raw_keys.len() == 0 ==> keys_in(Some(byte_string_vec(distinct(raw_keys)))) == Err::<
            Seq<Seq<u8>>,
            EntryError,
        >(EntryError::NotFound),
{
    let keys = distinct(raw_keys);
    lemma_absorb(Seq::<Seq<u8>>::empty(), raw_keys);
    assert(Seq::<Seq<u8>>::empty().to_set().union(raw_keys.to_set()) =~= raw_keys.to_set());
    assert forall|i: int| 0 <= i < keys.len() implies (#[trigger] keys[i]).len() <= u64::MAX by {
        assert(keys.to_set().contains(keys[i]));
        assert(raw_keys.contains(keys[i]));
    }
    lemma_byte_string_vec_round_trip(keys);
    if raw_keys.len() > 0 {
        assert(raw_keys.to_set().contains(raw_keys[0]));
        assert(keys.contains(raw_keys[0]));
    }
}

/// The count at the front of an entry is the number of keys that a full read
/// of the entry returns.
pub proof fn lemma_key_count_is_len(entry: Seq<u8>)
    ensures
        keys_in(Some(entry)) matches Ok(keys) ==> key_count(entry) == Ok::<u64, EntryError>(
            keys.len() as u64,
        ) && keys.len() <= u64::MAX,
{
    match read_varint(entry, 0) {
        None => {},
        Some((count, next)) => {
            lemma_read_byte_strings_len(entry, next, count as nat);
        },
    }
}

/// The entry of a key group begins with the number of its distinct keys.
pub proof fn lemma_key_count_of_entry(raw_keys: Seq<Seq<u8>>)
    requires
        raw_keys.len() <= u64::MAX,
    ensures
        key_count(byte_string_vec(distinct(raw_keys))) == Ok::<u64, EntryError>(
            distinct(raw_keys).len() as u64,
        ),
{
    let keys = distinct(raw_keys);
    lemma_absorb(Seq::<Seq<u8>>::empty(), raw_keys);
    let bytes = byte_string_vec(keys);
    assert(bytes.subrange(0, bytes.len() as int) =~= bytes);
    lemma_occurs_split(bytes, 0, varint(keys.len() as u64), byte_strings(keys));
    lemma_read_varint(bytes, 0, keys.len() as u64);
}

} // verus!
