//! Entries of the value table.
//!
//! The entry of a record holds the record's value as the caller serialized
//! it. Nothing here looks into those bytes: a value is there or it is not.

use crate::errors::EntryError;
use crate::wire::entry_view;
use vstd::prelude::*;

verus! {

/// What a lookup of a record's value gives when the value table answered
/// with `entry`.
pub open spec fn value_in(entry: Option<Seq<u8>>) -> Result<Seq<u8>, EntryError> {
    match entry {
        None => Err(EntryError::NotFound),
        Some(bytes) => Ok(bytes),
    }
}

/// The serialized value of a record, from what the value table holds under
/// the record's key. A missing entry gives `NotFound`; every entry that is
/// there is a value, also an empty one.
pub fn stored_value<'a>(entry: Option<&'a [u8]>) -> (value: Result<&'a [u8], EntryError>)
    ensures
        match value {
            Ok(bytes) => value_in(entry_view(entry)) == Ok::<Seq<u8>, EntryError>(bytes@),
            Err(e) => value_in(entry_view(entry)) == Err::<Seq<u8>, EntryError>(e),
        },
{
    match entry {
        None => Err(EntryError::NotFound),
        Some(bytes) => Ok(bytes),
    }
}

} // verus!
