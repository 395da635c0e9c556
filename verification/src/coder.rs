//! The calls into the serializer that writes and reads whole entries.
//!
//! Nothing in this file is proved: each function states what `bincode` does
//! for one type and one configuration, and the rest of the crate builds on
//! those statements. The layouts that they refer to are written out in
//! [`crate::wire`].

use crate::wire::{
    byte_string_vec, fixed_vec, read_byte_string_vec, read_fixed_vec, read_varint_vec,
    slice_views, varint_vec, views,
};
use bincode::Options;
use vstd::prelude::*;

verus! {

/// Calls `bincode::Options::serialize` on a vector of integers, configured
/// for variable-length integers in little-endian order.
///
/// Claims that the call succeeds, and that the bytes are the count as a
/// compact integer followed by each item as a compact integer.
#[verifier::external_body]
pub(crate) fn serialize_varint_vec(items: &Vec<u64>) -> (bytes: Option<Vec<u8>>)
    ensures
        bytes is Some,
        bytes.unwrap()@ == varint_vec(items@),
{
    bincode::DefaultOptions::new().with_varint_encoding().with_little_endian().serialize(items).ok()
}

/// Calls `bincode::Options::deserialize` for a vector of integers, configured
/// for variable-length integers in little-endian order.
///
/// Claims that the call succeeds exactly on the bytes that hold a count, that
/// many compact integers and nothing more, and that it returns those
/// integers.
#[verifier::external_body]
pub(crate) fn deserialize_varint_vec(bytes: &[u8]) -> (items: Option<Vec<u64>>)
    ensures
        match items {
            Some(v) => read_varint_vec(bytes@) == Some(v@),
            None => read_varint_vec(bytes@) is None,
        },
{
    bincode::DefaultOptions::new().with_varint_encoding().with_little_endian().deserialize::<
        Vec<u64>,
    >(bytes).ok()
}

/// Calls `bincode::Options::serialize` on a vector of byte strings,
/// configured for variable-length integers in little-endian order.
///
/// Claims that the call succeeds, and that the bytes are the count as a
/// compact integer followed by each string: its length as a compact integer,
/// then its bytes.
#[verifier::external_body]
pub(crate) fn serialize_byte_string_vec(items: &Vec<&[u8]>) -> (bytes: Option<Vec<u8>>)
    ensures
        bytes is Some,
        bytes.unwrap()@ == byte_string_vec(slice_views(items@)),
{
    bincode::DefaultOptions::new().with_varint_encoding().with_little_endian().serialize(items).ok()
}

/// Calls `bincode::Options::deserialize` for a vector of byte strings,
/// configured for variable-length integers in little-endian order.
///
/// Claims that the call succeeds exactly on the bytes that hold a count, that
/// many length-prefixed strings and nothing more, and that it returns those
/// strings.
#[verifier::external_body]
pub(crate) fn deserialize_byte_string_vec(bytes: &[u8]) -> (items: Option<Vec<Vec<u8>>>)
    ensures
        match items {
            Some(v) => read_byte_string_vec(bytes@) == Some(views(v@)),
            None => read_byte_string_vec(bytes@) is None,
        },
{
    bincode::DefaultOptions::new().with_varint_encoding().with_little_endian().deserialize::<
        Vec<Vec<u8>>,
    >(bytes).ok()
}

/// Calls `bincode::Options::serialize` on a vector of integers, configured
/// for fixed-width integers in little-endian order.
///
/// Claims that the call succeeds, and that the bytes are the count in eight
/// bytes followed by each item in eight bytes.
#[verifier::external_body]
pub(crate) fn serialize_fixed_vec(ids: &Vec<u64>) -> (bytes: Option<Vec<u8>>)
    ensures
        bytes is Some,
        bytes.unwrap()@ == fixed_vec(ids@),
{
    bincode::DefaultOptions::new().with_fixint_encoding().with_little_endian().serialize(ids).ok()
}

/// Calls `bincode::Options::deserialize` for a vector of integers, configured
/// for fixed-width integers in little-endian order.
///
/// Claims that the call succeeds exactly on the bytes whose first eight give
/// a count and whose rest is that many items of eight bytes, and that it
/// returns those items.
#[verifier::external_body]
pub(crate) fn deserialize_fixed_vec(bytes: &[u8]) -> (ids: Option<Vec<u64>>)
    ensures
        match ids {
            Some(v) => read_fixed_vec(bytes@) == Some(v@),
            None => read_fixed_vec(bytes@) is None,
        },
{
    bincode::DefaultOptions::new().with_fixint_encoding().with_little_endian().deserialize::<
        Vec<u64>,
    >(bytes).ok()
}

} // verus!
