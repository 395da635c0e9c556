//! Storage layer of a fuzzy key-lookup index.
//!
//! The index keeps four tables in a sorted key-value engine: the raw keys of
//! each key group, the key groups of each record, the value of each record,
//! and, for every variant fingerprint, the key groups that produced it. This
//! crate holds what is decided about those tables apart from the engine
//! itself: the byte layout of every entry, the identifiers that key the
//! tables, the merge that accumulates variant references, the pruning of a
//! reference, and the probe that recovers the record count.

use vstd::prelude::*;

mod coder;
pub mod distinct;
pub mod errors;
pub mod ids;
pub mod key_groups;
pub mod probe;
pub mod records;
pub mod values;
pub mod variants;
pub mod wire;

verus! {

/// The table that maps a key group to its raw keys.
pub const KEYS_CF_NAME: &'static str = "keys";

/// The table that maps a record to the indices of its key groups.
pub const RECORD_DATA_CF_NAME: &'static str = "rec_data";

/// The table that maps a record to its value.
pub const VALUES_CF_NAME: &'static str = "values";

/// The table that maps a variant fingerprint to the key groups behind it.
pub const VARIANTS_CF_NAME: &'static str = "variants";

} // verus!
