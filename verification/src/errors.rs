//! Why an entry could not be read.

use vstd::prelude::*;

verus! {

/// The two ways in which reading an entry fails.
#[derive(Clone, Copy, Debug, PartialEq, Eq, Structural)]
pub enum EntryError {
    /// There is no entry for the identifier, or the entry holds an empty
    /// collection, which no write of a valid record leaves behind.
    NotFound,
    /// The entry does not have the layout that its table prescribes.
    Corrupt,
}

} // verus!
