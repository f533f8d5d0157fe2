use vstd::prelude::*;

verus! {

/// Errors of the library's own logic.
#[derive(Debug, Clone, Copy, PartialEq, Eq, Structural)]
pub enum Error {
    /// A record's framing does not match the page layout: a page tag differs
    /// from what the layout requires, or the file ends inside the record.
    Corrupt,
    /// An index snapshot's body is longer than its four-byte length field
    /// can state.
    SnapshotTooLarge,
}

} // verus!
