//! Errors of the table.

use crate::seq_marked::SeqMarked;
use vstd::prelude::*;

verus! {

/// Why a record was not inserted.
#[derive(Debug, Clone, Copy, PartialEq, Eq)]
pub enum InsertError {
    /// The record's sequence number is smaller than that of the last insertion.
    NonIncremental {
        /// The order of the last insertion.
        last: SeqMarked<()>,
        /// The order of the refused record.
        current: SeqMarked<()>,
    },
}

} // verus!
