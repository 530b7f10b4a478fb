//! Compaction of what two levels of storage say of one key.

use crate::seq_marked::SeqMarked;
use vstd::prelude::*;

verus! {

/// What a newer and an older level together say of a key.
pub open spec fn compacted<V>(newer: SeqMarked<V>, older: SeqMarked<V>) -> SeqMarked<V> {
    if newer.found() {
        newer
    } else {
        older
    }
}

/// What a newer and an older level together say of a key: the newer one, where it knows the
/// key at all.
pub fn compact_seq_marked_pair<V>(newer: SeqMarked<V>, older: SeqMarked<V>) -> (r: SeqMarked<V>)
    ensures
        r == compacted(newer, older),
{
    if newer.is_not_found() {
        older
    } else {
        newer
    }
}

} // verus!
