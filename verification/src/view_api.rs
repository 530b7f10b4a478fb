//! Reads and writes of a view that owns its sequence boundary.

use crate::io_result::IOResultStream;
use crate::map_key::MapKey;
use crate::seq_marked::SeqMarked;
use crate::visibility::KeyRange;
use std::io;
use vstd::prelude::*;

verus! {

/// Point reads.
pub trait ViewGet<K: MapKey> {
    /// `key` can be read.
    spec fn ready_to_get(&self, key: K) -> bool;

    /// Reading `key` may give `r`.
    spec fn may_give(&self, key: K, r: Result<SeqMarked<K::V>, io::Error>) -> bool;

    /// Reads one key.
    fn get(&self, key: K) -> (r: Result<SeqMarked<K::V>, io::Error>)
        requires
            self.ready_to_get(key),
        ensures
            self.may_give(key, r),
    ;
}

/// Range reads.
pub trait ViewRange<K: MapKey> {
    /// `range` can be read.
    spec fn ready_to_range(&self, range: KeyRange<K>) -> bool;

    /// Reading `range` may give `r`.
    spec fn may_give_range(
        &self,
        range: KeyRange<K>,
        r: Result<IOResultStream<(K, SeqMarked<K::V>)>, io::Error>,
    ) -> bool;

    /// Reads the keys of a range.
    fn range(&self, range: KeyRange<K>) -> (r: Result<
        IOResultStream<(K, SeqMarked<K::V>)>,
        io::Error,
    >)
        requires
            self.ready_to_range(range),
        ensures
            self.may_give_range(range, r),
    ;
}

/// Writes.
pub trait ViewSet<K: MapKey>: Sized {
    /// A value, or a deletion, can be written.
    spec fn ready_to_set(&self, value: Option<K::V>) -> bool;

    /// `after` is this view after `value` was written under `key` at `mark`.
    spec fn becomes(
        &self,
        key: K,
        value: Option<K::V>,
        after: &Self,
        mark: SeqMarked<()>,
    ) -> bool;

    /// Writes a value, or a deletion, and returns the order it was given.
    fn set(&mut self, key: K, value: Option<K::V>) -> (r: SeqMarked<()>)
        requires
            old(self).ready_to_set(value),
        ensures
            old(self).becomes(key, value, final(self), r),
    ;
}

/// Combined API for a view that owns its sequence boundary.
///
/// This trait combines point reads, range reads, and writes over one key-value space.
pub trait ViewApi<K: MapKey>: ViewGet<K> + ViewRange<K> + ViewSet<K> {

}

impl<K: MapKey, T: ViewGet<K> + ViewRange<K> + ViewSet<K>> ViewApi<K> for T {

}

} // verus!
