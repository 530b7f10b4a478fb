//! Reads at an explicit sequence number for a single key-value space.

use crate::io_result::{all_ok, into_stream, may_read_in_turn, may_succeed, oks, IOResultStream};
use crate::map_key::MapKey;
use crate::seq_marked::{marked_cloned, SeqMarked};
use crate::table::{unref_items, Table};
use crate::visibility::{range_readable, read, readable, scan, valid_range, KeyRange};
use std::io;
use vstd::prelude::*;

verus! {

/// Gets values visible at a supplied snapshot sequence.
///
/// The implementor does not own a snapshot sequence. Callers provide it for every read.
pub trait GetAtSeq<K: MapKey> {
    /// `key` can be read at `snapshot_seq`. A reader that says nothing can always be asked.
    open spec fn can_get_at(&self, key: K, snapshot_seq: u64) -> bool {
        true
    }

    /// Reading `key` at `snapshot_seq` may give `r`. A reader that says nothing may give
    /// anything.
    open spec fn may_get_at(
        &self,
        key: K,
        snapshot_seq: u64,
        r: Result<SeqMarked<K::V>, io::Error>,
    ) -> bool {
        true
    }

    /// Reads one key.
    fn get_at_seq(&self, key: K, snapshot_seq: u64) -> (r: Result<SeqMarked<K::V>, io::Error>)
        requires
            self.can_get_at(key, snapshot_seq),
        ensures
            self.may_get_at(key, snapshot_seq, r),
    ;

    /// Reads each of the keys, up to the first read that fails.
    fn get_many_at_seq(&self, keys: Vec<K>, snapshot_seq: u64) -> (r: Result<
        Vec<SeqMarked<K::V>>,
        io::Error,
    >)
        requires
            forall|i: int|
                0 <= i < keys@.len() ==> self.can_get_at(#[trigger] keys@[i], snapshot_seq),
        ensures
            may_read_in_turn(
                |key: K, got: Result<SeqMarked<K::V>, io::Error>|
                    self.may_get_at(key, snapshot_seq, got),
                keys@,
                r,
            ),
    {
        let ghost all = keys@;
        let ghost may = |key: K, got: Result<SeqMarked<K::V>, io::Error>|
            self.may_get_at(key, snapshot_seq, got);
        let mut values: Vec<SeqMarked<K::V>> = Vec::with_capacity(keys.len());
        for key in it: keys
            invariant
                it.seq() == all,
                forall|i: int|
                    0 <= i < all.len() ==> self.can_get_at(#[trigger] all[i], snapshot_seq),
                values@.len() == it.index(),
                forall|i: int|
                    0 <= i < values@.len() ==> may(all[i], Ok(#[trigger] values@[i])),
                may == |key: K, got: Result<SeqMarked<K::V>, io::Error>|
                    self.may_get_at(key, snapshot_seq, got),
        {
            assert(key == all[it.index() as int]);
            match self.get_at_seq(key, snapshot_seq) {
                Ok(value) => {
                    values.push(value);
                },
                Err(e) => {
                    proof {
                        let n = it.index() as int;
                        assert forall|i: int| 0 <= i < n implies may_succeed(
                            may,
                            #[trigger] all[i],
                        ) by {
                            assert(may(all[i], Ok(values@[i])));
                        }
                        assert(may(all[n], Err(e)));
                    }
                    return Err(e);
                },
            }
        }
        Ok(values)
    }
}

impl<K: MapKey> GetAtSeq<K> for Table<K, K::V> {
    /// The table is sound, and the version to be seen has a value unless it is a deletion.
    open spec fn can_get_at(&self, key: K, snapshot_seq: u64) -> bool {
        self.wf() && readable(self.inner@, key, snapshot_seq)
    }

    /// A clone of what a reader at `snapshot_seq` sees. Reading a table does not fail.
    open spec fn may_get_at(
        &self,
        key: K,
        snapshot_seq: u64,
        r: Result<SeqMarked<K::V>, io::Error>,
    ) -> bool {
        r matches Ok(value) && marked_cloned(read(self.inner@, key, snapshot_seq), value)
    }

    fn get_at_seq(&self, key: K, snapshot_seq: u64) -> (r: Result<SeqMarked<K::V>, io::Error>) {
        Ok(self.get(key, snapshot_seq).cloned())
    }
}

/// Ranges over values visible at a supplied snapshot sequence.
///
/// The implementor does not own a snapshot sequence. Callers provide it for every read.
pub trait RangeAtSeq<K: MapKey> {
    /// `range` can be read at `snapshot_seq`. A reader that says nothing can always be asked.
    open spec fn can_range_at(&self, range: KeyRange<K>, snapshot_seq: u64) -> bool {
        true
    }

    /// Reading `range` at `snapshot_seq` may give `r`. A reader that says nothing may give
    /// anything.
    open spec fn may_range_at(
        &self,
        range: KeyRange<K>,
        snapshot_seq: u64,
        r: Result<IOResultStream<(K, SeqMarked<K::V>)>, io::Error>,
    ) -> bool {
        true
    }

    /// Reads the keys of a range.
    fn range_at_seq(&self, range: KeyRange<K>, snapshot_seq: u64) -> (r: Result<
        IOResultStream<(K, SeqMarked<K::V>)>,
        io::Error,
    >)
        requires
            self.can_range_at(range, snapshot_seq),
        ensures
            self.may_range_at(range, snapshot_seq, r),
    ;
}

/// `b` is what cloning the items `a` may give.
pub open spec fn items_cloned<K: Clone, V: Clone>(
    a: Seq<(K, SeqMarked<V>)>,
    b: Seq<(K, SeqMarked<V>)>,
) -> bool {
    &&& a.len() == b.len()
    &&& forall|i: int|
        0 <= i < a.len() ==> cloned(a[i].0, (#[trigger] b[i]).0) && marked_cloned(a[i].1, b[i].1)
}

/// Clones of the items of a range read.
pub fn clone_items<K: MapKey>(items: Vec<(&K, SeqMarked<&K::V>)>) -> (r: Vec<
    (K, SeqMarked<K::V>),
>)
    ensures
        items_cloned(unref_items(items@), r@),
{
    let ghost all = items@;
    let mut result: Vec<(K, SeqMarked<K::V>)> = Vec::with_capacity(items.len());
    for item in it: items
        invariant
            it.seq() == all,
            result@.len() == it.index(),
            forall|i: int|
                0 <= i < result@.len() ==> cloned(
                    *all[i].0,
                    (#[trigger] result@[i]).0,
                ) && marked_cloned(all[i].1.unref(), result@[i].1),
    {
        assert(item == all[it.index() as int]);
        result.push((item.0.clone(), item.1.cloned()));
    }
    result
}

impl<K: MapKey> RangeAtSeq<K> for Table<K, K::V> {
    /// The table and the range are sound, and the versions to be seen have values unless they
    /// are deletions.
    open spec fn can_range_at(&self, range: KeyRange<K>, snapshot_seq: u64) -> bool {
        self.wf() && valid_range(range) && range_readable(self.inner@, range, snapshot_seq)
    }

    /// Clones of what a reader at `snapshot_seq` sees, key by key in the order of the keys.
    /// Reading a table does not fail.
    open spec fn may_range_at(
        &self,
        range: KeyRange<K>,
        snapshot_seq: u64,
        r: Result<IOResultStream<(K, SeqMarked<K::V>)>, io::Error>,
    ) -> bool {
        r matches Ok(items) && all_ok(items@) && items_cloned(
            scan(self.inner@, range, snapshot_seq),
            oks(items@),
        )
    }

    fn range_at_seq(&self, range: KeyRange<K>, snapshot_seq: u64) -> (r: Result<
        IOResultStream<(K, SeqMarked<K::V>)>,
        io::Error,
    >) {
        let items = clone_items(self.range(range, snapshot_seq));
        Ok(into_stream(items))
    }
}

} // verus!
