//! In-memory table of versioned records.

pub mod errors;

use crate::io_result::{all_ok, first_failure, oks, IOResultStream};
use crate::order::{key_eq, key_lt, key_same, lemma_key_transitive, lemma_key_trichotomy, ordered};
use crate::seq_marked::{normal_mark, tombstone_mark, SeqMarked};
use crate::table::errors::InsertError;
use crate::versions::{extended, inserted, lemma_inserted, slot_lt, Record, VersionMap};
use crate::visibility::{
    all_upto, complete, content, ends_after, from_start, has_value, in_view, is_shown,
    lemma_behind_end, lemma_extended, lemma_filter_next, lemma_filter_none, lemma_keys_ascend,
    lemma_same_start, lemma_shown_at_position, lemma_shown_unique, newest, range_readable, read,
    readable, scan, shown, valid_range, KeyRange,
};
use std::io;
use std::ops::Bound;
use vstd::prelude::*;

verus! {

/// In-memory table containing multiple versions of key-value pairs.
///
/// Each key can have multiple versions identified by sequence numbers, enabling snapshot
/// isolation. All versions of a key remain in the table.
#[derive(Debug)]
pub struct Table<K, V> {
    /// The versions, keyed by key and order, the newest version of a key first.
    ///
    /// - `Some(value)`: regular record
    /// - `None`: tombstone (deletion marker)
    pub inner: VersionMap<K, V>,
    /// The order of the last insertion, whose sequence number is the highest in the table.
    ///
    /// The last inserted record may be a tombstone. Multiple records may share a sequence
    /// number when a view does not increment it for a secondary change.
    pub last_seq: SeqMarked<()>,
}

/// The references that a range read hands out, as the values that they refer to.
pub open spec fn unref_items<K, V>(items: Seq<(&K, SeqMarked<&V>)>) -> Seq<(K, SeqMarked<V>)> {
    items.map_values(|item: (&K, SeqMarked<&V>)| (*item.0, item.1.unref()))
}

/// The records that make up the items of a stream.
pub open spec fn records_of<K, V>(items: Seq<(K, SeqMarked<V>)>) -> Seq<Record<K, V>> {
    items.map_values(|item: (K, SeqMarked<V>)| ((item.0, item.1.mark()), item.1.data()))
}

/// The last order among the items of a stream.
pub open spec fn last_mark<K, V>(items: Seq<(K, SeqMarked<V>)>) -> SeqMarked<()>
    decreases items.len(),
{
    if items.len() == 0 {
        normal_mark(0)
    } else {
        let before = last_mark(items.drop_last());
        if items.last().1.rank() > before.rank() {
            items.last().1.mark()
        } else {
            before
        }
    }
}

/// Whether a version has a value, unless it is a deletion.
fn carries_value<K, V>(record: &Record<K, V>) -> (r: bool)
    ensures
        r == has_value(*record),
{
    record.0.1.is_tombstone() || record.1.is_some()
}

impl<K: Ord, V> Default for Table<K, V> {
    fn default() -> (r: Self)
        ensures
            r.inner@ == Seq::<Record<K, V>>::empty(),
            r.last_seq == normal_mark(0),
            ordered::<K>() ==> r.wf() && r.sound(),
    {
        Table::new()
    }
}

impl<K: Ord, V> Table<K, V> {
    /// The keys are ordered, and the versions stand in that order.
    pub open spec fn wf(self) -> bool {
        self.inner.wf()
    }

    /// The table is well-formed, every version in it that is no deletion has a value, and none
    /// is newer than the last sequence number. Tables that were filled only by the methods of
    /// this type are sound, and every key and every valid range of a sound table can be read.
    pub open spec fn sound(self) -> bool {
        self.wf() && complete(self.inner@) && all_upto(self.inner@, self.last_seq.seq)
    }

    /// An empty table.
    pub fn new() -> (r: Self)
        ensures
            r.inner@ == Seq::<Record<K, V>>::empty(),
            r.last_seq == normal_mark(0),
            ordered::<K>() ==> r.wf() && r.sound(),
    {
        Table { inner: VersionMap::new(), last_seq: SeqMarked::zero() }
    }

    /// A table of the records of a stream, in whatever order they come. Fails with the first
    /// failure of the stream.
    pub fn from_stream(stream: IOResultStream<(K, SeqMarked<V>)>) -> (r: Result<Self, io::Error>)
        requires
            ordered::<K>(),
        ensures
            match r {
                Ok(table) => {
                    &&& all_ok(stream@)
                    &&& table.wf()
                    &&& table.sound()
                    &&& table.inner@ == extended(Seq::empty(), records_of(oks(stream@)))
                    &&& table.last_seq == last_mark(oks(stream@))
                },
                Err(e) => first_failure(stream@, e),
            },
    {
        let ghost all = stream@;
        let mut table = Table::new();
        for item in it: stream
            invariant
                ordered::<K>(),
                it.seq() == all,
                all_ok(all.take(it.index() as int)),
                table.wf(),
                table.sound(),
                table.inner@ == extended(
                    Seq::empty(),
                    records_of(oks(all.take(it.index() as int))),
                ),
                table.last_seq == last_mark(oks(all.take(it.index() as int))),
        {
            let ghost n = it.index() as int;
            let ghost done = oks(all.take(n));
            let ghost next = oks(all.take(n + 1));
            match item {
                Ok((key, value)) => {
                    proof {
                        assert(next.drop_last() =~= done);
                        assert(next.last() == (key, value));
                        assert(records_of(next).drop_last() =~= records_of(done));
                        assert forall|i: int| 0 <= i < n + 1 implies (#[trigger] all.take(
                            n + 1,
                        )[i]) is Ok by {
                            if i < n {
                                assert(all.take(n)[i] is Ok);
                            }
                        }
                    }
                    table.load(key, value);
                },
                Err(e) => {
                    assert(all[n] == Err::<(K, SeqMarked<V>), io::Error>(e));
                    return Err(e);
                },
            }
        }
        proof {
            assert(all.take(all.len() as int) =~= all);
        }
        Ok(table)
    }

    /// Writing a version that is complete keeps the versions complete, and leaves none newer
    /// than both the version and the last sequence number.
    proof fn lemma_written(self, key: K, mark: SeqMarked<()>, value: Option<V>)
        requires
            self.wf(),
        ensures
            self.sound() && has_value(((key, mark), value)) ==> complete(
                inserted(self.inner@, (key, mark), value),
            ),
            self.sound() && self.last_seq.seq <= mark.seq ==> all_upto(
                inserted(self.inner@, (key, mark), value),
                mark.seq,
            ),
            self.sound() && mark.seq <= self.last_seq.seq ==> all_upto(
                inserted(self.inner@, (key, mark), value),
                self.last_seq.seq,
            ),
    {
        lemma_inserted(self.inner@, (key, mark), value);
    }

    /// Adds a record at its own order, which may come before that of the last insertion.
    pub fn load(&mut self, key: K, value: SeqMarked<V>)
        requires
            old(self).wf(),
        ensures
            final(self).wf(),
            final(self).inner@ == inserted(old(self).inner@, (key, value.mark()), value.data()),
            final(self).last_seq == if value.rank() > old(self).last_seq.rank() {
                value.mark()
            } else {
                old(self).last_seq
            },
            old(self).sound() ==> final(self).sound(),
    {
        proof {
            self.lemma_written(key, value.mark(), value.data());
        }
        let order_key = value.order_key();
        let data = value.into_data();
        let _ = self.inner.insert((key, order_key), data);
        if order_key.is_after(&self.last_seq) {
            self.last_seq = order_key;
        }
    }

    /// Get the value for a key at or before the specified sequence number.
    /// Returns the most recent version that is not newer than `upto`.
    ///
    /// Note: `upto` is a sequence number without a mark. A deletion with this very number is
    /// seen too.
    pub fn get(&self, key: K, upto: u64) -> (r: SeqMarked<&V>)
        requires
            self.wf(),
            readable(self.inner@, key, upto),
        ensures
            r.unref() == read(self.inner@, key, upto),
    {
        self.get_by_ref(&key, upto)
    }

    /// `get`, of a borrowed key.
    pub fn get_by_ref(&self, key: &K, upto: u64) -> (r: SeqMarked<&V>)
        requires
            self.wf(),
            readable(self.inner@, *key, upto),
        ensures
            r.unref() == read(self.inner@, *key, upto),
    {
        let i: usize = self.inner.position(key, &SeqMarked::new_tombstone(upto));
        proof {
            lemma_shown_at_position(self.inner@, *key, upto);
        }
        if i < self.inner.len() {
            let record = self.inner.at(i);
            if key_same(&record.0.0, key) {
                proof {
                    lemma_shown_unique(self.inner@, *key, upto, *record, *record);
                    assert(has_value(*record));
                }
                if record.0.1.is_tombstone() {
                    return SeqMarked::new_tombstone(record.0.1.seq);
                }
                match &record.1 {
                    Some(value) => {
                        return SeqMarked::new_normal(record.0.1.seq, value);
                    },
                    None => {
                        assert(false);
                    },
                }
            }
        }
        proof {
            if is_shown(self.inner@, *key, upto) {
                let r = choose|r: Record<K, V>| shown(self.inner@, *key, upto, r);
                assert(self.inner@.contains(r));
            }
        }
        SeqMarked::new_not_found()
    }

    /// What a reader at `upto` sees of the keys of `range`, key by key in the order of the
    /// keys.
    ///
    /// Note: `upto` is a sequence number without a mark. A deletion with this very number is
    /// seen too.
    pub fn range(&self, range: KeyRange<K>, upto: u64) -> (r: Vec<(&K, SeqMarked<&V>)>)
        requires
            self.wf(),
            valid_range(range),
            range_readable(self.inner@, range, upto),
        ensures
            unref_items(r@) == scan(self.inner@, range, upto),
    {
        let ghost s = self.inner@;
        let ghost p = in_view(s, range, upto);
        let ghost f = |r: Record<K, V>| (r.0.0, content(r));
        let start: usize = self.start_index(&range.0);
        let mut items: Vec<(&K, SeqMarked<&V>)> = Vec::new();
        let mut last: Option<usize> = None;
        let mut i: usize = start;
        proof {
            assert(forall|j: int| 0 <= j < start ==> !p(s[j]));
            lemma_filter_none(s, p, 0, start as int);
            reveal(Seq::filter);
            assert(unref_items(items@) =~= s.take(start as int).filter(p).map_values(f));
        }
        while i < self.inner.len() && ends_after(&range.1, &self.inner.at(i).0.0)
            invariant
                self.wf(),
                s == self.inner@,
                p == in_view(s, range, upto),
                f == |r: Record<K, V>| (r.0.0, content(r)),
                range_readable(s, range, upto),
                start <= i <= s.len(),
                forall|j: int| start <= j < s.len() ==> from_start(range.0, (#[trigger] s[j]).0.0),
                forall|j: int|
                    0 <= j < start ==> !from_start(range.0, (#[trigger] s[j]).0.0),
                unref_items(items@) == s.take(i as int).filter(p).map_values(f),
                match last {
                    None => forall|j: int| start <= j < i ==> (#[trigger] s[j]).0.1.seq > upto,
                    Some(l) => {
                        &&& start <= l < i
                        &&& s[l as int].0.1.seq <= upto
                        &&& forall|j: int|
                            start <= j < i && (#[trigger] s[j]).0.1.seq <= upto ==> !key_lt(
                                s[l as int].0.0,
                                s[j].0.0,
                            )
                    },
                },
            decreases s.len() - i,
        {
            let record = self.inner.at(i);
            let fresh = match last {
                Some(l) => !key_same(&self.inner.at(l).0.0, &record.0.0),
                None => true,
            };
            proof {
                lemma_filter_next(s, p, i as int);
                assert(s.contains(s[i as int]));
                if record.0.1.seq <= upto {
                    if fresh {
                        assert forall|q: Record<K, V>| #[trigger]
                            s.contains(q) && key_eq(q.0.0, record.0.0) && q.0.1.seq
                                <= upto implies q.0.1.rank() <= record.0.1.rank() by {
                            let j = choose|j: int| 0 <= j < s.len() && s[j] == q;
                            lemma_key_trichotomy(q.0.0, record.0.0);
                            if i < j {
                                lemma_keys_ascend(s, i as int, j);
                            } else if start <= j < i {
                                let l = last->0 as int;
                                lemma_keys_ascend(s, l, i as int);
                                lemma_key_trichotomy(s[l].0.0, record.0.0);
                                lemma_key_trichotomy(s[l].0.0, q.0.0);
                                lemma_key_transitive(s[l].0.0, record.0.0, q.0.0);
                                assert(false);
                            } else if j < start {
                                lemma_same_start(range.0, q.0.0, record.0.0);
                                assert(false);
                            }
                        }
                        assert(p(s[i as int]));
                    } else {
                        let l = last->0 as int;
                        lemma_keys_ascend(s, l, i as int);
                        lemma_key_trichotomy(s[l].0.0, record.0.0);
                        assert(s.contains(s[l]));
                        assert(!p(s[i as int]));
                    }
                }
            }
            let ghost before = items@;
            if record.0.1.seq <= upto && fresh {
                let value = if record.0.1.is_tombstone() {
                    SeqMarked::new_tombstone(record.0.1.seq)
                } else {
                    match &record.1 {
                        Some(value) => SeqMarked::new_normal(record.0.1.seq, value),
                        None => {
                            assert(has_value(*record));
                            SeqMarked::new_not_found()
                        },
                    }
                };
                items.push((&record.0.0, value));
                last = Some(i);
                proof {
                    assert(unref_items(items@) =~= unref_items(before).push(f(s[i as int])));
                    assert(s.take(i + 1).filter(p).map_values(f) =~= s.take(
                        i as int,
                    ).filter(p).map_values(f).push(f(s[i as int])));
                    assert forall|j: int|
                        start <= j < i + 1 && (#[trigger] s[j]).0.1.seq <= upto implies !key_lt(
                        s[i as int].0.0,
                        s[j].0.0,
                    ) by {
                        lemma_keys_ascend(s, j, i as int);
                    }
                }
            } else {
                proof {
                    if record.0.1.seq <= upto {
                        let l = last->0 as int;
                        lemma_key_trichotomy(s[l].0.0, record.0.0);
                    }
                }
            }
            i = i + 1;
        }
        proof {
            if i < s.len() {
                assert forall|j: int| i <= j < s.len() implies !p(#[trigger] s[j]) by {
                    lemma_keys_ascend(s, i as int, j);
                    lemma_behind_end(range.1, s[i as int].0.0, s[j].0.0);
                }
            }
            lemma_filter_none(s, p, i as int, s.len() as int);
            assert(s.take(s.len() as int) =~= s);
        }
        items
    }

    /// Whether the version of `key` that a reader at `upto` sees has a value, unless it is a
    /// deletion.
    pub fn is_readable(&self, key: &K, upto: u64) -> (r: bool)
        requires
            self.wf(),
        ensures
            r == readable(self.inner@, *key, upto),
    {
        let ghost s = self.inner@;
        let i: usize = self.inner.position(key, &SeqMarked::new_tombstone(upto));
        proof {
            lemma_shown_at_position(s, *key, upto);
        }
        if i < self.inner.len() && key_same(&self.inner.at(i).0.0, key) {
            proof {
                assert forall|q: Record<K, V>| shown(s, *key, upto, q) implies q == s[i as int] by {
                    lemma_shown_unique(s, *key, upto, q, s[i as int]);
                }
            }
            carries_value(self.inner.at(i))
        } else {
            proof {
                assert forall|q: Record<K, V>| !shown(s, *key, upto, q) by {
                    assert(!(s.contains(q) && key_eq(q.0.0, *key) && q.0.1.seq <= upto));
                }
            }
            true
        }
    }

    /// Whether the versions that a reader at `upto` sees of the keys of `range` have values,
    /// unless they are deletions.
    pub fn is_range_readable(&self, range: &KeyRange<K>, upto: u64) -> (r: bool)
        requires
            self.wf(),
        ensures
            r == range_readable(self.inner@, *range, upto),
    {
        let ghost s = self.inner@;
        let start: usize = self.start_index(&range.0);
        let mut i: usize = start;
        while i < self.inner.len() && ends_after(&range.1, &self.inner.at(i).0.0)
            invariant
                self.wf(),
                s == self.inner@,
                start <= i <= s.len(),
                forall|j: int| start <= j < s.len() ==> from_start(range.0, (#[trigger] s[j]).0.0),
                forall|j: int|
                    0 <= j < start ==> !from_start(range.0, (#[trigger] s[j]).0.0),
                forall|j: int|
                    start <= j < i && newest(s, upto, #[trigger] s[j]) ==> has_value(s[j]),
            decreases s.len() - i,
        {
            let record = self.inner.at(i);
            if !carries_value(record) && record.0.1.seq <= upto {
                let first: usize = self.inner.position(
                    &record.0.0,
                    &SeqMarked::new_tombstone(upto),
                );
                proof {
                    lemma_key_trichotomy(record.0.0, record.0.0);
                    lemma_shown_at_position(s, record.0.0, upto);
                    assert(s.contains(s[i as int]));
                }
                if first == i {
                    assert(in_view(s, *range, upto)(s[i as int]));
                    return false;
                }
                proof {
                    if newest(s, upto, s[i as int]) {
                        lemma_shown_unique(
                            s,
                            record.0.0,
                            upto,
                            s[i as int],
                            s[first as int],
                        );
                        if first < i {
                            lemma_keys_ascend(s, first as int, i as int);
                        } else {
                            lemma_keys_ascend(s, i as int, first as int);
                        }
                    }
                }
            }
            i = i + 1;
        }
        proof {
            assert forall|q: Record<K, V>| #[trigger]
                s.contains(q) && in_view(s, *range, upto)(q) implies has_value(q) by {
                let j = choose|j: int| 0 <= j < s.len() && s[j] == q;
                if i <= j {
                    lemma_keys_ascend(s, i as int, j);
                    lemma_behind_end(range.1, s[i as int].0.0, s[j].0.0);
                }
            }
        }
        true
    }

    /// The number of records that lie before the start of a range.
    fn start_index(&self, start: &Bound<K>) -> (r: usize)
        requires
            self.wf(),
        ensures
            r <= self.inner@.len(),
            forall|j: int| 0 <= j < r ==> !from_start(*start, (#[trigger] self.inner@[j]).0.0),
            forall|j: int|
                r <= j < self.inner@.len() ==> from_start(*start, (#[trigger] self.inner@[j]).0.0),
    {
        let ghost s = self.inner@;
        match start {
            Bound::Included(key) => {
                // No record of `key` is newer than the greatest order.
                let i: usize = self.inner.position(key, &SeqMarked::max_value());
                proof {
                    assert forall|j: int| i <= j < s.len() implies !key_lt(
                        (#[trigger] s[j]).0.0,
                        *key,
                    ) by {
                        assert(!slot_lt(s[j].0, (*key, tombstone_mark(u64::MAX))));
                    }
                    assert forall|j: int| 0 <= j < i implies key_lt(
                        (#[trigger] s[j]).0.0,
                        *key,
                    ) by {
                        assert(slot_lt(s[j].0, (*key, tombstone_mark(u64::MAX))));
                    }
                }
                i
            },
            Bound::Excluded(key) => {
                // Of the records of `key` only that of the oldest order may follow.
                let i: usize = self.inner.position(key, &SeqMarked::zero());
                proof {
                    assert forall|j: int| 0 <= j < i implies !key_lt(
                        *key,
                        (#[trigger] s[j]).0.0,
                    ) by {
                        assert(slot_lt(s[j].0, (*key, normal_mark(0))));
                        lemma_key_trichotomy(s[j].0.0, *key);
                        lemma_key_trichotomy(*key, s[j].0.0);
                    }
                    assert forall|j: int| i <= j < s.len() implies (key_lt(
                        *key,
                        (#[trigger] s[j]).0.0,
                    ) || (j == i && key_eq(s[j].0.0, *key))) by {
                        assert(!slot_lt(s[j].0, (*key, normal_mark(0))));
                        lemma_key_trichotomy(s[j].0.0, *key);
                        if i < j && key_eq(s[j].0.0, *key) {
                            lemma_keys_ascend(s, i as int, j);
                            assert(!slot_lt(s[i as int].0, (*key, normal_mark(0))));
                            lemma_key_trichotomy(s[i as int].0.0, *key);
                            lemma_key_trichotomy(s[i as int].0.0, s[j].0.0);
                            lemma_key_transitive(s[i as int].0.0, s[j].0.0, *key);
                            lemma_key_transitive(*key, s[i as int].0.0, s[j].0.0);
                            assert(false);
                        }
                    }
                    if i < s.len() {
                        lemma_key_trichotomy(s[i as int].0.0, *key);
                    }
                }
                if i < self.inner.len() && key_same(&self.inner.at(i).0.0, key) {
                    i + 1
                } else {
                    i
                }
            },
            Bound::Unbounded => 0,
        }
    }

    /// `get` for each of the keys.
    pub fn get_many(&self, keys: Vec<K>, upto: u64) -> (r: Vec<SeqMarked<&V>>)
        requires
            self.wf(),
            forall|i: int|
                0 <= i < keys@.len() ==> readable(self.inner@, #[trigger] keys@[i], upto),
        ensures
            r@.len() == keys@.len(),
            forall|i: int|
                0 <= i < keys@.len() ==> (#[trigger] r@[i]).unref() == read(
                    self.inner@,
                    keys@[i],
                    upto,
                ),
    {
        let ghost all = keys@;
        let mut result: Vec<SeqMarked<&V>> = Vec::with_capacity(keys.len());
        for key in it: keys
            invariant
                self.wf(),
                it.seq() == all,
                forall|i: int|
                    0 <= i < all.len() ==> readable(self.inner@, #[trigger] all[i], upto),
                result@.len() == it.index(),
                forall|i: int|
                    0 <= i < result@.len() ==> (#[trigger] result@[i]).unref() == read(
                        self.inner@,
                        all[i],
                        upto,
                    ),
        {
            assert(key == all[it.index() as int]);
            result.push(self.get(key, upto));
        }
        result
    }

    /// Inserts a record with a value.
    ///
    /// The sequence number must not be smaller than that of the last insertion; multiple
    /// records may use the same one.
    pub fn insert(&mut self, key: K, seq: u64, value: V) -> (r: Result<(), InsertError>)
        requires
            old(self).wf(),
        ensures
            final(self).wf(),
            match r {
                Ok(()) => {
                    &&& seq >= old(self).last_seq.seq
                    &&& final(self).last_seq == normal_mark(seq)
                    &&& final(self).inner@ == inserted(
                        old(self).inner@,
                        (key, normal_mark(seq)),
                        Some(value),
                    )
                },
                Err(e) => {
                    &&& seq < old(self).last_seq.seq
                    &&& e == (InsertError::NonIncremental {
                        last: old(self).last_seq,
                        current: normal_mark(seq),
                    })
                    &&& *final(self) == *old(self)
                },
            },
            old(self).sound() ==> final(self).sound(),
    {
        self.internal_insert(key, SeqMarked::new_normal(seq, ()), Some(value))
    }

    /// Inserts the deletion of a key, under the same rule.
    pub fn insert_tombstone(&mut self, key: K, seq: u64) -> (r: Result<(), InsertError>)
        requires
            old(self).wf(),
        ensures
            final(self).wf(),
            match r {
                Ok(()) => {
                    &&& seq >= old(self).last_seq.seq
                    &&& final(self).last_seq == tombstone_mark(seq)
                    &&& final(self).inner@ == inserted(
                        old(self).inner@,
                        (key, tombstone_mark(seq)),
                        None,
                    )
                },
                Err(e) => {
                    &&& seq < old(self).last_seq.seq
                    &&& e == (InsertError::NonIncremental {
                        last: old(self).last_seq,
                        current: tombstone_mark(seq),
                    })
                    &&& *final(self) == *old(self)
                },
            },
            old(self).sound() ==> final(self).sound(),
    {
        self.internal_insert(key, SeqMarked::new_tombstone(seq), None)
    }

    fn internal_insert(
        &mut self,
        key: K,
        seq_marked: SeqMarked<()>,
        value: Option<V>,
    ) -> (r: Result<(), InsertError>)
        requires
            old(self).wf(),
        ensures
            final(self).wf(),
            match r {
                Ok(()) => {
                    &&& seq_marked.seq >= old(self).last_seq.seq
                    &&& final(self).last_seq == seq_marked
                    &&& final(self).inner@ == inserted(old(self).inner@, (key, seq_marked), value)
                },
                Err(e) => {
                    &&& seq_marked.seq < old(self).last_seq.seq
                    &&& e == (InsertError::NonIncremental {
                        last: old(self).last_seq,
                        current: seq_marked,
                    })
                    &&& *final(self) == *old(self)
                },
            },
            old(self).sound() && has_value((
                (key, seq_marked),
                value,
            )) ==> final(self).sound(),
    {
        proof {
            self.lemma_written(key, seq_marked, value);
        }
        if seq_marked.seq < self.last_seq.seq {
            return Err(
                InsertError::NonIncremental { last: self.last_seq, current: seq_marked },
            );
        }
        self.last_seq = seq_marked;
        let _ = self.inner.insert((key, seq_marked), value);
        Ok(())
    }

    /// Writes all records of `other` into this table, and takes over its last order, which
    /// must not come before this table's.
    pub fn apply(&mut self, other: Self)
        requires
            old(self).wf(),
            old(self).last_seq.rank() <= other.last_seq.rank(),
        ensures
            final(self).wf(),
            final(self).last_seq == other.last_seq,
            final(self).inner@ == extended(old(self).inner@, other.inner@),
            old(self).sound() && other.sound() ==> final(self).sound(),
    {
        self.apply_changes(other.last_seq, other.inner.into_records());
    }

    /// Writes the changes into this table, one after the other, and takes over their last
    /// order, which must not come before this table's.
    pub fn apply_changes(&mut self, last_seq: SeqMarked<()>, changes: Vec<Record<K, V>>)
        requires
            old(self).wf(),
            old(self).last_seq.rank() <= last_seq.rank(),
        ensures
            final(self).wf(),
            final(self).last_seq == last_seq,
            final(self).inner@ == extended(old(self).inner@, changes@),
            old(self).sound() && complete(changes@) && all_upto(changes@, last_seq.seq)
                ==> final(self).sound(),
    {
        proof {
            lemma_extended(self.inner@, changes@, last_seq.seq);
            if self.sound() {
                assert(all_upto(self.inner@, last_seq.seq));
            }
        }
        self.inner.extend(changes);
        self.last_seq = last_seq;
    }
}

} // verus!
