//! A read-write view over one key-value space.

use crate::compact::compact_seq_marked_pair;
use crate::io_result::{
    all_ok, may_read_in_turn, may_succeed, ok_items, oks, IOResultStream,
};
use crate::map_key::{faithful_clone, MapKey};
use crate::order::ordered;
use crate::read_at_seq::{clone_items, items_cloned, GetAtSeq, RangeAtSeq};
use crate::seq_marked::{marked_cloned, normal_mark, tombstone_mark, InternalSeq, Marked, SeqMarked};
use crate::snapshot::Snapshot;
use crate::table::Table;
use crate::util::{keys_ascend, merge_of, merge_reads, overlaid};
use crate::laws::reading::{lemma_clones_ascend, lemma_scan_ascends};
use crate::versions::{inserted, lemma_inserted, Record};
use crate::view_api::{ViewGet, ViewRange, ViewSet};
use crate::visibility::{
    range_readable, read, readable, scan, valid_range, KeyRange,
};
use std::io;
use std::ops::Bound;
use vstd::prelude::*;
use vstd::view::View as _;

verus! {

/// A transaction view with a fixed base snapshot and staged changes.
#[derive(Debug)]
pub struct View<K: MapKey, D> {
    /// Whether deleting a key allocates a new sequence.
    pub increase_seq_for_tombstone: bool,
    /// The staged changes.
    pub changes: Table<K, K::V>,
    /// The last sequence number that was used.
    pub last_seq: InternalSeq,
    /// The snapshot below the changes.
    pub snapshot: Snapshot<K, D>,
}

impl<K: MapKey, D> View<K, D> {
    /// The table of staged changes is well-formed.
    pub open spec fn wf(self) -> bool {
        self.changes.wf()
    }

    /// The staged changes are complete, and none is newer than the last sequence number. Views
    /// whose sequence number was not set back are sound, every key and every valid range of a
    /// sound view can be read as far as its snapshot can, and every change can be staged whose
    /// sequence number does not overflow.
    pub open spec fn sound(self) -> bool {
        self.changes.sound() && self.changes.last_seq.seq <= self.last_seq.seq
    }

    /// Every staged change comes after all normal data of the snapshot, as all changes do that
    /// were staged under new sequence numbers, and deletions.
    pub open spec fn follows_snapshot(self) -> bool {
        &&& self.snapshot.snapshot_seq.seq <= self.last_seq.seq
        &&& forall|r: Record<K, K::V>| #[trigger]
            self.changes.inner@.contains(r) ==> r.0.1.rank() > 2 * self.snapshot.snapshot_seq.seq
    }

    /// What the staged changes say of `key`.
    pub open spec fn staged(self, key: K) -> SeqMarked<K::V> {
        read(self.changes.inner@, key, self.last_seq.seq)
    }

    /// The sequence number that staging `value` uses. A new one is allocated only where
    /// `increase_seq` asks for it, and for a deletion only where the view is also set to do so.
    pub open spec fn seq_for(self, value: Option<K::V>, increase_seq: bool) -> int {
        if increase_seq && (value is Some || self.increase_seq_for_tombstone) {
            self.last_seq.seq + 1
        } else {
            self.last_seq.seq as int
        }
    }

    /// `value` can be staged: its sequence number does not overflow, and is not smaller than
    /// that of the last staged change.
    pub open spec fn can_stage(self, value: Option<K::V>, increase_seq: bool) -> bool {
        &&& self.wf()
        &&& self.seq_for(value, increase_seq) <= u64::MAX
        &&& self.changes.last_seq.seq <= self.seq_for(value, increase_seq)
    }

    /// The order that staging `value` gives it.
    pub open spec fn mark_for(self, value: Option<K::V>, increase_seq: bool) -> SeqMarked<()> {
        let seq = self.seq_for(value, increase_seq) as u64;
        if value is Some {
            normal_mark(seq)
        } else {
            tombstone_mark(seq)
        }
    }

    /// `after` is this view with `value` staged under `key` at `mark`, and nothing else changed.
    pub open spec fn stages(
        self,
        key: K,
        value: Option<K::V>,
        mark: SeqMarked<()>,
        after: Self,
    ) -> bool {
        &&& after.wf()
        &&& after.changes.inner@ == inserted(self.changes.inner@, (key, mark), value)
        &&& after.changes.last_seq == mark
        &&& after.last_seq.seq == mark.seq
        &&& after.increase_seq_for_tombstone == self.increase_seq_for_tombstone
        &&& after.snapshot == self.snapshot
    }

    /// A view of the snapshot without changes. New sequence numbers follow that of the
    /// snapshot.
    pub fn new(snapshot: Snapshot<K, D>) -> (r: Self)
        ensures
            r.increase_seq_for_tombstone == false,
            r.changes.inner@ == Seq::<Record<K, K::V>>::empty(),
            r.changes.last_seq == normal_mark(0),
            r.last_seq == snapshot.snapshot_seq,
            r.snapshot == snapshot,
            ordered::<K>() ==> r.wf() && r.sound(),
            r.follows_snapshot(),
    {
        let last_seq = snapshot.snapshot_seq();
        View { increase_seq_for_tombstone: false, changes: Table::new(), last_seq, snapshot }
    }

    /// Sets whether deleting a key allocates a new sequence number, where a change may allocate
    /// one at all.
    pub fn with_tombstone_seq_increment(self, enable: bool) -> (r: Self)
        ensures
            r == (View { increase_seq_for_tombstone: enable, ..self }),
    {
        let mut view = self;
        view.increase_seq_for_tombstone = enable;
        view
    }

    /// Sets the sequence number that new ones follow.
    pub fn with_initial_seq(self, seq: InternalSeq) -> (r: Self)
        ensures
            r == (View { last_seq: seq, ..self }),
    {
        let mut view = self;
        view.last_seq = seq;
        view
    }

    /// The snapshot below the changes.
    pub fn snapshot(&self) -> (r: &Snapshot<K, D>)
        ensures
            *r == self.snapshot,
    {
        &self.snapshot
    }

    /// The snapshot below the changes, under its former name. Use `snapshot` instead.
    pub fn base(&self) -> (r: &Snapshot<K, D>)
        ensures
            *r == self.snapshot,
    {
        &self.snapshot
    }

    fn current_normal_seq(&self) -> (r: SeqMarked<()>)
        ensures
            r == normal_mark(self.last_seq.seq),
    {
        SeqMarked::new_normal(self.last_seq.seq, ())
    }

    fn next_normal_seq(&mut self) -> (r: SeqMarked<()>)
        requires
            old(self).last_seq.seq < u64::MAX,
        ensures
            r == normal_mark((old(self).last_seq.seq + 1) as u64),
            *final(self) == (View { last_seq: InternalSeq { seq: r.seq }, ..*old(self) }),
    {
        self.last_seq = InternalSeq::new(self.last_seq.seq + 1);
        SeqMarked::new_normal(self.last_seq.seq, ())
    }

    fn next_tombstone_seq(&mut self) -> (r: SeqMarked<()>)
        requires
            old(self).increase_seq_for_tombstone ==> old(self).last_seq.seq < u64::MAX,
        ensures
            r == tombstone_mark(
                if old(self).increase_seq_for_tombstone {
                    (old(self).last_seq.seq + 1) as u64
                } else {
                    old(self).last_seq.seq
                },
            ),
            *final(self) == (View { last_seq: InternalSeq { seq: r.seq }, ..*old(self) }),
    {
        if self.increase_seq_for_tombstone {
            self.last_seq = InternalSeq::new(self.last_seq.seq + 1);
        }
        SeqMarked::new_tombstone(self.last_seq.seq)
    }

    /// Whether `value` can be staged.
    pub fn accepts(&self, value: &Option<K::V>, increase_seq: bool) -> (r: bool)
        requires
            self.wf(),
        ensures
            r == self.can_stage(*value, increase_seq),
    {
        if increase_seq && (value.is_some() || self.increase_seq_for_tombstone) {
            self.last_seq.seq < u64::MAX && self.changes.last_seq.seq <= self.last_seq.seq + 1
        } else {
            self.changes.last_seq.seq <= self.last_seq.seq
        }
    }

    /// Stages a value or, with `None`, a deletion, and returns the order it was given.
    ///
    /// A value is given a new sequence number. A deletion uses the last one, unless the view is
    /// set to allocate one for it.
    pub fn set(&mut self, key: K, value: Option<K::V>) -> (r: SeqMarked<()>)
        requires
            old(self).can_stage(value, true),
        ensures
            r == old(self).mark_for(value, true),
            old(self).stages(key, value, r, *final(self)),
            old(self).sound() ==> final(self).sound(),
            old(self).follows_snapshot() ==> final(self).follows_snapshot(),
    {
        proof {
            lemma_inserted(self.changes.inner@, (key, self.mark_for(value, true)), value);
        }
        match value {
            Some(value) => {
                let seq = self.next_normal_seq();
                let _ = self.changes.insert(key, seq.seq, value);
                seq
            },
            None => {
                let seq = self.next_tombstone_seq();
                let _ = self.changes.insert_tombstone(key, seq.seq);
                seq
            },
        }
    }

    /// Stages a change, be it a value or a deletion, at the current sequence number instead of
    /// allocating a new one.
    pub fn set_without_seq_increment(&mut self, key: K, value: Option<K::V>) -> (r: SeqMarked<()>)
        requires
            old(self).can_stage(value, false),
        ensures
            r == old(self).mark_for(value, false),
            old(self).stages(key, value, r, *final(self)),
            old(self).sound() ==> final(self).sound(),
    {
        match value {
            Some(value) => {
                let seq = self.current_normal_seq();
                let _ = self.changes.insert(key, seq.seq, value);
                seq
            },
            None => {
                let seq = SeqMarked::new_tombstone(self.last_seq.seq);
                let _ = self.changes.insert_tombstone(key, seq.seq);
                seq
            },
        }
    }

    /// A clone of what the staged changes say of `key`.
    pub fn staged_value(&self, key: &K) -> (r: SeqMarked<K::V>)
        requires
            self.wf(),
            readable(self.changes.inner@, *key, self.last_seq.seq),
        ensures
            marked_cloned(self.staged(*key), r),
    {
        self.changes.get_by_ref(key, self.last_seq.seq).cloned()
    }

    /// Clones of what the staged changes say of the keys of `range`.
    pub fn staged_range(&self, range: KeyRange<K>) -> (r: Vec<(K, SeqMarked<K::V>)>)
        requires
            self.wf(),
            valid_range(range),
            range_readable(self.changes.inner@, range, self.last_seq.seq),
        ensures
            items_cloned(scan(self.changes.inner@, range, self.last_seq.seq), r@),
            faithful_clone::<K>() ==> keys_ascend(r@),
    {
        let items = clone_items(self.changes.range(range, self.last_seq.seq));
        proof {
            if faithful_clone::<K>() {
                lemma_scan_ascends(self.changes.inner@, range, self.last_seq.seq);
                lemma_clones_ascend(
                    scan(self.changes.inner@, range, self.last_seq.seq),
                    items@,
                );
            }
        }
        items
    }

    /// `value` can be staged after `fetched` was found under its key. A value is staged at a new
    /// sequence number only where `increase_seq` asks for it; a deletion is always staged as by
    /// `set`.
    pub open spec fn can_stage_after(
        self,
        value: Option<K::V>,
        fetched: SeqMarked<K::V>,
        increase_seq: bool,
    ) -> bool {
        self.wf() && (fetched.found() || value is Some ==> self.can_stage(
            value,
            increase_seq || value is None,
        ))
    }

    /// The order that staging `value` after a read of its key gives it: a value is given a new
    /// sequence number only where `increase_seq` asks for it, a deletion the one that `set` gives.
    pub open spec fn mark_after(self, value: Option<K::V>, increase_seq: bool) -> SeqMarked<()> {
        self.mark_for(value, increase_seq || value is None)
    }

    /// `after` is this view after `value` was staged where `fetched` was found under its key,
    /// and `new_value` is what is now there. Deleting what is not there stages nothing. What is
    /// staged is a clone of `value`.
    pub open spec fn stages_after(
        self,
        key: K,
        value: Option<K::V>,
        fetched: SeqMarked<K::V>,
        increase_seq: bool,
        after: Self,
        new_value: SeqMarked<K::V>,
    ) -> bool {
        if !fetched.found() && value is None {
            after == self && new_value == (SeqMarked {
                seq: 0,
                marked: Marked::<K::V>::TombStone,
            })
        } else {
            let mark = self.mark_after(value, increase_seq);
            &&& new_value == (SeqMarked {
                seq: mark.seq,
                marked: match value {
                    Some(data) => Marked::Normal(data),
                    None => Marked::TombStone,
                },
            })
            &&& exists|own: Option<K::V>|
                option_cloned(value, own) && #[trigger] self.stages(key, own, mark, after)
        }
    }

    /// Whether `value` can be staged after `fetched` was found under its key.
    pub fn accepts_after(
        &self,
        value: &Option<K::V>,
        fetched: &SeqMarked<K::V>,
        increase_seq: bool,
    ) -> (r: bool)
        requires
            self.wf(),
        ensures
            r == self.can_stage_after(*value, *fetched, increase_seq),
    {
        (fetched.is_not_found() && value.is_none()) || self.accepts(
            value,
            increase_seq || value.is_none(),
        )
    }

    /// Stages a change after `fetched` was found under its key, and returns what was there and
    /// what is there now. Deleting what is not there stages nothing.
    pub fn set_fetched(
        &mut self,
        key: K,
        value: Option<K::V>,
        fetched: SeqMarked<K::V>,
        increase_seq: bool,
    ) -> (r: (SeqMarked<K::V>, SeqMarked<K::V>))
        requires
            old(self).can_stage_after(value, fetched, increase_seq),
        ensures
            r.0 == fetched,
            old(self).stages_after(key, value, fetched, increase_seq, *final(self), r.1),
            old(self).sound() ==> final(self).sound(),
            increase_seq && old(self).follows_snapshot() ==> final(self).follows_snapshot(),
    {
        if fetched.is_not_found() && value.is_none() {
            return (fetched, SeqMarked::new_tombstone(0));
        }
        let own = clone_option(&value);
        let order_key = if increase_seq || value.is_none() {
            self.set(key, own)
        } else {
            self.set_without_seq_increment(key, own)
        };
        let new_value = match value {
            Some(data) => SeqMarked::new_normal(order_key.seq, data),
            None => SeqMarked::new_tombstone(order_key.seq),
        };
        (fetched, new_value)
    }

    /// The low-level reader, the last sequence number and the staged changes, for committing.
    pub fn into_parts(self) -> (r: (D, InternalSeq, Table<K, K::V>))
        ensures
            r == (self.snapshot.data, self.last_seq, self.changes),
    {
        (self.snapshot.into_data(), self.last_seq, self.changes)
    }
}

/// `b` is what cloning `a` may give.
pub open spec fn option_cloned<V: Clone>(a: Option<V>, b: Option<V>) -> bool {
    match (a, b) {
        (Some(x), Some(y)) => cloned(x, y),
        (None, None) => true,
        _ => false,
    }
}

fn clone_option<V: Clone>(value: &Option<V>) -> (r: Option<V>)
    ensures
        option_cloned(*value, r),
{
    match value {
        Some(data) => Some(data.clone()),
        None => None,
    }
}

/// `b` is what cloning `a` may give.
pub open spec fn bound_cloned<K: Clone>(a: Bound<K>, b: Bound<K>) -> bool {
    match (a, b) {
        (Bound::Included(x), Bound::Included(y)) => cloned(x, y),
        (Bound::Excluded(x), Bound::Excluded(y)) => cloned(x, y),
        (Bound::Unbounded, Bound::Unbounded) => true,
        _ => false,
    }
}

/// `b` is what cloning `a` may give.
pub open spec fn range_cloned<K: Clone>(a: KeyRange<K>, b: KeyRange<K>) -> bool {
    bound_cloned(a.0, b.0) && bound_cloned(a.1, b.1)
}

fn clone_bound<K: Clone>(bound: &Bound<K>) -> (r: Bound<K>)
    ensures
        bound_cloned(*bound, r),
{
    match bound {
        Bound::Included(key) => Bound::Included(key.clone()),
        Bound::Excluded(key) => Bound::Excluded(key.clone()),
        Bound::Unbounded => Bound::Unbounded,
    }
}

impl<K: MapKey, D: GetAtSeq<K> + RangeAtSeq<K>> View<K, D> {
    /// `key` can be read: the version that the staged changes show has a value unless it is a
    /// deletion, and where they show none the snapshot can be asked.
    pub open spec fn can_get(self, key: K) -> bool {
        &&& self.wf()
        &&& readable(self.changes.inner@, key, self.last_seq.seq)
        &&& !self.staged(key).found() ==> self.snapshot.data.can_get_at(
            key,
            self.snapshot.snapshot_seq.seq,
        )
    }

    /// Reading `key` may give `r`: a clone of what is staged, and only where nothing is staged
    /// what reading the snapshot may give.
    pub open spec fn may_get(self, key: K, r: Result<SeqMarked<K::V>, io::Error>) -> bool {
        if self.staged(key).found() {
            r matches Ok(value) && marked_cloned(self.staged(key), value)
        } else {
            self.snapshot.data.may_get_at(key, self.snapshot.snapshot_seq.seq, r)
        }
    }

    /// Reads one key: what is staged, else what the snapshot has.
    pub fn get(&self, key: K) -> (r: Result<SeqMarked<K::V>, io::Error>)
        requires
            self.can_get(key),
        ensures
            self.may_get(key, r),
    {
        let updated = self.staged_value(&key);
        if !updated.is_not_found() {
            return Ok(updated);
        }
        match self.snapshot.get(key) {
            Ok(base) => Ok(compact_seq_marked_pair(updated, base)),
            Err(e) => Err(e),
        }
    }

    /// Reads each of the keys, up to the first read that fails.
    pub fn get_many(&self, keys: Vec<K>) -> (r: Result<Vec<SeqMarked<K::V>>, io::Error>)
        requires
            forall|i: int| 0 <= i < keys@.len() ==> self.can_get(#[trigger] keys@[i]),
        ensures
            may_read_in_turn(
                |key: K, got: Result<SeqMarked<K::V>, io::Error>| self.may_get(key, got),
                keys@,
                r,
            ),
    {
        let ghost all = keys@;
        let ghost may = |key: K, got: Result<SeqMarked<K::V>, io::Error>| self.may_get(key, got);
        let mut results: Vec<SeqMarked<K::V>> = Vec::with_capacity(keys.len());
        for key in it: keys
            invariant
                it.seq() == all,
                forall|i: int| 0 <= i < all.len() ==> self.can_get(#[trigger] all[i]),
                results@.len() == it.index(),
                forall|i: int|
                    0 <= i < results@.len() ==> may(all[i], Ok(#[trigger] results@[i])),
                may == |key: K, got: Result<SeqMarked<K::V>, io::Error>| self.may_get(key, got),
        {
            assert(key == all[it.index() as int]);
            match self.get(key) {
                Ok(value) => {
                    results.push(value);
                },
                Err(e) => {
                    proof {
                        let n = it.index() as int;
                        assert forall|i: int| 0 <= i < n implies may_succeed(
                            may,
                            #[trigger] all[i],
                        ) by {
                            assert(may(all[i], Ok(results@[i])));
                        }
                        assert(may(all[n], Err(e)));
                    }
                    return Err(e);
                },
            }
        }
        Ok(results)
    }

    /// `key` can be fetched, and `value` staged whatever is found.
    pub open spec fn can_fetch_and_set(
        self,
        key: K,
        value: Option<K::V>,
        increase_seq: bool,
    ) -> bool {
        &&& self.wf()
        &&& forall|own: K| cloned(key, own) ==> #[trigger] self.can_get(own)
        &&& forall|own: K, fetched: SeqMarked<K::V>|
            cloned(key, own) && #[trigger] self.may_get(own, Ok(fetched)) ==> self.can_stage_after(
                value,
                fetched,
                increase_seq,
            )
    }

    /// Fetching `key` and then staging `value` may give `r` and leave `after`: the read under a
    /// clone of the key failed and nothing changed, or the change was staged after what it
    /// found.
    pub open spec fn may_fetch_and_set(
        self,
        key: K,
        value: Option<K::V>,
        increase_seq: bool,
        after: Self,
        r: Result<(SeqMarked<K::V>, SeqMarked<K::V>), io::Error>,
    ) -> bool {
        exists|own: K|
            {
                &&& #[trigger] cloned(key, own)
                &&& match r {
                    Ok((fetched, new_value)) => {
                        &&& self.may_get(own, Ok(fetched))
                        &&& self.stages_after(
                            key,
                            value,
                            fetched,
                            increase_seq,
                            after,
                            new_value,
                        )
                    },
                    Err(e) => self.may_get(own, Err(e)) && after == self,
                }
            }
    }

    /// Reads a key, then stages a change of it, and returns what was there and what is there
    /// now. Deleting what is not there stages nothing.
    pub fn fetch_and_set(&mut self, key: K, value: Option<K::V>) -> (r: Result<
        (SeqMarked<K::V>, SeqMarked<K::V>),
        io::Error,
    >)
        requires
            old(self).can_fetch_and_set(key, value, true),
        ensures
            old(self).may_fetch_and_set(key, value, true, *final(self), r),
            old(self).sound() ==> final(self).sound(),
            old(self).follows_snapshot() ==> final(self).follows_snapshot(),
    {
        self.fetch_and_set_with_seq_increment(key, value, true)
    }

    /// `fetch_and_set`, without allocating a new sequence number for a value. A deletion is
    /// staged as by `fetch_and_set`.
    pub fn fetch_and_set_without_seq_increment(&mut self, key: K, value: Option<K::V>) -> (r:
        Result<(SeqMarked<K::V>, SeqMarked<K::V>), io::Error>)
        requires
            old(self).can_fetch_and_set(key, value, false),
        ensures
            old(self).may_fetch_and_set(key, value, false, *final(self), r),
            old(self).sound() ==> final(self).sound(),
    {
        self.fetch_and_set_with_seq_increment(key, value, false)
    }

    fn fetch_and_set_with_seq_increment(
        &mut self,
        key: K,
        value: Option<K::V>,
        increase_seq: bool,
    ) -> (r: Result<(SeqMarked<K::V>, SeqMarked<K::V>), io::Error>)
        requires
            old(self).can_fetch_and_set(key, value, increase_seq),
        ensures
            old(self).may_fetch_and_set(key, value, increase_seq, *final(self), r),
            old(self).sound() ==> final(self).sound(),
            increase_seq && old(self).follows_snapshot() ==> final(self).follows_snapshot(),
    {
        let own = key.clone();
        assert(cloned(key, own));
        let ghost own_key = own;
        match self.get(own) {
            Ok(fetched) => {
                let r = self.set_fetched(key, value, fetched, increase_seq);
                assert(cloned(key, own_key));
                Ok(r)
            },
            Err(e) => {
                assert(cloned(key, own_key));
                Err(e)
            },
        }
    }

    /// `range` can be read: it is sound, the staged changes that show have values unless they
    /// are deletions, and the snapshot can be asked for it.
    pub open spec fn can_range(self, range: KeyRange<K>) -> bool {
        &&& self.wf()
        &&& valid_range(range)
        &&& range_readable(self.changes.inner@, range, self.last_seq.seq)
        &&& forall|own: KeyRange<K>| #[trigger]
            range_cloned(range, own) ==> self.snapshot.data.can_range_at(
                own,
                self.snapshot.snapshot_seq.seq,
            )
    }

    /// `items` is what overlaying `base`, which was read from the snapshot, with the staged
    /// changes gives: clones of the changes merged into it. Where the read did not fail,
    /// its keys ascend, and a clone of a key is the same key, the items say of every key the
    /// later of what the snapshot and the changes say of it.
    pub open spec fn may_overlay(
        self,
        range: KeyRange<K>,
        base: IOResultStream<(K, SeqMarked<K::V>)>,
        items: IOResultStream<(K, SeqMarked<K::V>)>,
    ) -> bool {
        exists|updates: Seq<(K, SeqMarked<K::V>)>|
            {
                &&& #[trigger] items_cloned(
                    scan(self.changes.inner@, range, self.last_seq.seq),
                    updates,
                )
                &&& items@ == merge_of(base@, ok_items(updates))
                &&& all_ok(base@) && keys_ascend(oks(base@)) && faithful_clone::<K>() ==> all_ok(
                    items@,
                ) && overlaid(oks(base@), updates, oks(items@))
            }
    }

    /// `items` is what overlaying a read of `own` from the snapshot with the staged changes of
    /// `range` may give.
    pub open spec fn may_overlay_read(
        self,
        range: KeyRange<K>,
        own: KeyRange<K>,
        items: IOResultStream<(K, SeqMarked<K::V>)>,
    ) -> bool {
        exists|base: IOResultStream<(K, SeqMarked<K::V>)>|
            {
                &&& self.snapshot.data.may_range_at(
                    own,
                    self.snapshot.snapshot_seq.seq,
                    Ok(base),
                )
                &&& #[trigger] self.may_overlay(range, base, items)
            }
    }

    /// Reading `range` may give `r`: the snapshot, asked for a clone of the range, failed, or
    /// what it gave was overlaid with the staged changes.
    pub open spec fn may_range(
        self,
        range: KeyRange<K>,
        r: Result<IOResultStream<(K, SeqMarked<K::V>)>, io::Error>,
    ) -> bool {
        exists|own: KeyRange<K>|
            {
                &&& #[trigger] range_cloned(range, own)
                &&& match r {
                    Ok(items) => self.may_overlay_read(range, own, items),
                    Err(e) => self.snapshot.data.may_range_at(
                        own,
                        self.snapshot.snapshot_seq.seq,
                        Err(e),
                    ),
                }
            }
    }

    /// Reads the keys of a range: what the snapshot has, overlaid with what is staged.
    pub fn range(&self, range: KeyRange<K>) -> (r: Result<
        IOResultStream<(K, SeqMarked<K::V>)>,
        io::Error,
    >)
        requires
            self.can_range(range),
        ensures
            self.may_range(range, r),
    {
        let own = (clone_bound(&range.0), clone_bound(&range.1));
        assert(range_cloned(range, own));
        let ghost own_range = own;
        match self.snapshot.range(own) {
            Ok(base) => {
                let ghost read_base = base;
                let updates = self.staged_range(range);
                let ghost staged = updates@;
                let items = merge_reads(base, updates);
                proof {
                    assert(items_cloned(
                        scan(self.changes.inner@, range, self.last_seq.seq),
                        staged,
                    ));
                    assert(self.snapshot.data.may_range_at(
                        own_range,
                        self.snapshot.snapshot_seq.seq,
                        Ok(read_base),
                    ));
                    assert(self.may_overlay(range, read_base, items));
                    assert(self.may_overlay_read(range, own_range, items));
                    assert(range_cloned(range, own_range));
                }
                Ok(items)
            },
            Err(e) => {
                assert(range_cloned(range, own_range));
                Err(e)
            },
        }
    }
}

impl<K: MapKey, D: GetAtSeq<K> + RangeAtSeq<K>> ViewSet<K> for View<K, D> {
    open spec fn ready_to_set(&self, value: Option<K::V>) -> bool {
        self.can_stage(value, true)
    }

    open spec fn becomes(
        &self,
        key: K,
        value: Option<K::V>,
        after: &Self,
        mark: SeqMarked<()>,
    ) -> bool {
        mark == self.mark_for(value, true) && self.stages(key, value, mark, *after)
    }

    fn set(&mut self, key: K, value: Option<K::V>) -> (r: SeqMarked<()>) {
        View::set(self, key, value)
    }
}

impl<K: MapKey, D: GetAtSeq<K> + RangeAtSeq<K>> ViewGet<K> for View<K, D> {
    open spec fn ready_to_get(&self, key: K) -> bool {
        self.can_get(key)
    }

    open spec fn may_give(&self, key: K, r: Result<SeqMarked<K::V>, io::Error>) -> bool {
        self.may_get(key, r)
    }

    fn get(&self, key: K) -> (r: Result<SeqMarked<K::V>, io::Error>) {
        View::get(self, key)
    }
}

impl<K: MapKey, D: GetAtSeq<K> + RangeAtSeq<K>> ViewRange<K> for View<K, D> {
    open spec fn ready_to_range(&self, range: KeyRange<K>) -> bool {
        self.can_range(range)
    }

    open spec fn may_give_range(
        &self,
        range: KeyRange<K>,
        r: Result<IOResultStream<(K, SeqMarked<K::V>)>, io::Error>,
    ) -> bool {
        self.may_range(range, r)
    }

    fn range(&self, range: KeyRange<K>) -> (r: Result<
        IOResultStream<(K, SeqMarked<K::V>)>,
        io::Error,
    >) {
        View::range(self, range)
    }
}

} // verus!
