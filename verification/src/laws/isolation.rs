//! What readers see while a transaction stages its changes, and after it committed them.

use crate::laws::committing::{all_after, law_commit_is_not_read_before};
use crate::laws::storing::{
    comes_from, is_held, is_last, is_written, lemma_each_once, lemma_only_wrote, lemma_wrote_all,
};
use crate::laws::tables::{is_version, law_table_get, not_after, sees, tells_ref};
use crate::laws::views::{law_view_new, law_view_set, lemma_wrote_is_seen, none_ahead};
use crate::map_key::MapKey;
use crate::order::{key_eq, lemma_key_transitive, lemma_key_trichotomy, ordered};
use crate::seq_marked::{InternalSeq, Marked, SeqMarked};
use crate::snapshot::Snapshot;
use crate::table::{unref_items, Table};
use crate::versions::{lemma_slot_unique, Record};
use crate::view::View;
use crate::visibility::KeyRange;
use vstd::prelude::*;
use vstd::view::View as _;

verus! {

/// Every staged version is newer than the snapshot, and so is the next one.
pub open spec fn is_ahead<K: MapKey, D>(view: View<K, D>) -> bool {
    &&& view.wf()
    &&& view.snapshot.snapshot_seq.seq <= view.last_seq.seq
    &&& forall|r: Record<K, K::V>| #[trigger]
        view.changes.inner@.contains(r) ==> r.0.1.seq > view.snapshot.snapshot_seq.seq
}

/// A new view has nothing staged that is not newer than its snapshot.
pub proof fn law_new_view_is_ahead<K: MapKey, D>(snapshot: Snapshot<K, D>, r: View<K, D>)
    requires
        ordered::<K>(),
        call_ensures(View::<K, D>::new, (snapshot,), r),
    ensures
        is_ahead(r),
        r.snapshot == snapshot,
{
    law_view_new(snapshot, r);
}

/// Setting a key stages nothing that is not newer than the snapshot, unless it is a deletion that
/// shares the number of the snapshot.
pub proof fn law_set_stays_ahead<K: MapKey, D>(
    view: &mut View<K, D>,
    key: K,
    value: Option<K::V>,
    r: SeqMarked<()>,
)
    requires
        is_ahead(*old(view)),
        value is Some || old(view).increase_seq_for_tombstone ==> old(view).last_seq.seq
            < u64::MAX,
        value is Some || old(view).increase_seq_for_tombstone
            || old(view).snapshot.snapshot_seq.seq < old(view).last_seq.seq,
        call_ensures(View::<K, D>::set, (view, key, value), r),
    ensures
        is_ahead(*final(view)),
        final(view).snapshot == old(view).snapshot,
        r.seq > old(view).snapshot.snapshot_seq.seq,
{
    law_view_set(view, key, value, r);
    let s = view.changes.inner@;
    let t = final(view).changes.inner@;
    assert forall|q: Record<K, K::V>| #[trigger] t.contains(q) implies q.0.1.seq
        > final(view).snapshot.snapshot_seq.seq by {
        if !is_version(q, key, r) {
            assert(s.contains(q));
        }
    }
}

/// A transaction that only set values, whatever they are and however many, has only changes that
/// are newer than its snapshot.
pub proof fn law_values_are_ahead<K: MapKey, D>(
    snapshot: Snapshot<K, D>,
    views: Seq<View<K, D>>,
    sets_done: Seq<(K, K::V)>,
)
    requires
        ordered::<K>(),
        views.len() == sets_done.len() + 1,
        call_ensures(View::<K, D>::new, (snapshot,), views[0]),
        forall|i: int|
            0 <= i < sets_done.len() ==> (#[trigger] views[i]).last_seq.seq < u64::MAX
                && views[i].stages(
                sets_done[i].0,
                Some(sets_done[i].1),
                views[i].mark_for(Some(sets_done[i].1), true),
                views[i + 1],
            ),
    ensures
        is_ahead(views.last()),
        views.last().snapshot == snapshot,
    decreases sets_done.len(),
{
    law_new_view_is_ahead(snapshot, views[0]);
    if sets_done.len() > 0 {
        let n = sets_done.len() - 1;
        let shorter = views.drop_last();
        let fewer = sets_done.drop_last();
        assert forall|i: int| 0 <= i < fewer.len() implies (#[trigger] shorter[i]).last_seq.seq
            < u64::MAX && shorter[i].stages(
            fewer[i].0,
            Some(fewer[i].1),
            shorter[i].mark_for(Some(fewer[i].1), true),
            shorter[i + 1],
        ) by {
            assert(views[i].last_seq.seq < u64::MAX);
            assert(shorter[i + 1] == views[i + 1]);
        }
        law_values_are_ahead(snapshot, shorter, fewer);
        assert(shorter.last() == views[n]);
        let before = views[n];
        let after = views[n + 1];
        let (key, value) = sets_done[n];
        let mark = before.mark_for(Some(value), true);
        assert(before.last_seq.seq < u64::MAX);
        lemma_only_wrote(before.changes.inner@, (key, mark), Some(value));
        assert forall|q: Record<K, K::V>| #[trigger]
            after.changes.inner@.contains(q) implies q.0.1.seq
            > after.snapshot.snapshot_seq.seq by {
            if !is_version(q, key, mark) {
                assert(before.changes.inner@.contains(q));
            }
        }
    }
}

/// Committing a transaction whose changes are newer than `upto` changes nothing for readers at
/// `upto`: they read of every key and of every range what they read before.
pub proof fn law_commit_keeps_earlier_readers<K: MapKey, D>(
    view: View<K, D>,
    parts: (D, InternalSeq, Table<K, K::V>),
    table: &mut Table<K, K::V>,
    upto: u64,
)
    requires
        view.wf(),
        forall|r: Record<K, K::V>| #[trigger]
            view.changes.inner@.contains(r) ==> r.0.1.seq > upto,
        old(table).wf(),
        call_ensures(View::<K, D>::into_parts, (view,), parts),
        call_ensures(Table::<K, K::V>::apply, (table, parts.2), ()),
    ensures
        forall|key: K, a: SeqMarked<&K::V>, b: SeqMarked<&K::V>|
            #![trigger call_ensures(Table::<K, K::V>::get, (&*old(table), key, upto), a),
                call_ensures(Table::<K, K::V>::get, (&*final(table), key, upto), b)]
            call_ensures(Table::<K, K::V>::get, (&*old(table), key, upto), a) && call_ensures(
                Table::<K, K::V>::get,
                (&*final(table), key, upto),
                b,
            ) ==> a == b,
        forall|range: KeyRange<K>, a: Vec<(&K, SeqMarked<&K::V>)>, b: Vec<(&K, SeqMarked<&K::V>)>|
            #![trigger call_ensures(Table::<K, K::V>::range, (&*old(table), range, upto), a),
                call_ensures(Table::<K, K::V>::range, (&*final(table), range, upto), b)]
            call_ensures(Table::<K, K::V>::range, (&*old(table), range, upto), a) && call_ensures(
                Table::<K, K::V>::range,
                (&*final(table), range, upto),
                b,
            ) ==> a@ == b@,
{
    let s = table.inner@;
    let t = final(table).inner@;
    let changes = view.changes.inner@;
    assert(all_after(changes, upto)) by {
        assert forall|i: int| 0 <= i < changes.len() implies upto < (
        #[trigger] changes[i]).0.1.seq by {
            assert(changes.contains(changes[i]));
        }
    }
    assert forall|key: K, a: SeqMarked<&K::V>, b: SeqMarked<&K::V>|
        #![trigger call_ensures(Table::<K, K::V>::get, (&*old(table), key, upto), a),
            call_ensures(Table::<K, K::V>::get, (&*final(table), key, upto), b)]
        call_ensures(Table::<K, K::V>::get, (&*old(table), key, upto), a) && call_ensures(
            Table::<K, K::V>::get,
            (&*final(table), key, upto),
            b,
        ) implies a == b by {
        let any: KeyRange<K> = arbitrary();
        law_commit_is_not_read_before(s, changes, key, any, upto);
        assert(a.unref() == b.unref());
    }
    assert forall|range: KeyRange<K>, a: Vec<(&K, SeqMarked<&K::V>)>, b: Vec<
        (&K, SeqMarked<&K::V>),
    >|
        #![trigger call_ensures(Table::<K, K::V>::range, (&*old(table), range, upto), a),
            call_ensures(Table::<K, K::V>::range, (&*final(table), range, upto), b)]
        call_ensures(Table::<K, K::V>::range, (&*old(table), range, upto), a) && call_ensures(
            Table::<K, K::V>::range,
            (&*final(table), range, upto),
            b,
        ) implies a@ == b@ by {
        let any: K = arbitrary();
        law_commit_is_not_read_before(s, changes, any, range, upto);
        assert(unref_items(a@) == unref_items(b@));
        assert(a@.len() == b@.len()) by {
            assert(unref_items(a@).len() == a@.len());
            assert(unref_items(b@).len() == b@.len());
        }
        assert forall|i: int| 0 <= i < a@.len() implies a@[i] == b@[i] by {
            assert(unref_items(a@)[i] == unref_items(b@)[i]);
            assert(a@[i].1.unref() == b@[i].1.unref());
        }
        assert(a@ =~= b@);
    }
}

/// Committing a transaction that only set values changes nothing for readers at or before the
/// number of its snapshot: they read of every key and of every range what they read before.
pub proof fn law_values_are_isolated<K: MapKey, D>(
    snapshot: Snapshot<K, D>,
    views: Seq<View<K, D>>,
    sets_done: Seq<(K, K::V)>,
    parts: (D, InternalSeq, Table<K, K::V>),
    table: &mut Table<K, K::V>,
    upto: u64,
)
    requires
        ordered::<K>(),
        views.len() == sets_done.len() + 1,
        call_ensures(View::<K, D>::new, (snapshot,), views[0]),
        forall|i: int|
            0 <= i < sets_done.len() ==> (#[trigger] views[i]).last_seq.seq < u64::MAX
                && views[i].stages(
                sets_done[i].0,
                Some(sets_done[i].1),
                views[i].mark_for(Some(sets_done[i].1), true),
                views[i + 1],
            ),
        old(table).wf(),
        call_ensures(View::<K, D>::into_parts, (views.last(),), parts),
        call_ensures(Table::<K, K::V>::apply, (table, parts.2), ()),
        upto <= snapshot.snapshot_seq.seq,
    ensures
        forall|key: K, a: SeqMarked<&K::V>, b: SeqMarked<&K::V>|
            #![trigger call_ensures(Table::<K, K::V>::get, (&*old(table), key, upto), a),
                call_ensures(Table::<K, K::V>::get, (&*final(table), key, upto), b)]
            call_ensures(Table::<K, K::V>::get, (&*old(table), key, upto), a) && call_ensures(
                Table::<K, K::V>::get,
                (&*final(table), key, upto),
                b,
            ) ==> a == b,
        forall|range: KeyRange<K>, a: Vec<(&K, SeqMarked<&K::V>)>, b: Vec<(&K, SeqMarked<&K::V>)>|
            #![trigger call_ensures(Table::<K, K::V>::range, (&*old(table), range, upto), a),
                call_ensures(Table::<K, K::V>::range, (&*final(table), range, upto), b)]
            call_ensures(Table::<K, K::V>::range, (&*old(table), range, upto), a) && call_ensures(
                Table::<K, K::V>::range,
                (&*final(table), range, upto),
                b,
            ) ==> a@ == b@,
{
    law_values_are_ahead(snapshot, views, sets_done);
    law_commit_keeps_earlier_readers(views.last(), parts, table, upto);
}

/// Once a transaction is committed, a reader at or after its last change sees each staged version
/// that no other outranks: of every key the later of what it saw before and of what was staged.
pub proof fn law_commit_shows_what_was_staged<K: MapKey, D>(
    view: View<K, D>,
    parts: (D, InternalSeq, Table<K, K::V>),
    table: &mut Table<K, K::V>,
    key: K,
    upto: u64,
    staged: Record<K, K::V>,
)
    requires
        view.wf(),
        old(table).wf(),
        call_ensures(View::<K, D>::into_parts, (view,), parts),
        call_ensures(Table::<K, K::V>::apply, (table, parts.2), ()),
        sees(view.changes.inner@, key, upto, staged),
        forall|r: Record<K, K::V>| #[trigger]
            old(table).inner@.contains(r) && key_eq(r.0.0, key) && r.0.1.seq <= upto
                ==> not_after(r, staged),
    ensures
        forall|got: SeqMarked<&K::V>| #[trigger]
            call_ensures(Table::<K, K::V>::get, (&*final(table), key, upto), got) ==> tells_ref(
                staged,
                got,
            ),
{
    let s = table.inner@;
    let t = final(table).inner@;
    let changes = view.changes.inner@;
    lemma_wrote_all(s, changes);
    lemma_each_once(changes);
    let n = choose|i: int| 0 <= i < changes.len() && changes[i] == staged;
    assert(changes.contains(staged));
    assert(is_last(changes, n)) by {
        assert forall|j: int| n < j < changes.len() implies !is_version(
            #[trigger] changes[j],
            changes[n].0.0,
            changes[n].0.1,
        ) by {
            assert(!is_version(changes[n], changes[j].0.0, changes[j].0.1));
            lemma_key_trichotomy(changes[j].0.0, changes[n].0.0);
        }
    }
    assert(is_held(t, changes[n]));
    let w = choose|w: Record<K, K::V>| #[trigger]
        t.contains(w) && is_written(w, staged);
    lemma_key_transitive(w.0.0, staged.0.0, key);
    assert forall|q: Record<K, K::V>| #[trigger]
        t.contains(q) && key_eq(q.0.0, key) && q.0.1.seq <= upto implies not_after(q, w) by {
        if comes_from(changes, q) {
            let i = choose|i: int|
                0 <= i < changes.len() && is_last(changes, i)
                    && is_written(q, #[trigger] changes[i]);
            lemma_key_trichotomy(q.0.0, changes[i].0.0);
            lemma_key_transitive(changes[i].0.0, q.0.0, key);
            assert(changes.contains(changes[i]));
            assert(not_after(changes[i], staged));
        } else {
            assert(s.contains(q));
        }
    }
    assert(sees(t, key, upto, w));
    assert forall|got: SeqMarked<&K::V>| #[trigger]
        call_ensures(Table::<K, K::V>::get, (&*final(table), key, upto), got) implies tells_ref(
        staged,
        got,
    ) by {
        lemma_told_seen(*final(table), key, upto, w, got);
    }
}

/// Once a transaction is committed, a reader still sees what it saw before of a key, where that
/// comes after all that was staged for the key.
pub proof fn law_commit_keeps_what_is_later<K: MapKey, D>(
    view: View<K, D>,
    parts: (D, InternalSeq, Table<K, K::V>),
    table: &mut Table<K, K::V>,
    key: K,
    upto: u64,
    seen: Record<K, K::V>,
)
    requires
        view.wf(),
        old(table).wf(),
        call_ensures(View::<K, D>::into_parts, (view,), parts),
        call_ensures(Table::<K, K::V>::apply, (table, parts.2), ()),
        sees(old(table).inner@, key, upto, seen),
        forall|r: Record<K, K::V>| #[trigger]
            view.changes.inner@.contains(r) && key_eq(r.0.0, key) && r.0.1.seq <= upto
                ==> !not_after(seen, r),
    ensures
        forall|got: SeqMarked<&K::V>| #[trigger]
            call_ensures(Table::<K, K::V>::get, (&*final(table), key, upto), got) ==> tells_ref(
                seen,
                got,
            ),
{
    let s = table.inner@;
    let t = final(table).inner@;
    let changes = view.changes.inner@;
    lemma_wrote_all(s, changes);
    assert forall|i: int| 0 <= i < changes.len() implies !is_version(
        seen,
        (#[trigger] changes[i]).0.0,
        changes[i].0.1,
    ) by {
        if is_version(seen, changes[i].0.0, changes[i].0.1) {
            lemma_key_trichotomy(seen.0.0, changes[i].0.0);
            lemma_key_transitive(changes[i].0.0, seen.0.0, key);
            assert(changes.contains(changes[i]));
        }
    }
    assert(s.contains(seen));
    assert(t.contains(seen));
    assert forall|q: Record<K, K::V>| #[trigger]
        t.contains(q) && key_eq(q.0.0, key) && q.0.1.seq <= upto implies not_after(q, seen) by {
        if comes_from(changes, q) {
            let i = choose|i: int|
                0 <= i < changes.len() && is_last(changes, i) && is_written(
                    q,
                    #[trigger] changes[i],
                );
            lemma_key_trichotomy(q.0.0, changes[i].0.0);
            lemma_key_transitive(changes[i].0.0, q.0.0, key);
            assert(changes.contains(changes[i]));
        } else {
            assert(s.contains(q));
        }
    }
    assert(sees(t, key, upto, seen));
    assert forall|got: SeqMarked<&K::V>| #[trigger]
        call_ensures(Table::<K, K::V>::get, (&*final(table), key, upto), got) implies tells_ref(
        seen,
        got,
    ) by {
        lemma_told_seen(*final(table), key, upto, seen, got);
    }
}

/// A read tells the version that is seen.
proof fn lemma_told_seen<K: Ord, V>(
    table: Table<K, V>,
    key: K,
    upto: u64,
    seen: Record<K, V>,
    got: SeqMarked<&V>,
)
    requires
        table.wf(),
        sees(table.inner@, key, upto, seen),
        call_ensures(Table::<K, V>::get, (&table, key, upto), got),
    ensures
        tells_ref(seen, got),
{
    let t = table.inner@;
    law_table_get(table, key, upto, got);
    assert(t.contains(seen));
    let x = choose|x: Record<K, V>| #[trigger] sees(t, key, upto, x) && tells_ref(x, got);
    assert(t.contains(x));
    assert(not_after(x, seen) && not_after(seen, x));
    lemma_key_trichotomy(seen.0.0, key);
    lemma_key_transitive(x.0.0, key, seen.0.0);
    lemma_slot_unique(t, x, seen);
}

/// A value that was set is what readers at its number see once it is committed to a table in
/// which the key has no version as new.
pub proof fn law_set_is_committed<K: MapKey, D>(
    view: &mut View<K, D>,
    key: K,
    data: K::V,
    r: SeqMarked<()>,
    after: View<K, D>,
    parts: (D, InternalSeq, Table<K, K::V>),
    table: &mut Table<K, K::V>,
)
    requires
        old(view).wf(),
        none_ahead(*old(view)),
        old(view).last_seq.seq < u64::MAX,
        call_ensures(View::<K, D>::set, (view, key, Some(data)), r),
        old(table).wf(),
        forall|q: Record<K, K::V>| #[trigger]
            old(table).inner@.contains(q) && key_eq(q.0.0, key) ==> q.0.1.seq
                <= old(view).last_seq.seq,
        call_ensures(View::<K, D>::into_parts, (after,), parts),
        call_ensures(Table::<K, K::V>::apply, (table, parts.2), ()),
    ensures
        *final(view) == after ==> forall|got: SeqMarked<&K::V>| #[trigger]
            call_ensures(Table::<K, K::V>::get, (&*final(table), key, r.seq), got) ==> (got.seq
                == old(view).last_seq.seq + 1 && (got.marked matches Marked::Normal(seen) && *seen
                == data)),
{
    if *final(view) == after {
        law_view_set(view, key, Some(data), r);
        let s = view.changes.inner@;
        let t = after.changes.inner@;
        lemma_wrote_is_seen(s, t, key, r, Some(data));
        let w = choose|w: Record<K, K::V>| sees(t, key, r.seq, w);
        law_commit_shows_what_was_staged(after, parts, table, key, r.seq, w);
    }
}

} // verus!
