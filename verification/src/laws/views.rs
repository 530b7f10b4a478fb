//! What the calls of a transaction do, said of the versions that are staged.

use crate::io_result::may_succeed;
use crate::laws::readers::{is_clone, lemma_told_clone, tells_clone, told_clone};
use crate::laws::storing::lemma_only_wrote;
use crate::laws::tables::{
    absent, is_version, lemma_read_is_told, lemma_scan_is_told, not_after, only_wrote, sees,
    sees_nothing, tells, told_range,
};
use crate::map_key::MapKey;
use crate::order::{key_eq, lemma_key_transitive, lemma_key_trichotomy, ordered};
use crate::read_at_seq::{GetAtSeq, RangeAtSeq};
use crate::seq_marked::{InternalSeq, Marked, SeqMarked};
use crate::snapshot::Snapshot;
use crate::table::Table;
use crate::versions::Record;
use crate::view::{option_cloned, View};
use crate::view_api::{ViewGet, ViewSet};
use crate::visibility::{read, scan, KeyRange};
use std::io;
use vstd::prelude::*;
use vstd::view::View as _;

verus! {

/// A version that counts as staged: any but a deletion without a sequence number.
pub open spec fn counts<K, V>(r: Record<K, V>) -> bool {
    !(r.0.1.seq == 0 && r.0.1.marked is TombStone)
}

/// `r` is the last version of `key` among the staged ones.
pub open spec fn is_staged<K: MapKey, D>(view: View<K, D>, key: K, r: Record<K, K::V>) -> bool {
    sees(view.changes.inner@, key, view.last_seq.seq, r) && counts(r)
}

/// Some version of `key` is staged.
pub open spec fn has_staged<K: MapKey, D>(view: View<K, D>, key: K) -> bool {
    exists|r: Record<K, K::V>| is_staged(view, key, r)
}

/// `r` is what a transaction may read of `key`: a clone of the last version that is staged, and
/// only where none is, what the reader may give at the snapshot's number.
pub open spec fn reads<K: MapKey, D: GetAtSeq<K> + RangeAtSeq<K>>(
    view: View<K, D>,
    key: K,
    r: Result<SeqMarked<K::V>, io::Error>,
) -> bool {
    if has_staged(view, key) {
        exists|w: Record<K, K::V>|
            is_staged(view, key, w) && (r matches Ok(got) && tells_clone(w, got))
    } else {
        view.snapshot.data.may_get_at(key, view.snapshot.snapshot_seq.seq, r)
    }
}

/// Of the versions that a reader sees of a key, all have one sequence number and one kind.
pub proof fn lemma_sees_once<K: Ord, V>(
    s: Seq<Record<K, V>>,
    key: K,
    upto: u64,
    a: Record<K, V>,
    b: Record<K, V>,
)
    requires
        sees(s, key, upto, a),
        sees(s, key, upto, b),
    ensures
        a.0.1.seq == b.0.1.seq,
        (a.0.1.marked is TombStone) == (b.0.1.marked is TombStone),
{
    assert(s.contains(a) && s.contains(b));
    assert(not_after(a, b) && not_after(b, a));
}

/// What a read may give is what a transaction may read.
pub proof fn lemma_reads<K: MapKey, D: GetAtSeq<K> + RangeAtSeq<K>>(
    view: View<K, D>,
    key: K,
    r: Result<SeqMarked<K::V>, io::Error>,
)
    requires
        view.wf(),
        view.may_get(key, r),
    ensures
        reads(view, key, r),
{
    let s = view.changes.inner@;
    let upto = view.last_seq.seq;
    lemma_read_is_told(s, key, upto);
    let staged = read(s, key, upto);
    if sees_nothing(s, key, upto) && absent(staged) {
        assert forall|w: Record<K, K::V>| !is_staged(view, key, w) by {
            if sees(s, key, upto, w) {
                assert(s.contains(w));
            }
        }
    } else {
        let w = choose|w: Record<K, K::V>| #[trigger] sees(s, key, upto, w) && tells(w, staged);
        if staged.found() {
            assert(is_staged(view, key, w));
            assert(tells_clone(w, r->Ok_0));
        } else {
            assert forall|q: Record<K, K::V>| !is_staged(view, key, q) by {
                if sees(s, key, upto, q) {
                    lemma_sees_once(s, key, upto, q, w);
                }
            }
        }
    }
}

/// A view of a snapshot stages nothing, and starts at the number of the snapshot.
pub proof fn law_view_new<K: MapKey, D>(snapshot: Snapshot<K, D>, r: View<K, D>)
    requires
        call_ensures(View::<K, D>::new, (snapshot,), r),
    ensures
        r.changes.inner@.len() == 0,
        r.changes.last_seq.seq == 0,
        r.last_seq.seq == snapshot.snapshot_seq.seq,
        r.snapshot == snapshot,
        !r.increase_seq_for_tombstone,
        ordered::<K>() ==> r.wf(),
{
}

/// The settings of a view change nothing else, and its parts are what it holds.
pub proof fn law_view_parts<K: MapKey, D>(
    view: View<K, D>,
    enable: bool,
    seq: InternalSeq,
    with_flag: View<K, D>,
    with_seq: View<K, D>,
    parts: (D, InternalSeq, Table<K, K::V>),
)
    requires
        call_ensures(View::<K, D>::with_tombstone_seq_increment, (view, enable), with_flag),
        call_ensures(View::<K, D>::with_initial_seq, (view, seq), with_seq),
        call_ensures(View::<K, D>::into_parts, (view,), parts),
    ensures
        with_flag.increase_seq_for_tombstone == enable,
        with_flag.changes == view.changes,
        with_flag.last_seq == view.last_seq,
        with_flag.snapshot == view.snapshot,
        with_seq.increase_seq_for_tombstone == view.increase_seq_for_tombstone,
        with_seq.changes == view.changes,
        with_seq.last_seq == seq,
        with_seq.snapshot == view.snapshot,
        parts.0 == view.snapshot.data,
        parts.1 == view.last_seq,
        parts.2 == view.changes,
{
}

/// A change is accepted if the number that it would be given does not overflow, and is not
/// smaller than that of the last change.
pub proof fn law_view_accepts<K: MapKey, D>(
    view: View<K, D>,
    value: Option<K::V>,
    fetched: SeqMarked<K::V>,
    increase_seq: bool,
    r: bool,
    after: bool,
)
    requires
        view.wf(),
        call_ensures(View::<K, D>::accepts, (&view, &value, increase_seq), r),
        call_ensures(View::<K, D>::accepts_after, (&view, &value, &fetched, increase_seq), after),
    ensures
        ({
            let next = view.last_seq.seq + 1;
            let last = view.last_seq.seq as int;
            let set_number = if value is Some || view.increase_seq_for_tombstone {
                next
            } else {
                last
            };
            let plain_number = if increase_seq {
                set_number
            } else {
                last
            };
            let fetch_number = if increase_seq || value is None {
                set_number
            } else {
                last
            };
            &&& r == (view.changes.last_seq.seq <= plain_number <= u64::MAX)
            &&& after == ((absent(fetched) && value is None) || view.changes.last_seq.seq
                <= fetch_number <= u64::MAX)
        }),
{
}

/// A read of a transaction gives what is staged last, else what the reader may give.
pub proof fn law_view_get<K: MapKey, D: GetAtSeq<K> + RangeAtSeq<K>>(
    view: View<K, D>,
    key: K,
    r: Result<SeqMarked<K::V>, io::Error>,
)
    requires
        view.wf(),
        call_ensures(View::<K, D>::get, (&view, key), r),
    ensures
        reads(view, key, r),
        has_staged(view, key) ==> r is Ok,
{
    lemma_reads(view, key, r);
}

/// A read of a transaction over a table does not fail. Where nothing is staged for the key, it
/// gives a clone of what a reader of the table at the snapshot's number is to be told.
pub proof fn law_table_view_get<K: MapKey>(
    view: View<K, Table<K, K::V>>,
    key: K,
    r: Result<SeqMarked<K::V>, io::Error>,
)
    requires
        view.wf(),
        view.snapshot.data.wf(),
        call_ensures(View::<K, Table<K, K::V>>::get, (&view, key), r),
    ensures
        r is Ok,
        has_staged(view, key) ==> exists|w: Record<K, K::V>|
            is_staged(view, key, w) && tells_clone(w, r->Ok_0),
        !has_staged(view, key) ==> told_clone(
            view.snapshot.data.inner@,
            key,
            view.snapshot.snapshot_seq.seq,
            r->Ok_0,
        ),
{
    lemma_reads(view, key, r);
    let s = view.snapshot.data.inner@;
    let upto = view.snapshot.snapshot_seq.seq;
    lemma_read_is_told(s, key, upto);
    if !has_staged(view, key) {
        lemma_told_clone(s, key, upto, read(s, key, upto), r->Ok_0);
    }
}

/// Reading many keys of a transaction gives an answer for each, however many there are, in the
/// order of the keys, unless the reader fails for one of them that is not staged.
pub proof fn law_view_get_many<K: MapKey, D: GetAtSeq<K> + RangeAtSeq<K>>(
    view: View<K, D>,
    keys: Vec<K>,
    r: Result<Vec<SeqMarked<K::V>>, io::Error>,
)
    requires
        view.wf(),
        call_ensures(View::<K, D>::get_many, (&view, keys), r),
    ensures
        r matches Ok(values) ==> {
            &&& values@.len() == keys@.len()
            &&& forall|i: int|
                0 <= i < keys@.len() ==> reads(view, #[trigger] keys@[i], Ok(values@[i]))
        },
        r matches Err(e) ==> exists|n: int|
            {
                &&& 0 <= n < keys@.len()
                &&& reads(view, #[trigger] keys@[n], Err(e))
                &&& !has_staged(view, keys@[n])
            },
        (forall|i: int, e: io::Error|
            0 <= i < keys@.len() ==> !#[trigger] view.snapshot.data.may_get_at(
                keys@[i],
                view.snapshot.snapshot_seq.seq,
                Err(e),
            )) ==> r is Ok,
{
    let may = |key: K, got: Result<SeqMarked<K::V>, io::Error>| view.may_get(key, got);
    match r {
        Ok(values) => {
            assert forall|i: int| 0 <= i < keys@.len() implies reads(
                view,
                #[trigger] keys@[i],
                Ok(values@[i]),
            ) by {
                assert(may(keys@[i], Ok(values@[i])));
                lemma_reads(view, keys@[i], Ok(values@[i]));
            }
        },
        Err(e) => {
            let n = choose|n: int|
                {
                    &&& 0 <= n < keys@.len()
                    &&& may(#[trigger] keys@[n], Err(e))
                    &&& forall|i: int| 0 <= i < n ==> may_succeed(may, #[trigger] keys@[i])
                };
            lemma_reads(view, keys@[n], Err(e));
            assert(view.snapshot.data.may_get_at(
                keys@[n],
                view.snapshot.snapshot_seq.seq,
                Err(e),
            ));
        },
    }
}

/// Reading many keys of a transaction over a table does not fail, and gives as many answers as
/// keys.
pub proof fn law_table_view_get_many<K: MapKey>(
    view: View<K, Table<K, K::V>>,
    keys: Vec<K>,
    r: Result<Vec<SeqMarked<K::V>>, io::Error>,
)
    requires
        view.wf(),
        call_ensures(View::<K, Table<K, K::V>>::get_many, (&view, keys), r),
    ensures
        r is Ok,
        r->Ok_0@.len() == keys@.len(),
        forall|i: int|
            0 <= i < keys@.len() ==> reads(view, #[trigger] keys@[i], Ok(r->Ok_0@[i])),
{
    law_view_get_many(view, keys, r);
}

/// `after` is `before` with one version staged and no other, at `mark`, and with the number of
/// that version as the last one.
pub open spec fn staged_one<K: MapKey, D>(
    before: View<K, D>,
    after: View<K, D>,
    key: K,
    mark: SeqMarked<()>,
    value: Option<K::V>,
) -> bool {
    &&& only_wrote(before.changes.inner@, after.changes.inner@, key, mark, value)
    &&& after.last_seq.seq == mark.seq
    &&& after.changes.last_seq.seq == mark.seq
    &&& (after.changes.last_seq.marked is TombStone) == (mark.marked is TombStone)
    &&& after.increase_seq_for_tombstone == before.increase_seq_for_tombstone
    &&& after.snapshot == before.snapshot
    &&& after.wf()
}

/// Setting a key stages one version and no other: a value under the next number; a deletion under
/// the last one, or the next where the view allocates numbers for deletions. The order of that
/// version is handed back.
pub proof fn law_view_set<K: MapKey, D>(
    view: &mut View<K, D>,
    key: K,
    value: Option<K::V>,
    r: SeqMarked<()>,
)
    requires
        old(view).wf(),
        value is Some || old(view).increase_seq_for_tombstone ==> old(view).last_seq.seq
            < u64::MAX,
        call_ensures(View::<K, D>::set, (view, key, value), r),
    ensures
        staged_one(*old(view), *final(view), key, r, value),
        (r.marked is TombStone) == (value is None),
        r.seq == old(view).last_seq.seq + (if value is Some
            || old(view).increase_seq_for_tombstone {
            1int
        } else {
            0int
        }),
{
    lemma_only_wrote(view.changes.inner@, (key, r), value);
}

/// Setting a key without a new number stages one version and no other, under the last number.
pub proof fn law_view_set_without_seq_increment<K: MapKey, D>(
    view: &mut View<K, D>,
    key: K,
    value: Option<K::V>,
    r: SeqMarked<()>,
)
    requires
        old(view).wf(),
        call_ensures(View::<K, D>::set_without_seq_increment, (view, key, value), r),
    ensures
        staged_one(*old(view), *final(view), key, r, value),
        (r.marked is TombStone) == (value is None),
        r.seq == old(view).last_seq.seq,
{
    lemma_only_wrote(view.changes.inner@, (key, r), value);
}

/// No staged version is newer than the last number.
pub open spec fn none_ahead<K: MapKey, D>(view: View<K, D>) -> bool {
    forall|r: Record<K, K::V>| #[trigger]
        view.changes.inner@.contains(r) ==> r.0.1.seq <= view.last_seq.seq
}

/// What was written last, after all that was there, is what is seen.
pub proof fn lemma_wrote_is_seen<K: Ord, V>(
    before: Seq<Record<K, V>>,
    after: Seq<Record<K, V>>,
    key: K,
    mark: SeqMarked<()>,
    value: Option<V>,
)
    requires
        ordered::<K>(),
        only_wrote(before, after, key, mark, value),
        forall|r: Record<K, V>| #[trigger] before.contains(r) ==> r.0.1.seq <= mark.seq,
        mark.marked is TombStone || forall|r: Record<K, V>| #[trigger]
            before.contains(r) && key_eq(r.0.0, key) && r.0.1.seq == mark.seq ==> !(
            r.0.1.marked is TombStone),
    ensures
        exists|r: Record<K, V>| sees(after, key, mark.seq, r),
        forall|r: Record<K, V>| sees(after, key, mark.seq, r) ==> is_version(r, key, mark) && r.1
            == value,
{
    let w = choose|r: Record<K, V>| #[trigger] after.contains(r) && is_version(r, key, mark);
    assert forall|q: Record<K, V>| #[trigger]
        after.contains(q) && key_eq(q.0.0, key) && q.0.1.seq <= mark.seq implies not_after(
        q,
        w,
    ) by {
        if !is_version(q, key, mark) {
            assert(before.contains(q));
        }
    }
    assert(sees(after, key, mark.seq, w));
    assert forall|r: Record<K, V>| sees(after, key, mark.seq, r) implies is_version(r, key, mark)
        && r.1 == value by {
        lemma_sees_once(after, key, mark.seq, r, w);
        assert(after.contains(r));
    }
}

/// A transaction reads what it set last under a key. A deletion without a sequence number counts
/// as nothing staged.
pub proof fn law_view_set_is_read<K: MapKey, D: GetAtSeq<K> + RangeAtSeq<K>>(
    view: &mut View<K, D>,
    key: K,
    value: Option<K::V>,
    r: SeqMarked<()>,
)
    requires
        old(view).wf(),
        none_ahead(*old(view)),
        value is Some || old(view).increase_seq_for_tombstone ==> old(view).last_seq.seq
            < u64::MAX,
        call_ensures(View::<K, D>::set, (view, key, value), r),
    ensures
        none_ahead(*final(view)),
        final(view).wf(),
        forall|got: Result<SeqMarked<K::V>, io::Error>|
            value is Some || r.seq > 0 ==> (#[trigger] call_ensures(
                View::<K, D>::get,
                (&*final(view), key),
                got,
            ) ==> (got matches Ok(now) && now.seq == r.seq && match value {
                Some(data) => now.marked matches Marked::Normal(copy) && cloned(data, copy),
                None => now.marked is TombStone,
            })),
{
    law_view_set(view, key, value, r);
    let before = view.changes.inner@;
    let after = final(view).changes.inner@;
    assert forall|q: Record<K, K::V>| #[trigger] after.contains(q) implies q.0.1.seq
        <= final(view).last_seq.seq by {
        if !is_version(q, key, r) {
            assert(before.contains(q));
        }
    }
    lemma_wrote_is_seen(before, after, key, r, value);
    assert forall|got: Result<SeqMarked<K::V>, io::Error>|
        (value is Some || r.seq > 0) && #[trigger] call_ensures(
            View::<K, D>::get,
            (&*final(view), key),
            got,
        ) implies (got matches Ok(now) && now.seq == r.seq && match value {
        Some(data) => now.marked matches Marked::Normal(copy) && cloned(data, copy),
        None => now.marked is TombStone,
    }) by {
        law_view_get(*final(view), key, got);
        let w = choose|w: Record<K, K::V>| sees(after, key, r.seq, w);
        assert(is_staged(*final(view), key, w));
    }
}

/// Staging one version of a key leaves what is staged for other keys as it was.
proof fn lemma_others_kept<K: MapKey, D>(
    before: View<K, D>,
    after: View<K, D>,
    key: K,
    mark: SeqMarked<()>,
    value: Option<K::V>,
    other: K,
)
    requires
        before.wf(),
        none_ahead(before),
        before.last_seq.seq <= mark.seq,
        staged_one(before, after, key, mark, value),
        !key_eq(key, other),
    ensures
        forall|r: Record<K, K::V>| is_staged(after, other, r) == is_staged(before, other, r),
        has_staged(after, other) == has_staged(before, other),
{
    let s = before.changes.inner@;
    let t = after.changes.inner@;
    assert forall|r: Record<K, K::V>| key_eq(r.0.0, other) implies s.contains(r)
        == #[trigger] t.contains(r) by {
        lemma_key_trichotomy(r.0.0, key);
        lemma_key_transitive(key, r.0.0, other);
        assert(!is_version(r, key, mark));
    }
    assert forall|r: Record<K, K::V>| sees(t, other, mark.seq, r) == sees(
        s,
        other,
        before.last_seq.seq,
        r,
    ) by {
        if sees(t, other, mark.seq, r) {
            assert(s.contains(r));
            assert forall|q: Record<K, K::V>| #[trigger]
                s.contains(q) && key_eq(q.0.0, other) && q.0.1.seq
                    <= before.last_seq.seq implies not_after(q, r) by {
                assert(t.contains(q));
            }
        }
        if sees(s, other, before.last_seq.seq, r) {
            assert(t.contains(r));
            assert forall|q: Record<K, K::V>| #[trigger]
                t.contains(q) && key_eq(q.0.0, other) && q.0.1.seq <= mark.seq implies not_after(
                q,
                r,
            ) by {
                assert(s.contains(q));
            }
        }
    }
    assert forall|r: Record<K, K::V>| is_staged(after, other, r) == is_staged(
        before,
        other,
        r,
    ) by {
        assert(sees(t, other, mark.seq, r) == sees(s, other, before.last_seq.seq, r));
    }
    if has_staged(after, other) {
        let r = choose|r: Record<K, K::V>| is_staged(after, other, r);
        assert(is_staged(before, other, r));
    }
    if has_staged(before, other) {
        let r = choose|r: Record<K, K::V>| is_staged(before, other, r);
        assert(is_staged(after, other, r));
    }
}

/// Setting one key does not change what a transaction may read of another.
pub proof fn law_view_set_keeps_others<K: MapKey, D: GetAtSeq<K> + RangeAtSeq<K>>(
    view: &mut View<K, D>,
    key: K,
    value: Option<K::V>,
    r: SeqMarked<()>,
    other: K,
    got: Result<SeqMarked<K::V>, io::Error>,
)
    requires
        old(view).wf(),
        none_ahead(*old(view)),
        value is Some || old(view).increase_seq_for_tombstone ==> old(view).last_seq.seq
            < u64::MAX,
        call_ensures(View::<K, D>::set, (view, key, value), r) || call_ensures(
            View::<K, D>::set_without_seq_increment,
            (view, key, value),
            r,
        ),
        !key_eq(key, other),
    ensures
        reads(*final(view), other, got) == reads(*old(view), other, got),
{
    if call_ensures(View::<K, D>::set, (view, key, value), r) {
        law_view_set(view, key, value, r);
    } else {
        law_view_set_without_seq_increment(view, key, value, r);
    }
    lemma_others_kept(*view, *final(view), key, r, value, other);
    if reads(*view, other, got) && has_staged(*view, other) {
        let w = choose|w: Record<K, K::V>|
            is_staged(*view, other, w) && (got matches Ok(now) && tells_clone(w, now));
        assert(is_staged(*final(view), other, w));
    }
    if reads(*final(view), other, got) && has_staged(*final(view), other) {
        let w = choose|w: Record<K, K::V>|
            is_staged(*final(view), other, w) && (got matches Ok(now) && tells_clone(w, now));
        assert(is_staged(*view, other, w));
    }
}

/// What fetching a key and setting it hands back and leaves, where the change is given `number`.
/// A read under a clone of the key failed, and nothing changed. Or it found `before`, and nothing
/// was there and nothing is set, so nothing changed; or one version was staged under the number,
/// a clone of the value or a deletion, and `now` says so.
pub open spec fn fetched_and_set<K: MapKey, D: GetAtSeq<K> + RangeAtSeq<K>>(
    view: View<K, D>,
    after: View<K, D>,
    key: K,
    value: Option<K::V>,
    number: int,
    r: Result<(SeqMarked<K::V>, SeqMarked<K::V>), io::Error>,
) -> bool {
    match r {
        Err(e) => after == view && exists|own: K| #[trigger]
            cloned(key, own) && reads(view, own, Err(e)),
        Ok((before, now)) => {
            &&& exists|own: K| #[trigger] cloned(key, own) && reads(view, own, Ok(before))
            &&& if absent(before) && value is None {
                after == view && absent(now)
            } else {
                &&& now.seq == number
                &&& match value {
                    Some(data) => now.marked == Marked::Normal(data) && staged_clone(
                        view,
                        after,
                        key,
                        SeqMarked { seq: now.seq, marked: Marked::Normal(()) },
                        data,
                    ),
                    None => now.marked is TombStone && staged_one(
                        view,
                        after,
                        key,
                        SeqMarked { seq: now.seq, marked: Marked::TombStone },
                        None,
                    ),
                }
            }
        },
    }
}

/// `after` is `before` with a clone of `data` staged and no other version.
pub open spec fn staged_clone<K: MapKey, D>(
    before: View<K, D>,
    after: View<K, D>,
    key: K,
    mark: SeqMarked<()>,
    data: K::V,
) -> bool {
    exists|own: K::V| #[trigger]
        cloned(data, own) && staged_one(before, after, key, mark, Some(own))
}

proof fn lemma_fetched_and_set<K: MapKey, D: GetAtSeq<K> + RangeAtSeq<K>>(
    view: View<K, D>,
    after: View<K, D>,
    key: K,
    value: Option<K::V>,
    increase_seq: bool,
    number: int,
    r: Result<(SeqMarked<K::V>, SeqMarked<K::V>), io::Error>,
)
    requires
        view.wf(),
        view.may_fetch_and_set(key, value, increase_seq, after, r),
        view.mark_after(value, increase_seq).seq == number,
    ensures
        fetched_and_set(view, after, key, value, number, r),
{
    let own = choose|own: K|
        {
            &&& #[trigger] cloned(key, own)
            &&& match r {
                Ok((fetched, new_value)) => {
                    &&& view.may_get(own, Ok(fetched))
                    &&& view.stages_after(key, value, fetched, increase_seq, after, new_value)
                },
                Err(e) => view.may_get(own, Err(e)) && after == view,
            }
        };
    match r {
        Err(e) => {
            lemma_reads(view, own, Err(e));
        },
        Ok((before, now)) => {
            lemma_reads(view, own, Ok(before));
            if !(absent(before) && value is None) {
                let mark = view.mark_after(value, increase_seq);
                let kept = choose|kept: Option<K::V>|
                    option_cloned(value, kept) && #[trigger] view.stages(
                        key,
                        kept,
                        mark,
                        after,
                    );
                lemma_only_wrote(view.changes.inner@, (key, mark), kept);
                if let Some(data) = value {
                    assert(cloned(data, kept->0));
                    assert(staged_one(
                        view,
                        after,
                        key,
                        SeqMarked { seq: now.seq, marked: Marked::Normal(()) },
                        Some(kept->0),
                    ));
                }
            }
        },
    }
}

/// Setting a key after something was fetched under it hands back what was fetched. Deleting what
/// is absent changes nothing; otherwise one version is staged, and the new value says so.
pub proof fn law_view_set_fetched<K: MapKey, D>(
    view: &mut View<K, D>,
    key: K,
    value: Option<K::V>,
    fetched: SeqMarked<K::V>,
    increase_seq: bool,
    r: (SeqMarked<K::V>, SeqMarked<K::V>),
)
    requires
        old(view).wf(),
        value is Some || old(view).increase_seq_for_tombstone ==> old(view).last_seq.seq
            < u64::MAX,
        call_ensures(
            View::<K, D>::set_fetched,
            (view, key, value, fetched, increase_seq),
            r,
        ),
    ensures
        r.0 == fetched,
        absent(fetched) && value is None ==> *final(view) == *old(view) && absent(r.1),
        value matches Some(data) ==> {
            &&& r.1.marked == Marked::Normal(data)
            &&& r.1.seq == old(view).last_seq.seq + (if increase_seq {
                1int
            } else {
                0int
            })
            &&& staged_clone(
                *old(view),
                *final(view),
                key,
                SeqMarked { seq: r.1.seq, marked: Marked::Normal(()) },
                data,
            )
        },
        !absent(fetched) && value is None ==> {
            &&& r.1.marked is TombStone
            &&& r.1.seq == old(view).last_seq.seq + (if old(view).increase_seq_for_tombstone {
                1int
            } else {
                0int
            })
            &&& staged_one(
                *old(view),
                *final(view),
                key,
                SeqMarked { seq: r.1.seq, marked: Marked::TombStone },
                None,
            )
        },
{
    if !(absent(fetched) && value is None) {
        let mark = view.mark_after(value, increase_seq);
        let kept = choose|kept: Option<K::V>|
            option_cloned(value, kept) && #[trigger] view.stages(
                key,
                kept,
                mark,
                *final(view),
            );
        lemma_only_wrote(view.changes.inner@, (key, mark), kept);
        if let Some(data) = value {
            assert(cloned(data, kept->0));
            assert(staged_one(
                *view,
                *final(view),
                key,
                SeqMarked { seq: r.1.seq, marked: Marked::Normal(()) },
                Some(kept->0),
            ));
        }
    }
}

/// Fetching and setting a key: a value is given the next number; a deletion of what was found,
/// be it staged or in the snapshot, the number that `set` gives it.
pub proof fn law_view_fetch_and_set<K: MapKey, D: GetAtSeq<K> + RangeAtSeq<K>>(
    view: &mut View<K, D>,
    key: K,
    value: Option<K::V>,
    r: Result<(SeqMarked<K::V>, SeqMarked<K::V>), io::Error>,
)
    requires
        old(view).wf(),
        value is Some || old(view).increase_seq_for_tombstone ==> old(view).last_seq.seq
            < u64::MAX,
        call_ensures(View::<K, D>::fetch_and_set, (view, key, value), r),
    ensures
        fetched_and_set(
            *old(view),
            *final(view),
            key,
            value,
            old(view).last_seq.seq + (if value is Some || old(view).increase_seq_for_tombstone {
                1int
            } else {
                0int
            }),
            r,
        ),
{
    lemma_fetched_and_set(
        *view,
        *final(view),
        key,
        value,
        true,
        view.last_seq.seq + (if value is Some || view.increase_seq_for_tombstone {
            1int
        } else {
            0int
        }),
        r,
    );
}

/// Fetching and setting a key without a new number for a value: a value is given the last number;
/// a deletion of what was found the number that `set` gives it.
pub proof fn law_view_fetch_and_set_without_seq_increment<
    K: MapKey,
    D: GetAtSeq<K> + RangeAtSeq<K>,
>(
    view: &mut View<K, D>,
    key: K,
    value: Option<K::V>,
    r: Result<(SeqMarked<K::V>, SeqMarked<K::V>), io::Error>,
)
    requires
        old(view).wf(),
        value is None && old(view).increase_seq_for_tombstone ==> old(view).last_seq.seq
            < u64::MAX,
        call_ensures(
            View::<K, D>::fetch_and_set_without_seq_increment,
            (view, key, value),
            r,
        ),
    ensures
        fetched_and_set(
            *old(view),
            *final(view),
            key,
            value,
            old(view).last_seq.seq + (if value is None && old(view).increase_seq_for_tombstone {
                1int
            } else {
                0int
            }),
            r,
        ),
{
    lemma_fetched_and_set(
        *view,
        *final(view),
        key,
        value,
        false,
        view.last_seq.seq + (if value is None && view.increase_seq_for_tombstone {
            1int
        } else {
            0int
        }),
        r,
    );
}

/// What fetching and setting a key hands back as the new value is what the transaction reads of
/// the key from then on, where something was there or is set. So deleting what was found always
/// leaves it deleted, whether it was staged or only in the snapshot. Left out: a value that takes
/// the number of a staged deletion of the key, and a deletion without a number.
pub proof fn law_view_reads_what_was_set<K: MapKey, D: GetAtSeq<K> + RangeAtSeq<K>>(
    view: &mut View<K, D>,
    key: K,
    value: Option<K::V>,
    before: SeqMarked<K::V>,
    now: SeqMarked<K::V>,
)
    requires
        old(view).wf(),
        none_ahead(*old(view)),
        value is Some || old(view).increase_seq_for_tombstone ==> old(view).last_seq.seq
            < u64::MAX,
        call_ensures(View::<K, D>::fetch_and_set, (view, key, value), Ok((before, now)))
            || call_ensures(
            View::<K, D>::fetch_and_set_without_seq_increment,
            (view, key, value),
            Ok((before, now)),
        ),
        !absent(before) || value is Some,
        !absent(now),
        value is Some ==> forall|r: Record<K, K::V>| #[trigger]
            old(view).changes.inner@.contains(r) && key_eq(r.0.0, key) && r.0.1.seq
                == now.seq ==> !(r.0.1.marked is TombStone),
    ensures
        has_staged(*final(view), key),
        forall|got: Result<SeqMarked<K::V>, io::Error>| #[trigger]
            call_ensures(View::<K, D>::get, (&*final(view), key), got) ==> (got matches Ok(seen)
                && seen.seq == now.seq && match value {
                Some(data) => now.marked == Marked::Normal(data) && (
                seen.marked matches Marked::Normal(copy) && twice_cloned(data, copy)),
                None => now.marked is TombStone && seen.marked is TombStone,
            }),
{
    if call_ensures(View::<K, D>::fetch_and_set, (view, key, value), Ok((before, now))) {
        law_view_fetch_and_set(view, key, value, Ok((before, now)));
    } else {
        law_view_fetch_and_set_without_seq_increment(view, key, value, Ok((before, now)));
    }
    let s = view.changes.inner@;
    let t = final(view).changes.inner@;
    let (mark, kept): (SeqMarked<()>, Option<K::V>) = match value {
        Some(data) => (
            SeqMarked { seq: now.seq, marked: Marked::Normal(()) },
            Some(
                choose|own: K::V| #[trigger]
                    cloned(data, own) && staged_one(
                        *view,
                        *final(view),
                        key,
                        SeqMarked { seq: now.seq, marked: Marked::Normal(()) },
                        Some(own),
                    ),
            ),
        ),
        None => (SeqMarked { seq: now.seq, marked: Marked::TombStone }, None),
    };
    assert(staged_one(*view, *final(view), key, mark, kept));
    lemma_wrote_is_seen(s, t, key, mark, kept);
    let w = choose|w: Record<K, K::V>| sees(t, key, mark.seq, w);
    assert(is_staged(*final(view), key, w));
    assert forall|got: Result<SeqMarked<K::V>, io::Error>| #[trigger]
        call_ensures(View::<K, D>::get, (&*final(view), key), got) implies (got matches Ok(seen)
        && seen.seq == now.seq && match value {
        Some(data) => now.marked == Marked::Normal(data) && (seen.marked matches Marked::Normal(
            copy,
        ) && twice_cloned(data, copy)),
        None => now.marked is TombStone && seen.marked is TombStone,
    }) by {
        law_view_get(*final(view), key, got);
        let x = choose|x: Record<K, K::V>|
            is_staged(*final(view), key, x) && (got matches Ok(seen) && tells_clone(x, seen));
        assert(is_version(x, key, mark) && x.1 == kept);
        if let Some(data) = value {
            assert(cloned(data, kept->0));
        }
    }
}

/// `b` is a clone of a clone of `a`.
pub open spec fn twice_cloned<V: Clone>(a: V, b: V) -> bool {
    exists|own: V| #[trigger] cloned(a, own) && cloned(own, b)
}

/// The trait's read is the view's.
pub proof fn law_view_get_of_trait<K: MapKey, D: GetAtSeq<K> + RangeAtSeq<K>>(
    view: View<K, D>,
    key: K,
    r: Result<SeqMarked<K::V>, io::Error>,
)
    requires
        view.wf(),
        call_ensures(<View<K, D> as ViewGet<K>>::get, (&view, key), r),
    ensures
        reads(view, key, r),
        has_staged(view, key) ==> r is Ok,
{
    lemma_reads(view, key, r);
}

/// The trait's write is the view's.
pub proof fn law_view_set_of_trait<K: MapKey, D: GetAtSeq<K> + RangeAtSeq<K>>(
    view: &mut View<K, D>,
    key: K,
    value: Option<K::V>,
    r: SeqMarked<()>,
)
    requires
        old(view).wf(),
        value is Some || old(view).increase_seq_for_tombstone ==> old(view).last_seq.seq
            < u64::MAX,
        call_ensures(<View<K, D> as ViewSet<K>>::set, (view, key, value), r),
    ensures
        staged_one(*old(view), *final(view), key, r, value),
        (r.marked is TombStone) == (value is None),
        r.seq == old(view).last_seq.seq + (if value is Some
            || old(view).increase_seq_for_tombstone {
            1int
        } else {
            0int
        }),
{
    lemma_only_wrote(view.changes.inner@, (key, r), value);
}

/// What a view hands out of its staged changes are clones of the versions that are staged last,
/// for one key and for the keys of a range, and its snapshot is the one it was made with.
pub proof fn law_view_staged<K: MapKey, D>(
    view: View<K, D>,
    key: K,
    value: SeqMarked<K::V>,
    range: KeyRange<K>,
    items: Vec<(K, SeqMarked<K::V>)>,
    snapshot: &Snapshot<K, D>,
    base: &Snapshot<K, D>,
)
    requires
        view.wf(),
        call_ensures(View::<K, D>::staged_value, (&view, &key), value),
        call_ensures(View::<K, D>::staged_range, (&view, range), items),
        call_ensures(View::<K, D>::snapshot, (&view,), snapshot),
        call_ensures(View::<K, D>::base, (&view,), base),
    ensures
        told_clone(view.changes.inner@, key, view.last_seq.seq, value),
        exists|plain: Seq<(K, SeqMarked<K::V>)>|
            #![trigger told_range(view.changes.inner@, range, view.last_seq.seq, plain)]
            {
                &&& told_range(view.changes.inner@, range, view.last_seq.seq, plain)
                &&& items@.len() == plain.len()
                &&& forall|i: int|
                    0 <= i < plain.len() ==> cloned(plain[i].0, (#[trigger] items@[i]).0)
                        && is_clone(plain[i].1, items@[i].1)
            },
        *snapshot == view.snapshot,
        *base == view.snapshot,
{
    let s = view.changes.inner@;
    let upto = view.last_seq.seq;
    lemma_read_is_told(s, key, upto);
    lemma_told_clone(s, key, upto, read(s, key, upto), value);
    lemma_scan_is_told(s, range, upto);
    assert(told_range(s, range, upto, scan(s, range, upto)));
}

/// A transaction reads what it staged last under a key without a new number, unless a deletion of
/// the key was staged under that number.
pub proof fn law_view_set_without_seq_increment_is_read<
    K: MapKey,
    D: GetAtSeq<K> + RangeAtSeq<K>,
>(view: &mut View<K, D>, key: K, value: Option<K::V>, r: SeqMarked<()>)
    requires
        old(view).wf(),
        none_ahead(*old(view)),
        call_ensures(View::<K, D>::set_without_seq_increment, (view, key, value), r),
        value is Some ==> forall|q: Record<K, K::V>| #[trigger]
            old(view).changes.inner@.contains(q) && key_eq(q.0.0, key) && q.0.1.seq
                == old(view).last_seq.seq ==> !(q.0.1.marked is TombStone),
        value is Some || old(view).last_seq.seq > 0,
    ensures
        forall|got: Result<SeqMarked<K::V>, io::Error>| #[trigger]
            call_ensures(View::<K, D>::get, (&*final(view), key), got) ==> (got matches Ok(now)
                && now.seq == old(view).last_seq.seq && match value {
                Some(data) => now.marked matches Marked::Normal(copy) && cloned(data, copy),
                None => now.marked is TombStone,
            }),
{
    law_view_set_without_seq_increment(view, key, value, r);
    let before = view.changes.inner@;
    let after = final(view).changes.inner@;
    lemma_wrote_is_seen(before, after, key, r, value);
    assert forall|got: Result<SeqMarked<K::V>, io::Error>| #[trigger]
        call_ensures(View::<K, D>::get, (&*final(view), key), got) implies (got matches Ok(now)
        && now.seq == old(view).last_seq.seq && match value {
        Some(data) => now.marked matches Marked::Normal(copy) && cloned(data, copy),
        None => now.marked is TombStone,
    }) by {
        law_view_get(*final(view), key, got);
        let w = choose|w: Record<K, K::V>| sees(after, key, r.seq, w);
        assert(is_staged(*final(view), key, w));
    }
}

} // verus!
