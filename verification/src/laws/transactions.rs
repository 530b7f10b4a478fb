//! What a transaction sees of its own changes, and what becomes of them.

use crate::io_result::{all_ok, failures, ok_items, oks, IOResultStream};
use crate::laws::committing::{law_commit_is_in_range, law_commit_is_read};
use crate::laws::reading::{
    law_range_agrees_with_get, law_read_is_not_too_new, lemma_clones_ascend, lemma_scan_ascends,
};
use crate::laws::writing::{law_write_is_read, law_write_keeps_other_keys, none_newer};
use crate::map_key::{faithful_clone, MapKey};
use crate::order::{key_eq, lemma_key_transitive, lemma_key_trichotomy, ordered};
use crate::read_at_seq::{items_cloned, GetAtSeq, RangeAtSeq};
use crate::seq_marked::{marked_cloned, tombstone_mark, Marked, SeqMarked};
use crate::table::Table;
use crate::util::{
    at_key, keys_ascend, later_of, law_merge_hands_failures_on, lemma_at_key, merge_of, overlaid,
};
use crate::versions::{extended, lemma_inserted, occupied, sorted, Record};
use crate::view::{option_cloned, range_cloned, View};
use crate::visibility::{is_shown, lemma_shown_unique, read, scan, shown, within, KeyRange};
use std::io;
use std::ops::Bound;
use vstd::prelude::*;
use vstd::view::View as _;

verus! {

/// Staging a change keeps a view sound.
pub proof fn law_staging_keeps_sound<K: MapKey, D>(
    view: View<K, D>,
    key: K,
    value: Option<K::V>,
    increase_seq: bool,
    after: View<K, D>,
)
    requires
        view.sound(),
        view.can_stage(value, increase_seq),
        view.stages(key, value, view.mark_for(value, increase_seq), after),
    ensures
        after.sound(),
{
    lemma_inserted(
        view.changes.inner@,
        (key, view.mark_for(value, increase_seq)),
        value,
    );
}

/// A change can be staged in a sound view unless its sequence number overflows.
pub proof fn law_sound_view_takes_changes<K: MapKey, D>(
    view: View<K, D>,
    value: Option<K::V>,
    increase_seq: bool,
)
    requires
        view.sound(),
    ensures
        view.can_stage(value, increase_seq) == (view.seq_for(value, increase_seq) <= u64::MAX),
{
}

/// The sequence numbers of a transaction do not decrease, and where one is allocated it is the
/// next one. None is allocated for a change that is staged without.
pub proof fn law_sequence_numbers_advance<K: MapKey, D>(
    view: View<K, D>,
    key: K,
    value: Option<K::V>,
    increase_seq: bool,
    after: View<K, D>,
)
    requires
        view.can_stage(value, increase_seq),
        view.stages(key, value, view.mark_for(value, increase_seq), after),
    ensures
        view.last_seq.seq <= after.last_seq.seq,
        value is Some && increase_seq ==> after.last_seq.seq == view.last_seq.seq + 1,
        !increase_seq ==> after.last_seq.seq == view.last_seq.seq,
        value is None && increase_seq ==> after.last_seq.seq == view.last_seq.seq + (
        if view.increase_seq_for_tombstone {
            1int
        } else {
            0int
        }),
{
}

/// A transaction reads what it staged last under a key, unless it deleted the key under the
/// same sequence number before: then it reads the deletion. It reads the deletion of a key only
/// where that has a sequence number: without one it counts as nothing staged.
pub proof fn law_staged_change_is_read<K: MapKey, D: GetAtSeq<K> + RangeAtSeq<K>>(
    view: View<K, D>,
    key: K,
    value: Option<K::V>,
    increase_seq: bool,
    after: View<K, D>,
)
    requires
        view.sound(),
        view.can_stage(value, increase_seq),
        view.stages(key, value, view.mark_for(value, increase_seq), after),
        value is Some && !increase_seq ==> !occupied(
            view.changes.inner@,
            (key, tombstone_mark(view.last_seq.seq)),
        ),
    ensures
        after.staged(key) == (SeqMarked {
            seq: after.last_seq.seq,
            marked: match value {
                Some(data) => Marked::Normal(data),
                None => Marked::TombStone,
            },
        }),
        value is Some || after.last_seq.seq > 0 ==> forall|r: Result<
            SeqMarked<K::V>,
            io::Error,
        >| #[trigger]
            after.may_get(key, r) == (r matches Ok(got) && marked_cloned(after.staged(key), got)),
{
    let s = view.changes.inner@;
    let mark = view.mark_for(value, increase_seq);
    lemma_key_trichotomy(key, key);
    assert forall|r: Record<K, K::V>| #[trigger]
        s.contains(r) && key_eq(r.0.0, key) && r.0.1.seq <= mark.seq implies r.0.1.rank()
        <= mark.rank() by {
        assert(r.0.1.seq <= view.changes.last_seq.seq);
    }
    assert(none_newer(s, key, mark.seq, mark));
    law_write_is_read(s, (key, mark), value, key, mark.seq);
}

/// What fetching and staging a change hands back as the new value is what a transaction reads
/// from then on, where cloning a value gives an equal one, and on the terms of any staged
/// change.
pub proof fn law_fetched_change_is_read<K: MapKey, D: GetAtSeq<K> + RangeAtSeq<K>>(
    view: View<K, D>,
    key: K,
    value: Option<K::V>,
    fetched: SeqMarked<K::V>,
    increase_seq: bool,
    after: View<K, D>,
    new_value: SeqMarked<K::V>,
)
    requires
        view.sound(),
        fetched.found() || value is Some,
        view.can_stage_after(value, fetched, increase_seq),
        view.stages_after(key, value, fetched, increase_seq, after, new_value),
        forall|a: K::V, b: K::V| #[trigger] cloned(a, b) ==> a == b,
        value is Some && !increase_seq ==> !occupied(
            view.changes.inner@,
            (key, tombstone_mark(view.last_seq.seq)),
        ),
        value is Some || after.last_seq.seq > 0,
    ensures
        after.staged(key) == new_value,
        forall|got: SeqMarked<K::V>| #[trigger]
            after.may_get(key, Ok(got)) ==> got == new_value,
        forall|e: io::Error| !#[trigger] after.may_get(key, Err(e)),
{
    let allocates = increase_seq || value is None;
    let mark = view.mark_after(value, increase_seq);
    let own = choose|own: Option<K::V>|
        option_cloned(value, own) && #[trigger] view.stages(key, own, mark, after);
    law_staged_change_is_read(view, key, own, allocates, after);
}

/// Where no version of a key was written between two readers, they see the same of it.
pub proof fn lemma_nothing_newer<K: Ord, V>(s: Seq<Record<K, V>>, key: K, seq: u64, upto: u64)
    requires
        ordered::<K>(),
        sorted(s),
        seq <= upto,
        unchanged_between(s, key, seq, upto),
    ensures
        is_shown(s, key, upto) == is_shown(s, key, seq),
        read(s, key, upto) == read(s, key, seq),
{
    assert forall|r: Record<K, V>| shown(s, key, seq, r) implies #[trigger] shown(
        s,
        key,
        upto,
        r,
    ) by {
        assert forall|q: Record<K, V>| #[trigger]
            s.contains(q) && key_eq(q.0.0, r.0.0) && q.0.1.seq <= upto implies q.0.1.rank()
            <= r.0.1.rank() by {
            lemma_key_transitive(q.0.0, r.0.0, key);
        }
    }
    assert forall|r: Record<K, V>| shown(s, key, upto, r) implies #[trigger] shown(
        s,
        key,
        seq,
        r,
    ) by {
        assert(s.contains(r));
    }
    if is_shown(s, key, seq) {
        let r = choose|r: Record<K, V>| shown(s, key, seq, r);
        assert(shown(s, key, upto, r));
        lemma_shown_unique(s, key, seq, r, r);
        lemma_shown_unique(s, key, upto, r, r);
    }
    if is_shown(s, key, upto) {
        let r = choose|r: Record<K, V>| shown(s, key, upto, r);
        assert(shown(s, key, seq, r));
    }
}

/// No version of `key` was written after `from` and not after `upto`.
pub open spec fn unchanged_between<K: Ord, V>(
    s: Seq<Record<K, V>>,
    key: K,
    from: u64,
    upto: u64,
) -> bool {
    forall|r: Record<K, V>| #[trigger]
        s.contains(r) && key_eq(r.0.0, key) ==> r.0.1.seq <= from || upto < r.0.1.seq
}

/// Staging a change of one key does not change what a transaction reads of another: neither
/// what is staged for it, nor what a read may give.
pub proof fn law_staging_keeps_other_keys<K: MapKey, D: GetAtSeq<K> + RangeAtSeq<K>>(
    view: View<K, D>,
    key: K,
    value: Option<K::V>,
    increase_seq: bool,
    after: View<K, D>,
    other: K,
)
    requires
        view.sound(),
        view.can_stage(value, increase_seq),
        view.stages(key, value, view.mark_for(value, increase_seq), after),
        !key_eq(key, other),
    ensures
        after.staged(other) == view.staged(other),
        forall|r: Result<SeqMarked<K::V>, io::Error>| #[trigger]
            after.may_get(other, r) == view.may_get(other, r),
{
    let s = view.changes.inner@;
    let mark = view.mark_for(value, increase_seq);
    assert(unchanged_between(s, other, view.last_seq.seq, mark.seq));
    lemma_nothing_newer(s, other, view.last_seq.seq, mark.seq);
    law_write_keeps_other_keys(s, (key, mark), value, other, mark.seq);
}

/// What is staged for a key is not older than what is below it. A deletion without a sequence
/// number, which counts as nothing staged, is not newer than what is below it.
pub open spec fn overrides<V>(
    staged_shown: bool,
    staged: SeqMarked<V>,
    base_shown: bool,
    base: SeqMarked<V>,
) -> bool {
    staged_shown && base_shown ==> if staged.found() {
        staged.rank() >= base.rank()
    } else {
        staged.rank() <= base.rank()
    }
}

/// What a transaction reads of a key is what readers of the table below it read once its
/// changes are committed there, provided that nobody else wrote the key in between, and that
/// what is staged is not older than what it replaces.
pub proof fn law_commit_keeps_what_was_read<K: MapKey>(
    view: View<K, Table<K, K::V>>,
    key: K,
    r: Result<SeqMarked<K::V>, io::Error>,
)
    requires
        view.sound(),
        view.snapshot.data.wf(),
        view.snapshot.snapshot_seq.seq <= view.last_seq.seq,
        unchanged_between(
            view.snapshot.data.inner@,
            key,
            view.snapshot.snapshot_seq.seq,
            view.last_seq.seq,
        ),
        overrides(
            is_shown(view.changes.inner@, key, view.last_seq.seq),
            view.staged(key),
            is_shown(view.snapshot.data.inner@, key, view.snapshot.snapshot_seq.seq),
            read(view.snapshot.data.inner@, key, view.snapshot.snapshot_seq.seq),
        ),
    ensures
        view.may_get(key, r) == (r matches Ok(got) && marked_cloned(
            read(
                extended(view.snapshot.data.inner@, view.changes.inner@),
                key,
                view.last_seq.seq,
            ),
            got,
        )),
{
    let base = view.snapshot.data.inner@;
    let from = view.snapshot.snapshot_seq.seq;
    lemma_nothing_newer(base, key, from, view.last_seq.seq);
    law_commit_is_read(base, view.changes.inner@, key, view.last_seq.seq);
}

/// The changes of a transaction follow its snapshot: staging a change keeps it so, unless
/// the change is a value that takes the very sequence number of the snapshot.
pub proof fn law_changes_follow_snapshot<K: MapKey, D>(
    view: View<K, D>,
    key: K,
    value: Option<K::V>,
    increase_seq: bool,
    after: View<K, D>,
)
    requires
        view.can_stage(value, increase_seq),
        view.stages(key, value, view.mark_for(value, increase_seq), after),
        view.follows_snapshot(),
        value is Some && !increase_seq ==> view.snapshot.snapshot_seq.seq < view.last_seq.seq,
    ensures
        after.follows_snapshot(),
{
    lemma_inserted(
        view.changes.inner@,
        (key, view.mark_for(value, increase_seq)),
        value,
    );
}

/// What is staged, where all changes follow the snapshot, comes after all normal data of it.
proof fn lemma_follows_snapshot<K: MapKey, D>(view: View<K, D>, key: K)
    requires
        view.follows_snapshot(),
    ensures
        is_shown(view.changes.inner@, key, view.last_seq.seq) ==> view.staged(key).rank() > 2
            * view.snapshot.snapshot_seq.seq,
{
    if is_shown(view.changes.inner@, key, view.last_seq.seq) {
        let r = choose|r: Record<K, K::V>|
            shown(view.changes.inner@, key, view.last_seq.seq, r);
        assert(view.changes.inner@.contains(r));
    }
}

/// Changes that follow a snapshot are not older than what it shows, and where they are not newer
/// both are the same deletion.
pub proof fn law_changes_override_snapshot<K: MapKey>(view: View<K, Table<K, K::V>>, key: K)
    requires
        view.follows_snapshot(),
        view.snapshot.snapshot_seq.seq > 0,
    ensures
        is_shown(view.changes.inner@, key, view.last_seq.seq) ==> view.staged(key).found()
            && outranks(
            view.staged(key),
            read(view.snapshot.data.inner@, key, view.snapshot.snapshot_seq.seq),
        ),
{
    law_read_is_not_too_new(
        view.snapshot.data.inner@,
        key,
        view.snapshot.snapshot_seq.seq,
    );
    lemma_follows_snapshot(view, key);
}

/// `a` comes after `b`, or both are the same deletion.
pub open spec fn outranks<V>(a: SeqMarked<V>, b: SeqMarked<V>) -> bool {
    a.rank() > b.rank() || (a.rank() == b.rank() && a.marked is TombStone)
}

/// Clones of items say of each key clones of what the items say.
pub proof fn lemma_clones_at_key<K: MapKey>(
    a: Seq<(K, SeqMarked<K::V>)>,
    b: Seq<(K, SeqMarked<K::V>)>,
    key: K,
)
    requires
        ordered::<K>(),
        faithful_clone::<K>(),
        items_cloned(a, b),
        keys_ascend(a),
    ensures
        match at_key(a, key) {
            Some(x) => at_key(b, key) matches Some(y) && marked_cloned(x, y),
            None => at_key(b, key) is None,
        },
{
    lemma_clones_ascend(a, b);
    assert forall|i: int| 0 <= i < a.len() implies key_eq((#[trigger] a[i]).0, key) == key_eq(
        (#[trigger] b[i]).0,
        key,
    ) by {
        assert(cloned(a[i].0, b[i].0));
        lemma_key_trichotomy(a[i].0, b[i].0);
        lemma_key_transitive(a[i].0, b[i].0, key);
        lemma_key_transitive(b[i].0, a[i].0, key);
    }
    if at_key(a, key) is Some {
        let i = choose|i: int| 0 <= i < a.len() && key_eq((#[trigger] a[i]).0, key);
        assert(key_eq(b[i].0, key));
        lemma_at_key(a, key, i);
        lemma_at_key(b, key, i);
    } else if at_key(b, key) is Some {
        let i = choose|i: int| 0 <= i < b.len() && key_eq((#[trigger] b[i]).0, key);
        assert(key_eq(a[i].0, key));
    }
}

/// A clone of a range holds the same keys.
pub proof fn lemma_clone_within<K: MapKey>(a: KeyRange<K>, b: KeyRange<K>, key: K)
    requires
        ordered::<K>(),
        faithful_clone::<K>(),
        range_cloned(a, b),
    ensures
        within(a, key) == within(b, key),
{
    match (a.0, b.0) {
        (Bound::Included(x), Bound::Included(y)) | (Bound::Excluded(x), Bound::Excluded(y)) => {
            lemma_key_trichotomy(x, y);
            lemma_key_transitive(key, x, y);
            lemma_key_transitive(key, y, x);
            lemma_key_transitive(x, y, key);
            lemma_key_transitive(y, x, key);
        },
        _ => {},
    }
    match (a.1, b.1) {
        (Bound::Included(x), Bound::Included(y)) | (Bound::Excluded(x), Bound::Excluded(y)) => {
            lemma_key_trichotomy(x, y);
            lemma_key_transitive(key, x, y);
            lemma_key_transitive(key, y, x);
            lemma_key_transitive(x, y, key);
            lemma_key_transitive(y, x, key);
        },
        _ => {},
    }
}

/// What is staged for a key comes after what is below it, or both are the same deletion. A
/// deletion without a sequence number is not newer than what is below it.
pub open spec fn overrides_strictly<V>(
    staged_shown: bool,
    staged: SeqMarked<V>,
    base_shown: bool,
    base: SeqMarked<V>,
) -> bool {
    staged_shown && base_shown ==> if staged.found() {
        outranks(staged, base)
    } else {
        staged.rank() <= base.rank()
    }
}

/// What a reader's range read says of `key` is what its read of the key may give, is not newer
/// than the boundary, and is said of keys of the range only. Where it says nothing of a key of
/// the range, a read of the key may give that it is absent.
pub open spec fn agrees_at<K: MapKey, D: GetAtSeq<K> + RangeAtSeq<K>>(
    data: D,
    range: KeyRange<K>,
    seq: u64,
    items: IOResultStream<(K, SeqMarked<K::V>)>,
    key: K,
) -> bool {
    match at_key(oks(items@), key) {
        Some(value) => within(range, key) && value.seq <= seq && data.may_get_at(
            key,
            seq,
            Ok(value),
        ),
        None => within(range, key) ==> data.may_get_at(
            key,
            seq,
            Ok(SeqMarked { seq: 0, marked: Marked::TombStone }),
        ),
    }
}

/// A range read of `range` does not fail, neither as a whole nor in one of its items, gives each
/// key once in the order of the keys, and agrees with the reads of single keys.
pub open spec fn coherent<K: MapKey, D: GetAtSeq<K> + RangeAtSeq<K>>(
    data: D,
    range: KeyRange<K>,
    seq: u64,
) -> bool {
    forall|r: Result<IOResultStream<(K, SeqMarked<K::V>)>, io::Error>| #[trigger]
        data.may_range_at(range, seq, r) ==> {
            &&& r is Ok
            &&& all_ok(r->Ok_0@)
            &&& keys_ascend(oks(r->Ok_0@))
            &&& forall|key: K| #[trigger] agrees_at(data, range, seq, r->Ok_0, key)
        }
}

/// The reads of a table are coherent.
pub proof fn law_table_is_coherent<K: MapKey>(
    table: Table<K, K::V>,
    range: KeyRange<K>,
    seq: u64,
)
    requires
        table.wf(),
        faithful_clone::<K>(),
    ensures
        coherent(table, range, seq),
{
    let s = table.inner@;
    assert forall|r: Result<IOResultStream<(K, SeqMarked<K::V>)>, io::Error>| #[trigger]
        table.may_range_at(range, seq, r) implies {
        &&& r is Ok
        &&& all_ok(r->Ok_0@)
        &&& keys_ascend(oks(r->Ok_0@))
        &&& forall|key: K| #[trigger] agrees_at(table, range, seq, r->Ok_0, key)
    } by {
        let items = r->Ok_0;
        lemma_scan_ascends(s, range, seq);
        lemma_clones_ascend(scan(s, range, seq), oks(items@));
        assert forall|key: K| #[trigger] agrees_at(table, range, seq, items, key) by {
            law_range_agrees_with_get(s, range, seq, key);
            lemma_clones_at_key(scan(s, range, seq), oks(items@), key);
            law_read_is_not_too_new(s, key, seq);
        }
    }
}

/// What overlaying a coherent read with the staged changes says of a key is what a read of that
/// key may give, provided that what is staged comes after what it replaces.
pub proof fn lemma_overlay_agrees_with_get<K: MapKey, D: GetAtSeq<K> + RangeAtSeq<K>>(
    view: View<K, D>,
    range: KeyRange<K>,
    base: IOResultStream<(K, SeqMarked<K::V>)>,
    items: IOResultStream<(K, SeqMarked<K::V>)>,
    key: K,
)
    requires
        view.wf(),
        faithful_clone::<K>(),
        view.may_overlay(range, base, items),
        all_ok(base@),
        keys_ascend(oks(base@)),
        agrees_at(view.snapshot.data, range, view.snapshot.snapshot_seq.seq, base, key),
        at_key(oks(base@), key) matches Some(below) ==> overrides_strictly(
            is_shown(view.changes.inner@, key, view.last_seq.seq),
            view.staged(key),
            true,
            below,
        ),
    ensures
        all_ok(items@),
        keys_ascend(oks(items@)),
        at_key(oks(items@), key) is Some == (within(range, key) && (is_shown(
            view.changes.inner@,
            key,
            view.last_seq.seq,
        ) || at_key(oks(base@), key) is Some)),
        at_key(oks(items@), key) matches Some(value) ==> view.may_get(key, Ok(value)),
{
    let changes = view.changes.inner@;
    let upto = view.last_seq.seq;
    let updates = choose|updates: Seq<(K, SeqMarked<K::V>)>|
        {
            &&& #[trigger] items_cloned(scan(changes, range, upto), updates)
            &&& items@ == merge_of(base@, ok_items(updates))
            &&& all_ok(base@) && keys_ascend(oks(base@)) && faithful_clone::<K>() ==> all_ok(
                items@,
            ) && overlaid(oks(base@), updates, oks(items@))
        };
    lemma_scan_ascends(changes, range, upto);
    law_range_agrees_with_get(changes, range, upto, key);
    lemma_clones_at_key(scan(changes, range, upto), updates, key);
    assert(later_of(at_key(oks(base@), key), at_key(updates, key), at_key(oks(items@), key)));
}

/// `base` is a read of a clone of `range` from the snapshot, and `key` is among the items just
/// if it lies in the range and is staged, or is among what was read.
pub open spec fn holds_keys_of<K: MapKey, D: GetAtSeq<K> + RangeAtSeq<K>>(
    view: View<K, D>,
    range: KeyRange<K>,
    own: KeyRange<K>,
    base: IOResultStream<(K, SeqMarked<K::V>)>,
    items: IOResultStream<(K, SeqMarked<K::V>)>,
    key: K,
) -> bool {
    &&& range_cloned(range, own)
    &&& view.snapshot.data.may_range_at(own, view.snapshot.snapshot_seq.seq, Ok(base))
    &&& at_key(oks(items@), key) is Some == (within(range, key) && (is_shown(
        view.changes.inner@,
        key,
        view.last_seq.seq,
    ) || at_key(oks(base@), key) is Some))
}

/// A range read of a transaction over a coherent reader does not fail. It gives each key once in
/// the order of the keys: those of the range that are staged or that the range read of the
/// snapshot gives. It says of each what a read of that key may give.
pub proof fn law_view_range_agrees_with_get<K: MapKey, D: GetAtSeq<K> + RangeAtSeq<K>>(
    view: View<K, D>,
    range: KeyRange<K>,
    r: Result<IOResultStream<(K, SeqMarked<K::V>)>, io::Error>,
    key: K,
)
    requires
        view.wf(),
        view.follows_snapshot(),
        view.snapshot.snapshot_seq.seq > 0,
        faithful_clone::<K>(),
        forall|own: KeyRange<K>| #[trigger]
            range_cloned(range, own) ==> coherent(
                view.snapshot.data,
                own,
                view.snapshot.snapshot_seq.seq,
            ),
        view.may_range(range, r),
    ensures
        r is Ok,
        all_ok(r->Ok_0@),
        keys_ascend(oks(r->Ok_0@)),
        exists|own: KeyRange<K>, base: IOResultStream<(K, SeqMarked<K::V>)>| #[trigger]
            holds_keys_of(view, range, own, base, r->Ok_0, key),
        at_key(oks(r->Ok_0@), key) matches Some(value) ==> view.may_get(key, Ok(value)),
{
    let data = view.snapshot.data;
    let from = view.snapshot.snapshot_seq.seq;
    if let Err(e) = r {
        let own = choose|own: KeyRange<K>| #[trigger]
            range_cloned(range, own) && data.may_range_at(own, from, Err(e));
        assert(coherent(data, own, from));
    } else {
        let items = r->Ok_0;
        let own = choose|own: KeyRange<K>| #[trigger]
            range_cloned(range, own) && view.may_overlay_read(range, own, items);
        let base = choose|base: IOResultStream<(K, SeqMarked<K::V>)>|
            {
                &&& data.may_range_at(own, from, Ok(base))
                &&& #[trigger] view.may_overlay(range, base, items)
            };
        assert(coherent(data, own, from));
        assert(agrees_at(data, own, from, base, key));
        lemma_clone_within(range, own, key);
        lemma_follows_snapshot(view, key);
        lemma_overlay_agrees_with_get(view, range, base, items, key);
        assert(holds_keys_of(view, range, own, base, items, key));
    }
}

/// A range read of a transaction over a table says of a key of the range what a read of that
/// key may give, provided that what is staged comes after what it replaces. It says nothing of
/// other keys, nor of keys of which neither the changes nor the snapshot show a version.
pub proof fn law_table_view_range_agrees_with_get<K: MapKey>(
    view: View<K, Table<K, K::V>>,
    range: KeyRange<K>,
    items: IOResultStream<(K, SeqMarked<K::V>)>,
    key: K,
)
    requires
        view.wf(),
        view.snapshot.data.wf(),
        faithful_clone::<K>(),
        view.may_range(range, Ok(items)),
        overrides_strictly(
            is_shown(view.changes.inner@, key, view.last_seq.seq),
            view.staged(key),
            is_shown(view.snapshot.data.inner@, key, view.snapshot.snapshot_seq.seq),
            read(view.snapshot.data.inner@, key, view.snapshot.snapshot_seq.seq),
        ),
    ensures
        all_ok(items@),
        keys_ascend(oks(items@)),
        match at_key(oks(items@), key) {
            Some(value) => {
                &&& within(range, key)
                &&& is_shown(view.changes.inner@, key, view.last_seq.seq) || is_shown(
                    view.snapshot.data.inner@,
                    key,
                    view.snapshot.snapshot_seq.seq,
                )
                &&& view.may_get(key, Ok(value))
            },
            None => !within(range, key) || (!is_shown(
                view.changes.inner@,
                key,
                view.last_seq.seq,
            ) && !is_shown(
                view.snapshot.data.inner@,
                key,
                view.snapshot.snapshot_seq.seq,
            )),
        },
{
    let below = view.snapshot.data.inner@;
    let from = view.snapshot.snapshot_seq.seq;
    let own = choose|own: KeyRange<K>| #[trigger]
        range_cloned(range, own) && view.may_overlay_read(range, own, items);
    let base = choose|base: IOResultStream<(K, SeqMarked<K::V>)>|
        {
            &&& view.snapshot.data.may_range_at(own, from, Ok(base))
            &&& #[trigger] view.may_overlay(range, base, items)
        };
    law_table_is_coherent(view.snapshot.data, own, from);
    assert(agrees_at(view.snapshot.data, own, from, base, key));
    lemma_clone_within(range, own, key);
    lemma_scan_ascends(below, own, from);
    law_range_agrees_with_get(below, own, from, key);
    lemma_clones_at_key(scan(below, own, from), oks(base@), key);
    lemma_overlay_agrees_with_get(view, range, base, items, key);
}

/// A range read of a transaction over a table says of a key what a range read of the table says
/// of it once the changes are committed there, on the terms of single reads.
pub proof fn law_commit_keeps_what_was_in_range<K: MapKey>(
    view: View<K, Table<K, K::V>>,
    range: KeyRange<K>,
    items: IOResultStream<(K, SeqMarked<K::V>)>,
    key: K,
)
    requires
        view.sound(),
        view.snapshot.data.wf(),
        view.snapshot.snapshot_seq.seq <= view.last_seq.seq,
        faithful_clone::<K>(),
        view.may_range(range, Ok(items)),
        unchanged_between(
            view.snapshot.data.inner@,
            key,
            view.snapshot.snapshot_seq.seq,
            view.last_seq.seq,
        ),
        overrides_strictly(
            is_shown(view.changes.inner@, key, view.last_seq.seq),
            view.staged(key),
            is_shown(view.snapshot.data.inner@, key, view.snapshot.snapshot_seq.seq),
            read(view.snapshot.data.inner@, key, view.snapshot.snapshot_seq.seq),
        ),
    ensures
        match (
            at_key(
                scan(
                    extended(view.snapshot.data.inner@, view.changes.inner@),
                    range,
                    view.last_seq.seq,
                ),
                key,
            ),
            at_key(oks(items@), key),
        ) {
            (Some(committed), Some(got)) => marked_cloned(committed, got),
            (None, None) => true,
            _ => false,
        },
{
    let below = view.snapshot.data.inner@;
    let changes = view.changes.inner@;
    law_table_view_range_agrees_with_get(view, range, items, key);
    lemma_nothing_newer(below, key, view.snapshot.snapshot_seq.seq, view.last_seq.seq);
    law_commit_is_in_range(below, changes, range, view.last_seq.seq, key);
    law_commit_is_read(below, changes, key, view.last_seq.seq);
    if let Some(got) = at_key(oks(items@), key) {
        law_commit_keeps_what_was_read(view, key, Ok(got));
    }
}

/// A range read of a transaction hands on each failure of the read of the snapshot, in their
/// order, and adds none.
pub proof fn law_view_range_hands_failures_on<K: MapKey, D: GetAtSeq<K> + RangeAtSeq<K>>(
    view: View<K, D>,
    range: KeyRange<K>,
    base: IOResultStream<(K, SeqMarked<K::V>)>,
    items: IOResultStream<(K, SeqMarked<K::V>)>,
)
    requires
        view.wf(),
        view.may_overlay(range, base, items),
    ensures
        failures(items@) == failures(base@),
{
    let updates = choose|updates: Seq<(K, SeqMarked<K::V>)>|
        {
            &&& #[trigger] items_cloned(
                scan(view.changes.inner@, range, view.last_seq.seq),
                updates,
            )
            &&& items@ == merge_of(base@, ok_items(updates))
        };
    law_merge_hands_failures_on(base@, ok_items(updates));
}

} // verus!
