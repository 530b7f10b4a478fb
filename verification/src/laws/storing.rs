//! What the writes of a table do, said of the versions themselves.

use crate::io_result::{all_ok, oks, IOResultStream};
use crate::laws::tables::{each_once, is_version, only_wrote};
use crate::order::{key_eq, lemma_key_transitive, lemma_key_trichotomy, ordered};
use crate::seq_marked::{Marked, SeqMarked};
use crate::table::{last_mark, records_of, Table};
use crate::table::errors::InsertError;
use crate::versions::{
    extended, inserted, lemma_inserted, lemma_position, position, slot_eq, slot_lt, sorted, Record,
    Slot,
};
use crate::visibility::lemma_extended;
use std::io;
use vstd::prelude::*;

verus! {

/// Of sorted records no version stands twice.
pub proof fn lemma_each_once<K: Ord, V>(s: Seq<Record<K, V>>)
    requires
        ordered::<K>(),
        sorted(s),
    ensures
        each_once(s),
{
    assert forall|i: int, j: int| 0 <= i < j < s.len() implies !is_version(
        #[trigger] s[i],
        (#[trigger] s[j]).0.0,
        s[j].0.1,
    ) by {
        assert(slot_lt(s[i].0, s[j].0));
        lemma_key_trichotomy(s[i].0.0, s[j].0.0);
    }
}

/// Writing at a slot writes that version and no other.
pub proof fn lemma_only_wrote<K: Ord, V>(s: Seq<Record<K, V>>, slot: Slot<K>, value: Option<V>)
    requires
        ordered::<K>(),
        sorted(s),
    ensures
        only_wrote(s, inserted(s, slot, value), slot.0, slot.1, value),
{
    let t = inserted(s, slot, value);
    lemma_inserted(s, slot, value);
    lemma_each_once(t);
    assert forall|r: Record<K, V>| #[trigger] is_version(r, slot.0, slot.1) == slot_eq(
        r.0,
        slot,
    ) by {}
    let w = choose|r: Record<K, V>| #[trigger]
        t.contains(r) && slot_eq(r.0, slot) && r.1 == value;
    assert(t.contains(w) && is_version(w, slot.0, slot.1));
    lemma_written_key(s, slot, value);
    assert forall|r: Record<K, V>|
        #![trigger t.contains(r)]
        #![trigger s.contains(r)]
        !is_version(r, slot.0, slot.1) implies t.contains(r) == s.contains(r) by {
        assert(!slot_eq(r.0, slot));
    }
}

/// A written record stands under the key that was there, or else under the key that was given.
proof fn lemma_written_key<K: Ord, V>(s: Seq<Record<K, V>>, slot: Slot<K>, value: Option<V>)
    requires
        ordered::<K>(),
        sorted(s),
    ensures
        forall|r: Record<K, V>| #[trigger]
            inserted(s, slot, value).contains(r) ==> r.0 == slot || exists|q: Record<K, V>|
                #[trigger] s.contains(q) && q.0 == r.0,
{
    let t = inserted(s, slot, value);
    let i = position(s, slot);
    lemma_position(s, slot);
    assert forall|r: Record<K, V>| #[trigger] t.contains(r) implies r.0 == slot || exists|
        q: Record<K, V>,
    | #[trigger] s.contains(q) && q.0 == r.0 by {
        let j = choose|j: int| 0 <= j < t.len() && t[j] == r;
        if i < s.len() && slot_eq(s[i].0, slot) {
            assert(s.contains(s[j]));
            assert(t[j].0 == s[j].0);
        } else if j < i {
            assert(t[j] == s[j]);
            assert(s.contains(s[j]));
        } else if j > i {
            assert(t[j] == s[j - 1]);
            assert(s.contains(s[j - 1]));
        }
    }
}

/// A new table holds nothing.
pub proof fn law_table_new<K: Ord, V>(r: Table<K, V>)
    requires
        call_ensures(Table::<K, V>::new, (), r) || call_ensures(
            <Table<K, V> as Default>::default,
            (),
            r,
        ),
    ensures
        r.inner@.len() == 0,
        r.last_seq.seq == 0,
        !(r.last_seq.marked is TombStone),
        ordered::<K>() ==> r.wf(),
{
}

/// A value is refused if its sequence number is smaller than the last one: then nothing changes,
/// and the error names both. Otherwise that one version is written, and its number is the last.
pub proof fn law_table_insert<K: Ord, V>(
    t: &mut Table<K, V>,
    key: K,
    seq: u64,
    value: V,
    r: Result<(), InsertError>,
)
    requires
        old(t).wf(),
        call_ensures(Table::<K, V>::insert, (t, key, seq, value), r),
    ensures
        r is Err <==> seq < old(t).last_seq.seq,
        r is Err ==> *final(t) == *old(t),
        r matches Err(e) ==> (e matches InsertError::NonIncremental { last, current } && last
            == old(t).last_seq && current.seq == seq && !(current.marked is TombStone)),
        r is Ok ==> {
            &&& only_wrote(
                old(t).inner@,
                final(t).inner@,
                key,
                SeqMarked { seq, marked: Marked::Normal(()) },
                Some(value),
            )
            &&& final(t).last_seq.seq == seq
            &&& !(final(t).last_seq.marked is TombStone)
        },
        final(t).wf(),
{
    lemma_only_wrote(
        t.inner@,
        (key, SeqMarked { seq, marked: Marked::Normal(()) }),
        Some(value),
    );
}

/// `law_table_insert`, of a deletion.
pub proof fn law_table_insert_tombstone<K: Ord, V>(
    t: &mut Table<K, V>,
    key: K,
    seq: u64,
    r: Result<(), InsertError>,
)
    requires
        old(t).wf(),
        call_ensures(Table::<K, V>::insert_tombstone, (t, key, seq), r),
    ensures
        r is Err <==> seq < old(t).last_seq.seq,
        r is Err ==> *final(t) == *old(t),
        r matches Err(e) ==> (e matches InsertError::NonIncremental { last, current } && last
            == old(t).last_seq && current.seq == seq && current.marked is TombStone),
        r is Ok ==> {
            &&& only_wrote(
                old(t).inner@,
                final(t).inner@,
                key,
                SeqMarked { seq, marked: Marked::TombStone },
                None,
            )
            &&& final(t).last_seq.seq == seq
            &&& final(t).last_seq.marked is TombStone
        },
        final(t).wf(),
{
    lemma_only_wrote(t.inner@, (key, SeqMarked { seq, marked: Marked::TombStone }), None);
}

/// A loaded record is written under its own number and kind, with its own data, and the last
/// order is the later of its own and the one before.
pub proof fn law_table_load<K: Ord, V>(t: &mut Table<K, V>, key: K, value: SeqMarked<V>)
    requires
        old(t).wf(),
        call_ensures(Table::<K, V>::load, (t, key, value), ()),
    ensures
        match value.marked {
            Marked::Normal(data) => only_wrote(
                old(t).inner@,
                final(t).inner@,
                key,
                SeqMarked { seq: value.seq, marked: Marked::Normal(()) },
                Some(data),
            ),
            Marked::TombStone => only_wrote(
                old(t).inner@,
                final(t).inner@,
                key,
                SeqMarked { seq: value.seq, marked: Marked::TombStone },
                None,
            ),
        },
        ({
            let later = value.seq > old(t).last_seq.seq || (value.seq == old(t).last_seq.seq
                && value.marked is TombStone && !(old(t).last_seq.marked is TombStone));
            if later {
                final(t).last_seq.seq == value.seq && (final(t).last_seq.marked is TombStone) == (
                value.marked is TombStone)
            } else {
                final(t).last_seq == old(t).last_seq
            }
        }),
        final(t).wf(),
{
    lemma_only_wrote(t.inner@, (key, value.mark()), value.data());
}

/// `r` is none of the versions that the changes write.
pub open spec fn untouched<K: Ord, V>(changes: Seq<Record<K, V>>, r: Record<K, V>) -> bool {
    forall|i: int|
        0 <= i < changes.len() ==> !is_version(r, (#[trigger] changes[i]).0.0, changes[i].0.1)
}

/// No change after number `i` writes the same version.
pub open spec fn is_last<K: Ord, V>(changes: Seq<Record<K, V>>, i: int) -> bool {
    forall|j: int|
        i < j < changes.len() ==> !is_version(
            #[trigger] changes[j],
            changes[i].0.0,
            changes[i].0.1,
        )
}

/// `r` is the version that change number `i` writes, with its value.
pub open spec fn is_written<K: Ord, V>(r: Record<K, V>, change: Record<K, V>) -> bool {
    is_version(r, change.0.0, change.0.1) && r.1 == change.1
}

/// `r` is written by a change that no later one replaces.
pub open spec fn comes_from<K: Ord, V>(changes: Seq<Record<K, V>>, r: Record<K, V>) -> bool {
    exists|i: int|
        0 <= i < changes.len() && is_last(changes, i) && is_written(r, #[trigger] changes[i])
}

/// What a change writes is held.
pub open spec fn is_held<K: Ord, V>(s: Seq<Record<K, V>>, change: Record<K, V>) -> bool {
    exists|r: Record<K, V>| #[trigger] s.contains(r) && is_written(r, change)
}

/// `after` holds what each change writes, the last one where several write one version; it holds
/// the versions of `before` that no change writes; it holds nothing else; and every key in it is
/// one that was there or that was given.
pub open spec fn wrote_all<K: Ord, V>(
    before: Seq<Record<K, V>>,
    after: Seq<Record<K, V>>,
    changes: Seq<Record<K, V>>,
) -> bool {
    &&& forall|i: int|
        0 <= i < changes.len() && is_last(changes, i) ==> is_held(after, #[trigger] changes[i])
    &&& forall|r: Record<K, V>| #[trigger]
        after.contains(r) ==> comes_from(changes, r) || (before.contains(r) && untouched(
            changes,
            r,
        ))
    &&& forall|r: Record<K, V>| #[trigger]
        before.contains(r) && untouched(changes, r) ==> after.contains(r)
    &&& each_once(after)
    &&& forall|r: Record<K, V>| #[trigger]
        after.contains(r) ==> has_given_key(changes, r) || has_given_key(before, r)
}

/// Some record has the very key of `r`.
pub open spec fn has_given_key<K, V>(s: Seq<Record<K, V>>, r: Record<K, V>) -> bool {
    exists|i: int| 0 <= i < s.len() && (#[trigger] s[i]).0.0 == r.0.0
}

proof fn lemma_version_chain<K: Ord, V>(a: Record<K, V>, b: Record<K, V>, c: Record<K, V>)
    requires
        ordered::<K>(),
    ensures
        is_version(a, b.0.0, b.0.1) == is_version(b, a.0.0, a.0.1),
        is_version(a, b.0.0, b.0.1) && is_version(b, c.0.0, c.0.1) ==> is_version(
            a,
            c.0.0,
            c.0.1,
        ),
        is_version(a, a.0.0, a.0.1),
{
    lemma_key_trichotomy(a.0.0, b.0.0);
    lemma_key_trichotomy(b.0.0, a.0.0);
    lemma_key_transitive(a.0.0, b.0.0, c.0.0);
}

/// Among one change more, whether a change is the last of its version.
proof fn lemma_is_last<K: Ord, V>(changes: Seq<Record<K, V>>, i: int)
    requires
        0 <= i < changes.len() - 1,
    ensures
        is_last(changes, i) == (is_last(changes.drop_last(), i) && !is_version(
            changes.last(),
            changes[i].0.0,
            changes[i].0.1,
        )),
{
    let rest = changes.drop_last();
    let n = rest.len() as int;
    assert(changes[n] == changes.last());
    if is_last(changes, i) {
        assert(!is_version(changes[n], changes[i].0.0, changes[i].0.1));
        assert forall|j: int| i < j < rest.len() implies !is_version(
            #[trigger] rest[j],
            rest[i].0.0,
            rest[i].0.1,
        ) by {
            assert(!is_version(changes[j], changes[i].0.0, changes[i].0.1));
        }
    }
    if is_last(rest, i) && !is_version(changes.last(), changes[i].0.0, changes[i].0.1) {
        assert forall|j: int| i < j < changes.len() implies !is_version(
            #[trigger] changes[j],
            changes[i].0.0,
            changes[i].0.1,
        ) by {
            if j < n {
                assert(!is_version(rest[j], rest[i].0.0, rest[i].0.1));
            }
        }
    }
}

/// Among one change more, whether a version is untouched.
proof fn lemma_untouched<K: Ord, V>(changes: Seq<Record<K, V>>, r: Record<K, V>)
    requires
        changes.len() > 0,
    ensures
        untouched(changes, r) == (untouched(changes.drop_last(), r) && !is_version(
            r,
            changes.last().0.0,
            changes.last().0.1,
        )),
{
    let rest = changes.drop_last();
    let n = rest.len() as int;
    assert(changes[n] == changes.last());
    if untouched(changes, r) {
        assert(!is_version(r, changes[n].0.0, changes[n].0.1));
        assert forall|i: int| 0 <= i < rest.len() implies !is_version(
            r,
            (#[trigger] rest[i]).0.0,
            rest[i].0.1,
        ) by {
            assert(!is_version(r, changes[i].0.0, changes[i].0.1));
        }
    }
    if untouched(rest, r) && !is_version(r, changes.last().0.0, changes.last().0.1) {
        assert forall|i: int| 0 <= i < changes.len() implies !is_version(
            r,
            (#[trigger] changes[i]).0.0,
            changes[i].0.1,
        ) by {
            if i < n {
                assert(!is_version(r, rest[i].0.0, rest[i].0.1));
            }
        }
    }
}

/// One change more is held, and keeps the others held that it does not replace.
proof fn lemma_held<K: Ord, V>(
    mid: Seq<Record<K, V>>,
    after: Seq<Record<K, V>>,
    changes: Seq<Record<K, V>>,
    i: int,
)
    requires
        ordered::<K>(),
        0 <= i < changes.len(),
        is_last(changes, i),
        i < changes.len() - 1 && is_last(changes.drop_last(), i) ==> is_held(mid, changes[i]),
        only_wrote(mid, after, changes.last().0.0, changes.last().0.1, changes.last().1),
    ensures
        is_held(after, changes[i]),
{
    let last = changes.last();
    if i == changes.len() - 1 {
        let w = choose|r: Record<K, V>| #[trigger]
            after.contains(r) && is_version(r, last.0.0, last.0.1);
        assert(is_written(w, changes[i]));
    } else {
        lemma_is_last(changes, i);
        let w = choose|r: Record<K, V>| #[trigger]
            mid.contains(r) && is_written(r, changes[i]);
        lemma_version_chain(last, w, changes[i]);
        lemma_version_chain(w, last, changes[i]);
        assert(!is_version(w, last.0.0, last.0.1));
        assert(after.contains(w));
    }
}

/// What is held after one change more comes from it, or is what was held before.
proof fn lemma_comes_from<K: Ord, V>(
    s: Seq<Record<K, V>>,
    mid: Seq<Record<K, V>>,
    after: Seq<Record<K, V>>,
    changes: Seq<Record<K, V>>,
    r: Record<K, V>,
)
    requires
        ordered::<K>(),
        changes.len() > 0,
        after.contains(r),
        mid.contains(r) ==> comes_from(changes.drop_last(), r) || (s.contains(r) && untouched(
            changes.drop_last(),
            r,
        )),
        only_wrote(mid, after, changes.last().0.0, changes.last().0.1, changes.last().1),
    ensures
        comes_from(changes, r) || (s.contains(r) && untouched(changes, r)),
{
    let rest = changes.drop_last();
    let last = changes.last();
    let n = rest.len() as int;
    lemma_untouched(changes, r);
    if is_version(r, last.0.0, last.0.1) {
        assert(changes[n] == last);
        assert(is_last(changes, n));
        assert(is_written(r, changes[n]));
    } else if comes_from(rest, r) {
        let i = choose|i: int|
            0 <= i < rest.len() && is_last(rest, i) && is_written(r, #[trigger] rest[i]);
        assert(rest[i] == changes[i]);
        lemma_version_chain(r, changes[i], last);
        lemma_version_chain(changes[i], last, r);
        lemma_version_chain(last, changes[i], r);
        lemma_is_last(changes, i);
        assert(is_written(r, changes[i]));
    }
}

/// Writing changes one after the other writes all of them.
pub proof fn lemma_wrote_all<K: Ord, V>(s: Seq<Record<K, V>>, changes: Seq<Record<K, V>>)
    requires
        ordered::<K>(),
        sorted(s),
    ensures
        wrote_all(s, extended(s, changes), changes),
    decreases changes.len(),
{
    let after = extended(s, changes);
    lemma_extended(s, changes, 0);
    lemma_each_once(after);
    if changes.len() > 0 {
        let rest = changes.drop_last();
        let last = changes.last();
        let mid = extended(s, rest);
        lemma_wrote_all(s, rest);
        lemma_extended(s, rest, 0);
        lemma_only_wrote(mid, last.0, last.1);
        assert forall|i: int| 0 <= i < changes.len() && is_last(changes, i) implies is_held(
            after,
            #[trigger] changes[i],
        ) by {
            if i < rest.len() {
                assert(rest[i] == changes[i]);
            }
            lemma_held(mid, after, changes, i);
        }
        assert forall|r: Record<K, V>| #[trigger] after.contains(r) implies comes_from(changes, r)
            || (s.contains(r) && untouched(changes, r)) by {
            lemma_comes_from(s, mid, after, changes, r);
        }
        assert forall|r: Record<K, V>| #[trigger]
            s.contains(r) && untouched(changes, r) implies after.contains(r) by {
            lemma_untouched(changes, r);
            assert(mid.contains(r));
        }
        assert forall|r: Record<K, V>| #[trigger] after.contains(r) implies has_given_key(
            changes,
            r,
        ) || has_given_key(s, r) by {
            lemma_given_key(s, mid, after, changes, r);
        }
    } else {
        assert forall|r: Record<K, V>| #[trigger] after.contains(r) implies has_given_key(s, r) by {
            let i = choose|i: int| 0 <= i < s.len() && s[i] == r;
            assert(s[i].0.0 == r.0.0);
        }
    }
}

proof fn lemma_given_key<K: Ord, V>(
    s: Seq<Record<K, V>>,
    mid: Seq<Record<K, V>>,
    after: Seq<Record<K, V>>,
    changes: Seq<Record<K, V>>,
    r: Record<K, V>,
)
    requires
        changes.len() > 0,
        after.contains(r),
        only_wrote(mid, after, changes.last().0.0, changes.last().0.1, changes.last().1),
        forall|q: Record<K, V>| #[trigger]
            mid.contains(q) ==> has_given_key(changes.drop_last(), q) || has_given_key(s, q),
    ensures
        has_given_key(changes, r) || has_given_key(s, r),
{
    let rest = changes.drop_last();
    let last = changes.last();
    if is_version(r, last.0.0, last.0.1) && r.0.0 == last.0.0 {
        assert(changes[changes.len() - 1].0.0 == r.0.0);
    } else {
        let q = if is_version(r, last.0.0, last.0.1) {
            choose|q: Record<K, V>| #[trigger] mid.contains(q) && q.0 == r.0
        } else {
            r
        };
        assert(mid.contains(q));
        if has_given_key(rest, q) {
            let i = choose|i: int| 0 <= i < rest.len() && (#[trigger] rest[i]).0.0 == q.0.0;
            assert(changes[i].0.0 == r.0.0);
        } else {
            let i = choose|i: int| 0 <= i < s.len() && (#[trigger] s[i]).0.0 == q.0.0;
            assert(s[i].0.0 == r.0.0);
        }
    }
}

/// Applying changes to a table writes all of them, in their order, and nothing else.
pub proof fn law_table_apply_changes<K: Ord, V>(
    t: &mut Table<K, V>,
    last_seq: SeqMarked<()>,
    changes: Vec<Record<K, V>>,
)
    requires
        old(t).wf(),
        call_ensures(Table::<K, V>::apply_changes, (t, last_seq, changes), ()),
    ensures
        wrote_all(old(t).inner@, final(t).inner@, changes@),
        final(t).last_seq == last_seq,
        final(t).wf(),
{
    lemma_wrote_all(t.inner@, changes@);
}

/// Applying a table to another writes all of its records there, and nothing else.
pub proof fn law_table_apply<K: Ord, V>(t: &mut Table<K, V>, other: Table<K, V>)
    requires
        old(t).wf(),
        call_ensures(Table::<K, V>::apply, (t, other), ()),
    ensures
        wrote_all(old(t).inner@, final(t).inner@, other.inner@),
        final(t).last_seq == other.last_seq,
        final(t).wf(),
{
    lemma_wrote_all(t.inner@, other.inner@);
}

/// Two items are of one key, with one sequence number, and both deletions or neither.
pub open spec fn same_version<K: Ord, V>(a: (K, SeqMarked<V>), b: (K, SeqMarked<V>)) -> bool {
    &&& key_eq(a.0, b.0)
    &&& a.1.seq == b.1.seq
    &&& (a.1.marked is TombStone) == (b.1.marked is TombStone)
}

/// `r` has the key, the sequence number, the kind and the data of the item.
pub open spec fn is_item<K: Ord, V>(r: Record<K, V>, item: (K, SeqMarked<V>)) -> bool {
    &&& key_eq(r.0.0, item.0)
    &&& r.0.1.seq == item.1.seq
    &&& match item.1.marked {
        Marked::Normal(data) => !(r.0.1.marked is TombStone) && r.1 == Some(data),
        Marked::TombStone => r.0.1.marked is TombStone && r.1 is None,
    }
}

/// No item of the stream after number `i` is the same version.
pub open spec fn not_replaced<K: Ord, V>(
    stream: Seq<Result<(K, SeqMarked<V>), io::Error>>,
    i: int,
) -> bool {
    forall|j: int|
        i < j < stream.len() ==> !same_version((#[trigger] stream[j])->Ok_0, stream[i]->Ok_0)
}

/// The record of an item is held.
pub open spec fn holds_item<K: Ord, V>(s: Seq<Record<K, V>>, item: (K, SeqMarked<V>)) -> bool {
    exists|r: Record<K, V>| #[trigger] s.contains(r) && is_item(r, item)
}

proof fn lemma_not_replaced<K: Ord, V>(
    stream: Seq<Result<(K, SeqMarked<V>), io::Error>>,
    changes: Seq<Record<K, V>>,
    i: int,
)
    requires
        0 <= i < stream.len() == changes.len(),
        forall|i: int|
            0 <= i < stream.len() ==> #[trigger] changes[i] == ((
                stream[i]->Ok_0.0,
                stream[i]->Ok_0.1.mark(),
            ), stream[i]->Ok_0.1.data()),
    ensures
        is_last(changes, i) == not_replaced(stream, i),
{
    assert forall|j: int| i < j < stream.len() implies is_version(
        #[trigger] changes[j],
        changes[i].0.0,
        changes[i].0.1,
    ) == same_version(stream[j]->Ok_0, stream[i]->Ok_0) by {}
    if is_last(changes, i) {
        assert forall|j: int| i < j < stream.len() implies !same_version(
            (#[trigger] stream[j])->Ok_0,
            stream[i]->Ok_0,
        ) by {
            assert(!is_version(changes[j], changes[i].0.0, changes[i].0.1));
        }
    }
    if not_replaced(stream, i) {
        assert forall|j: int| i < j < changes.len() implies !is_version(
            #[trigger] changes[j],
            changes[i].0.0,
            changes[i].0.1,
        ) by {
            assert(!same_version(stream[j]->Ok_0, stream[i]->Ok_0));
        }
    }
}

/// Loading a stream fails with its first failure. Otherwise the table holds each item, deletions
/// too, under its own key, number and kind and with its own data, the last one where several are
/// one version; it holds nothing else, and no key that is not an item's.
#[verifier::rlimit(30)]
pub proof fn law_table_from_stream<K: Ord, V>(
    stream: IOResultStream<(K, SeqMarked<V>)>,
    r: Result<Table<K, V>, io::Error>,
)
    requires
        ordered::<K>(),
        call_ensures(Table::<K, V>::from_stream, (stream,), r),
    ensures
        r is Ok <==> forall|i: int| 0 <= i < stream@.len() ==> (#[trigger] stream@[i]) is Ok,
        r matches Err(e) ==> exists|i: int|
            {
                &&& 0 <= i < stream@.len()
                &&& #[trigger] stream@[i] == Err::<(K, SeqMarked<V>), io::Error>(e)
                &&& forall|j: int| 0 <= j < i ==> (#[trigger] stream@[j]) is Ok
            },
        r matches Ok(t) ==> {
            &&& t.wf()
            &&& forall|i: int|
                0 <= i < stream@.len() && not_replaced(stream@, i) ==> holds_item(
                    t.inner@,
                    (#[trigger] stream@[i])->Ok_0,
                )
            &&& forall|q: Record<K, V>| #[trigger]
                t.inner@.contains(q) ==> exists|i: int|
                    0 <= i < stream@.len() && not_replaced(stream@, i) && is_item(
                        q,
                        (#[trigger] stream@[i])->Ok_0,
                    )
            &&& each_once(t.inner@)
            &&& forall|q: Record<K, V>| #[trigger]
                t.inner@.contains(q) ==> exists|i: int|
                    0 <= i < stream@.len() && (#[trigger] stream@[i])->Ok_0.0 == q.0.0
        },
{
    if let Err(e) = r {
        let n = choose|i: int|
            0 <= i < stream@.len() && #[trigger] stream@[i] == Err::<
                (K, SeqMarked<V>),
                io::Error,
            >(e) && all_ok(stream@.take(i));
        assert forall|j: int| 0 <= j < n implies (#[trigger] stream@[j]) is Ok by {
            assert(stream@.take(n)[j] is Ok);
        }
        assert(!(stream@[n] is Ok));
    } else {
        let t = r->Ok_0;
        let items = oks(stream@);
        let changes = records_of(items);
        lemma_wrote_all(Seq::<Record<K, V>>::empty(), changes);
        assert forall|i: int| 0 <= i < stream@.len() implies #[trigger] changes[i] == ((
            stream@[i]->Ok_0.0,
            stream@[i]->Ok_0.1.mark(),
        ), stream@[i]->Ok_0.1.data()) by {
            assert(items[i] == stream@[i]->Ok_0);
        }
        assert forall|i: int| 0 <= i < stream@.len() implies is_last(changes, i)
            == #[trigger] not_replaced(stream@, i) by {
            lemma_not_replaced(stream@, changes, i);
        }
        assert forall|i: int| 0 <= i < stream@.len() && not_replaced(stream@, i) implies holds_item(
            t.inner@,
            (#[trigger] stream@[i])->Ok_0,
        ) by {
            assert(is_held(t.inner@, changes[i]));
            let w = choose|w: Record<K, V>| #[trigger]
                t.inner@.contains(w) && is_written(w, changes[i]);
            assert(is_item(w, stream@[i]->Ok_0));
        }
        assert forall|q: Record<K, V>| #[trigger] t.inner@.contains(q) implies exists|i: int|
            0 <= i < stream@.len() && not_replaced(stream@, i) && is_item(
                q,
                (#[trigger] stream@[i])->Ok_0,
            ) by {
            assert(comes_from(changes, q));
            let i = choose|i: int|
                0 <= i < changes.len() && is_last(changes, i) && is_written(
                    q,
                    #[trigger] changes[i],
                );
            assert(not_replaced(stream@, i));
            assert(is_item(q, stream@[i]->Ok_0));
        }
        assert forall|q: Record<K, V>| #[trigger] t.inner@.contains(q) implies exists|i: int|
            0 <= i < stream@.len() && (#[trigger] stream@[i])->Ok_0.0 == q.0.0 by {
            assert(has_given_key(changes, q));
            let i = choose|i: int| 0 <= i < changes.len() && (#[trigger] changes[i]).0.0 == q.0.0;
            assert(stream@[i]->Ok_0.0 == q.0.0);
        }
    }
}

/// The last order of a table that was loaded from a stream is that of one of the items, or the
/// first of all orders, and none of the items comes after it.
pub proof fn law_table_from_stream_order<K: Ord, V>(
    stream: IOResultStream<(K, SeqMarked<V>)>,
    t: Table<K, V>,
)
    requires
        ordered::<K>(),
        call_ensures(Table::<K, V>::from_stream, (stream,), Ok(t)),
    ensures
        forall|i: int|
            0 <= i < stream@.len() ==> ((#[trigger] stream@[i])->Ok_0.1.seq < t.last_seq.seq || (
            stream@[i]->Ok_0.1.seq == t.last_seq.seq && (stream@[i]->Ok_0.1.marked is TombStone
                ==> t.last_seq.marked is TombStone))),
        (t.last_seq.seq == 0 && !(t.last_seq.marked is TombStone)) || exists|i: int|
            {
                &&& 0 <= i < stream@.len()
                &&& (#[trigger] stream@[i])->Ok_0.1.seq == t.last_seq.seq
                &&& (stream@[i]->Ok_0.1.marked is TombStone) == (t.last_seq.marked is TombStone)
            },
{
    let items = oks(stream@);
    lemma_last_mark(items);
    assert(forall|i: int| 0 <= i < stream@.len() ==> items[i] == (#[trigger] stream@[i])->Ok_0);
    assert forall|i: int| 0 <= i < stream@.len() implies ((#[trigger] stream@[i])->Ok_0.1.seq
        < t.last_seq.seq || (stream@[i]->Ok_0.1.seq == t.last_seq.seq && (
    stream@[i]->Ok_0.1.marked is TombStone ==> t.last_seq.marked is TombStone))) by {
        assert(items[i].1.rank() <= t.last_seq.rank());
    }
    if !(t.last_seq.seq == 0 && !(t.last_seq.marked is TombStone)) {
        let i = choose|i: int|
            0 <= i < items.len() && (#[trigger] items[i]).1.mark() == t.last_seq;
        assert(stream@[i]->Ok_0.1.seq == t.last_seq.seq);
    }
}

/// The last order among items is that of one of them, or the first of all orders, and none of
/// the items comes after it.
proof fn lemma_last_mark<K, V>(items: Seq<(K, SeqMarked<V>)>)
    ensures
        forall|i: int|
            0 <= i < items.len() ==> (#[trigger] items[i]).1.rank() <= last_mark(items).rank(),
        (last_mark(items).seq == 0 && !(last_mark(items).marked is TombStone)) || exists|i: int|
            0 <= i < items.len() && (#[trigger] items[i]).1.mark() == last_mark(items),
    decreases items.len(),
{
    if items.len() > 0 {
        let rest = items.drop_last();
        lemma_last_mark(rest);
        assert(items[items.len() - 1] == items.last());
        assert forall|i: int| 0 <= i < items.len() implies (#[trigger] items[i]).1.rank()
            <= last_mark(items).rank() by {
            if i < rest.len() {
                assert(rest[i] == items[i]);
            }
        }
        if !(items.last().1.rank() > last_mark(rest).rank()) && !(last_mark(rest).seq == 0 && !(
        last_mark(rest).marked is TombStone)) {
            let i = choose|i: int|
                0 <= i < rest.len() && (#[trigger] rest[i]).1.mark() == last_mark(rest);
            assert(items[i].1.mark() == last_mark(items));
        }
    }
}

} // verus!
