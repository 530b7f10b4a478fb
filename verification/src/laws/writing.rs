//! What a write changes for readers, and what it leaves as it was.

use crate::order::{key_eq, lemma_key_transitive, lemma_key_trichotomy, ordered};
use crate::seq_marked::{normal_mark, tombstone_mark, Marked, SeqMarked};
use crate::table::Table;
use crate::versions::{
    holds, inserted, lemma_inserted, lemma_position, lemma_slot_transitive, lemma_slot_trichotomy,
    occupied, position, slot_eq, sorted, Record, Slot,
};
use crate::visibility::{
    content, in_view, is_shown, lemma_shown_unique, newest, read, scan, shown, KeyRange,
};
use vstd::prelude::*;

verus! {

/// No record of `key` that a reader at `upto` sees is newer than `mark`.
pub open spec fn none_newer<K: Ord, V>(
    s: Seq<Record<K, V>>,
    key: K,
    upto: u64,
    mark: SeqMarked<()>,
) -> bool {
    forall|r: Record<K, V>| #[trigger]
        s.contains(r) && key_eq(r.0.0, key) && r.0.1.seq <= upto ==> r.0.1.rank() <= mark.rank()
}

/// A reader that is not too old sees what was written last under a key.
pub proof fn law_write_is_read<K: Ord, V>(
    s: Seq<Record<K, V>>,
    slot: Slot<K>,
    value: Option<V>,
    key: K,
    upto: u64,
)
    requires
        ordered::<K>(),
        sorted(s),
        key_eq(slot.0, key),
        slot.1.seq <= upto,
        none_newer(s, key, upto, slot.1),
    ensures
        is_shown(inserted(s, slot, value), key, upto),
        read(inserted(s, slot, value), key, upto) == content((slot, value)),
{
    let t = inserted(s, slot, value);
    lemma_inserted(s, slot, value);
    let w = choose|r: Record<K, V>| #[trigger]
        t.contains(r) && slot_eq(r.0, slot) && r.1 == value;
    lemma_key_transitive(w.0.0, slot.0, key);
    assert forall|q: Record<K, V>| #[trigger]
        t.contains(q) && key_eq(q.0.0, w.0.0) && q.0.1.seq <= upto implies q.0.1.rank()
        <= w.0.1.rank() by {
        lemma_key_transitive(q.0.0, w.0.0, key);
        if !slot_eq(q.0, slot) {
            assert(s.contains(q));
        }
    }
    assert(shown(t, key, upto, w));
    lemma_shown_unique(t, key, upto, w, w);
    assert(content(w) == content((slot, value)));
}

/// A reader before a write does not see it: it reads of every key what it read before.
pub proof fn law_write_is_not_read_before<K: Ord, V>(
    s: Seq<Record<K, V>>,
    slot: Slot<K>,
    value: Option<V>,
    key: K,
    upto: u64,
)
    requires
        ordered::<K>(),
        sorted(s),
        upto < slot.1.seq,
    ensures
        is_shown(inserted(s, slot, value), key, upto) == is_shown(s, key, upto),
        read(inserted(s, slot, value), key, upto) == read(s, key, upto),
{
    lemma_unseen_write(s, slot, value, key, upto);
}

/// A write leaves what readers see of other keys as it was.
pub proof fn law_write_keeps_other_keys<K: Ord, V>(
    s: Seq<Record<K, V>>,
    slot: Slot<K>,
    value: Option<V>,
    key: K,
    upto: u64,
)
    requires
        ordered::<K>(),
        sorted(s),
        !key_eq(slot.0, key),
    ensures
        is_shown(inserted(s, slot, value), key, upto) == is_shown(s, key, upto),
        read(inserted(s, slot, value), key, upto) == read(s, key, upto),
{
    lemma_unseen_write(s, slot, value, key, upto);
}

/// What was written at another slot stays there: no version is lost.
pub proof fn law_versions_remain<K: Ord, V>(
    s: Seq<Record<K, V>>,
    slot: Slot<K>,
    value: Option<V>,
    other: Slot<K>,
    before: Option<V>,
)
    requires
        ordered::<K>(),
        sorted(s),
        !slot_eq(other, slot),
        holds(s, other, before),
    ensures
        holds(inserted(s, slot, value), other, before),
{
    lemma_inserted(s, slot, value);
    let r = choose|r: Record<K, V>| #[trigger]
        s.contains(r) && slot_eq(r.0, other) && r.1 == before;
    lemma_slot_trichotomy(r.0, other);
    lemma_slot_transitive(other, r.0, slot);
    assert(inserted(s, slot, value).contains(r));
}

/// A write that a reader of a key does not see, because it is of another key or too new,
/// changes nothing for the reader.
proof fn lemma_unseen_write<K: Ord, V>(
    s: Seq<Record<K, V>>,
    slot: Slot<K>,
    value: Option<V>,
    key: K,
    upto: u64,
)
    requires
        ordered::<K>(),
        sorted(s),
        !key_eq(slot.0, key) || upto < slot.1.seq,
    ensures
        is_shown(inserted(s, slot, value), key, upto) == is_shown(s, key, upto),
        read(inserted(s, slot, value), key, upto) == read(s, key, upto),
{
    let t = inserted(s, slot, value);
    lemma_inserted(s, slot, value);
    assert forall|r: Record<K, V>| key_eq(r.0.0, key) && r.0.1.seq <= upto implies s.contains(r)
        == #[trigger] t.contains(r) by {
        lemma_key_trichotomy(r.0.0, slot.0);
        lemma_key_transitive(slot.0, r.0.0, key);
        assert(!slot_eq(r.0, slot));
    }
    assert forall|r: Record<K, V>| shown(s, key, upto, r) == #[trigger] shown(t, key, upto, r) by {
        if shown(s, key, upto, r) {
            lemma_same_versions(s, t, key, upto, r);
        }
        if shown(t, key, upto, r) {
            lemma_same_versions(t, s, key, upto, r);
        }
    }
    if is_shown(s, key, upto) {
        let r = choose|r: Record<K, V>| shown(s, key, upto, r);
        assert(shown(t, key, upto, r));
        lemma_shown_unique(s, key, upto, r, r);
        lemma_shown_unique(t, key, upto, r, r);
    }
    if is_shown(t, key, upto) {
        let r = choose|r: Record<K, V>| shown(t, key, upto, r);
        assert(shown(s, key, upto, r));
    }
}

/// Where two sets of versions agree on those of a key that a reader sees, a version that is
/// shown in the one is shown in the other.
proof fn lemma_same_versions<K: Ord, V>(
    s: Seq<Record<K, V>>,
    t: Seq<Record<K, V>>,
    key: K,
    upto: u64,
    r: Record<K, V>,
)
    requires
        ordered::<K>(),
        forall|q: Record<K, V>|
            key_eq(q.0.0, key) && q.0.1.seq <= upto ==> s.contains(q) == #[trigger] t.contains(q),
        shown(s, key, upto, r),
    ensures
        shown(t, key, upto, r),
{
    assert(t.contains(r));
    assert forall|q: Record<K, V>| #[trigger]
        t.contains(q) && key_eq(q.0.0, r.0.0) && q.0.1.seq <= upto implies q.0.1.rank()
        <= r.0.1.rank() by {
        lemma_key_transitive(q.0.0, r.0.0, key);
        assert(s.contains(q));
    }
}

/// A reader before a write reads of every range what it read before.
pub proof fn law_write_is_not_in_range_before<K: Ord, V>(
    s: Seq<Record<K, V>>,
    slot: Slot<K>,
    value: Option<V>,
    range: KeyRange<K>,
    upto: u64,
)
    requires
        ordered::<K>(),
        sorted(s),
        upto < slot.1.seq,
    ensures
        scan(inserted(s, slot, value), range, upto) == scan(s, range, upto),
{
    let t = inserted(s, slot, value);
    let p = in_view(s, range, upto);
    let q = in_view(t, range, upto);
    let i = position(s, slot);
    lemma_position(s, slot);
    lemma_inserted(s, slot, value);
    assert forall|r: Record<K, V>| #[trigger] p(r) == q(r) by {
        assert forall|o: Record<K, V>| o.0.1.seq <= upto implies s.contains(o)
            == #[trigger] t.contains(o) by {
            assert(!slot_eq(o.0, slot));
        }
        assert(newest(s, upto, r) == newest(t, upto, r));
    }
    assert(p =~= q);
    let a = s.take(i);
    let y = t[i];
    if i < s.len() && slot_eq(s[i].0, slot) {
        let x = s[i];
        let b = s.skip(i + 1);
        assert(s =~= a + seq![x] + b);
        assert(t =~= a + seq![y] + b);
        lemma_filter_middle(a, x, b, p);
        lemma_filter_middle(a, y, b, p);
    } else {
        let b = s.skip(i);
        assert(s =~= a + b);
        assert(t =~= a + seq![y] + b);
        Seq::filter_distributes_over_add(a, b, p);
        lemma_filter_middle(a, y, b, p);
    }
}

/// An element that does not pass does not count for a filter.
proof fn lemma_filter_middle<A>(a: Seq<A>, x: A, b: Seq<A>, p: spec_fn(A) -> bool)
    requires
        !p(x),
    ensures
        (a + seq![x] + b).filter(p) == a.filter(p) + b.filter(p),
{
    Seq::filter_distributes_over_add(a + seq![x], b, p);
    Seq::filter_distributes_over_add(a, seq![x], p);
    assert(seq![x].filter(p) =~= Seq::<A>::empty()) by {
        reveal(Seq::filter);
        assert(seq![x].drop_last() =~= Seq::<A>::empty());
        assert(seq![x].drop_last().filter(p).len() == 0);
    }
    assert(a.filter(p) + seq![x].filter(p) =~= a.filter(p));
}

/// What was inserted last into a table is what readers see that are not too old, unless the
/// key was deleted under the same sequence number: then they see the deletion.
pub proof fn law_insert_is_read<K: Ord, V>(
    before: Table<K, V>,
    after: Table<K, V>,
    key: K,
    seq: u64,
    value: V,
    upto: u64,
)
    requires
        before.sound(),
        before.last_seq.seq <= seq <= upto,
        after.inner@ == inserted(before.inner@, (key, normal_mark(seq)), Some(value)),
        !occupied(before.inner@, (key, tombstone_mark(seq))),
    ensures
        read(after.inner@, key, upto) == (SeqMarked { seq, marked: Marked::Normal(value) }),
{
    lemma_key_trichotomy(key, key);
    assert(none_newer(before.inner@, key, upto, normal_mark(seq)));
    law_write_is_read(before.inner@, (key, normal_mark(seq)), Some(value), key, upto);
}

/// A key that was deleted from a table is seen as deleted by readers that are not too old.
pub proof fn law_delete_is_read<K: Ord, V>(
    before: Table<K, V>,
    after: Table<K, V>,
    key: K,
    seq: u64,
    upto: u64,
)
    requires
        before.sound(),
        before.last_seq.seq <= seq <= upto,
        after.inner@ == inserted(before.inner@, (key, tombstone_mark(seq)), None),
    ensures
        read(after.inner@, key, upto) == (SeqMarked { seq, marked: Marked::<V>::TombStone }),
{
    lemma_key_trichotomy(key, key);
    assert(none_newer(before.inner@, key, upto, tombstone_mark(seq)));
    law_write_is_read(before.inner@, (key, tombstone_mark(seq)), None, key, upto);
}

} // verus!
