//! What the calls of a table do, said of the versions themselves.
//!
//! Each law speaks of what a call hands back and leaves behind, in terms of the records that the
//! table holds, of their keys, sequence numbers and values, and of the order of keys.

use crate::laws::reading::{lemma_filter_sorted, lemma_scan_ascends, lemma_within_same};
use crate::order::{key_eq, key_lt, lemma_key_transitive, lemma_key_trichotomy, ordered};
use crate::seq_marked::{Marked, SeqMarked};
use crate::table::{unref_items, Table};
use crate::versions::{lemma_slot_unique, sorted, Record};
use crate::visibility::{
    has_value, in_view, is_shown, lemma_is_shown, newest, read, scan, shown, KeyRange,
};
use std::ops::Bound;
use vstd::prelude::*;

verus! {

/// `r` is the version of `key` that was written with the sequence number and the kind of `mark`.
pub open spec fn is_version<K: Ord, V>(r: Record<K, V>, key: K, mark: SeqMarked<()>) -> bool {
    &&& key_eq(r.0.0, key)
    &&& r.0.1.seq == mark.seq
    &&& (r.0.1.marked is TombStone) == (mark.marked is TombStone)
}

/// `after` holds `value` as the one version of `key` at `mark`, and of all other versions those
/// that `before` holds. A new version stands under the very key that was given; one that was there
/// stays under the key that it had.
pub open spec fn only_wrote<K: Ord, V>(
    before: Seq<Record<K, V>>,
    after: Seq<Record<K, V>>,
    key: K,
    mark: SeqMarked<()>,
    value: Option<V>,
) -> bool {
    &&& exists|r: Record<K, V>| #[trigger] after.contains(r) && is_version(r, key, mark)
    &&& forall|r: Record<K, V>| #[trigger]
        after.contains(r) && is_version(r, key, mark) ==> r.1 == value
    &&& forall|r: Record<K, V>|
        #![trigger after.contains(r)]
        #![trigger before.contains(r)]
        !is_version(r, key, mark) ==> after.contains(r) == before.contains(r)
    &&& each_once(after)
    &&& forall|r: Record<K, V>| #[trigger]
        after.contains(r) && is_version(r, key, mark) ==> r.0.0 == key || exists|q: Record<K, V>|
            #[trigger] before.contains(q) && q.0 == r.0
    &&& (forall|q: Record<K, V>| #[trigger] before.contains(q) ==> !is_version(q, key, mark)) ==> (
    forall|r: Record<K, V>| #[trigger]
        after.contains(r) && is_version(r, key, mark) ==> r.0.0 == key)
}

/// No version stands twice among the records.
pub open spec fn each_once<K: Ord, V>(s: Seq<Record<K, V>>) -> bool {
    forall|i: int, j: int|
        0 <= i < j < s.len() ==> !is_version(#[trigger] s[i], (#[trigger] s[j]).0.0, s[j].0.1)
}

/// `a` is a version that was written before `b`, or with it and is no deletion unless `b` is.
pub open spec fn not_after<K, V>(a: Record<K, V>, b: Record<K, V>) -> bool {
    a.0.1.seq < b.0.1.seq || (a.0.1.seq == b.0.1.seq && (a.0.1.marked is TombStone
        ==> b.0.1.marked is TombStone))
}

/// `r` is the last version of `key` that is not newer than `upto`.
pub open spec fn sees<K: Ord, V>(s: Seq<Record<K, V>>, key: K, upto: u64, r: Record<K, V>) -> bool {
    &&& s.contains(r)
    &&& key_eq(r.0.0, key)
    &&& r.0.1.seq <= upto
    &&& forall|q: Record<K, V>| #[trigger]
        s.contains(q) && key_eq(q.0.0, key) && q.0.1.seq <= upto ==> not_after(q, r)
}

/// There is no version of `key` that is not newer than `upto`.
pub open spec fn sees_nothing<K: Ord, V>(s: Seq<Record<K, V>>, key: K, upto: u64) -> bool {
    forall|q: Record<K, V>| #[trigger] s.contains(q) ==> !key_eq(q.0.0, key) || q.0.1.seq > upto
}

/// `value` has the sequence number and the value of `r`, or is a deletion as `r` is. Versions that
/// are no deletions have values.
pub open spec fn tells<K, V>(r: Record<K, V>, value: SeqMarked<V>) -> bool {
    &&& value.seq == r.0.1.seq
    &&& match value.marked {
        Marked::Normal(data) => !(r.0.1.marked is TombStone) && (r.1 matches Some(own) ==> own
            == data),
        Marked::TombStone => r.0.1.marked is TombStone,
    }
}

/// `tells`, of a reference to the value.
pub open spec fn tells_ref<K, V>(r: Record<K, V>, value: SeqMarked<&V>) -> bool {
    &&& value.seq == r.0.1.seq
    &&& match value.marked {
        Marked::Normal(data) => !(r.0.1.marked is TombStone) && (r.1 matches Some(own) ==> own
            == *data),
        Marked::TombStone => r.0.1.marked is TombStone,
    }
}

/// `value` is that of an absent record.
pub open spec fn absent<D>(value: SeqMarked<D>) -> bool {
    value.seq == 0 && value.marked is TombStone
}

/// `value` is what a reader at `upto` is to be told of `key`: the last version that is not newer,
/// or that there is none.
pub open spec fn told<K: Ord, V>(
    s: Seq<Record<K, V>>,
    key: K,
    upto: u64,
    value: SeqMarked<V>,
) -> bool {
    ||| exists|r: Record<K, V>| #[trigger] sees(s, key, upto, r) && tells(r, value)
    ||| sees_nothing(s, key, upto) && absent(value)
}

/// `told`, of a reference to the value.
pub open spec fn told_ref<K: Ord, V>(
    s: Seq<Record<K, V>>,
    key: K,
    upto: u64,
    value: SeqMarked<&V>,
) -> bool {
    ||| exists|r: Record<K, V>| #[trigger] sees(s, key, upto, r) && tells_ref(r, value)
    ||| sees_nothing(s, key, upto) && absent(value)
}

/// Every version that is no deletion has a value.
pub open spec fn all_have_values<K, V>(s: Seq<Record<K, V>>) -> bool {
    forall|r: Record<K, V>| #[trigger]
        s.contains(r) ==> r.0.1.marked is TombStone || r.1 is Some
}

/// What is shown of a key is the last version of it that is not too new.
pub proof fn lemma_shown_is_seen<K: Ord, V>(
    s: Seq<Record<K, V>>,
    key: K,
    upto: u64,
    r: Record<K, V>,
)
    requires
        ordered::<K>(),
        shown(s, key, upto, r),
    ensures
        sees(s, key, upto, r),
{
    lemma_key_trichotomy(r.0.0, key);
    assert forall|q: Record<K, V>| #[trigger]
        s.contains(q) && key_eq(q.0.0, key) && q.0.1.seq <= upto implies not_after(q, r) by {
        lemma_key_transitive(q.0.0, key, r.0.0);
        assert(q.0.1.rank() <= r.0.1.rank());
    }
}

/// What is read is what a reader is to be told.
pub proof fn lemma_read_is_told<K: Ord, V>(s: Seq<Record<K, V>>, key: K, upto: u64)
    requires
        ordered::<K>(),
        sorted(s),
    ensures
        told(s, key, upto, read(s, key, upto)),
{
    lemma_is_shown(s, key, upto);
    if is_shown(s, key, upto) {
        let r = choose|r: Record<K, V>| shown(s, key, upto, r);
        lemma_shown_is_seen(s, key, upto, r);
        assert(s.contains(r));
        assert(tells(r, read(s, key, upto)));
    }
}

/// What a reader is told is settled: no two answers are right.
pub proof fn law_told_is_unique<K: Ord, V>(
    s: Seq<Record<K, V>>,
    key: K,
    upto: u64,
    a: SeqMarked<V>,
    b: SeqMarked<V>,
)
    requires
        ordered::<K>(),
        sorted(s),
        all_have_values(s),
        told(s, key, upto, a),
        told(s, key, upto, b),
    ensures
        a == b,
{
    if sees_nothing(s, key, upto) {
        assert forall|r: Record<K, V>| !#[trigger] sees(s, key, upto, r) by {
            if sees(s, key, upto, r) {
                assert(s.contains(r));
            }
        }
    } else {
        let x = choose|r: Record<K, V>| #[trigger] sees(s, key, upto, r) && tells(r, a);
        let y = choose|r: Record<K, V>| #[trigger] sees(s, key, upto, r) && tells(r, b);
        assert(s.contains(x) && s.contains(y));
        assert(not_after(x, y) && not_after(y, x));
        lemma_key_trichotomy(y.0.0, key);
        lemma_key_transitive(x.0.0, key, y.0.0);
        lemma_slot_unique(s, x, y);
    }
}

/// A read of a table tells the last version of the key that is not too new, or that there is
/// none.
pub proof fn law_table_get<K: Ord, V>(t: Table<K, V>, key: K, upto: u64, r: SeqMarked<&V>)
    requires
        t.wf(),
        call_ensures(Table::<K, V>::get, (&t, key, upto), r),
    ensures
        told_ref(t.inner@, key, upto, r),
{
    lemma_read_is_told(t.inner@, key, upto);
    lemma_told_ref(t.inner@, key, upto, r);
}

proof fn lemma_told_ref<K: Ord, V>(
    s: Seq<Record<K, V>>,
    key: K,
    upto: u64,
    r: SeqMarked<&V>,
)
    requires
        told(s, key, upto, r.unref()),
    ensures
        told_ref(s, key, upto, r),
{
    if !(sees_nothing(s, key, upto) && absent(r.unref())) {
        let w = choose|w: Record<K, V>| #[trigger] sees(s, key, upto, w) && tells(w, r.unref());
        assert(sees(s, key, upto, w) && tells_ref(w, r));
    }
}

/// `law_table_get`, of a borrowed key.
pub proof fn law_table_get_by_ref<K: Ord, V>(t: Table<K, V>, key: K, upto: u64, r: SeqMarked<&V>)
    requires
        t.wf(),
        call_ensures(Table::<K, V>::get_by_ref, (&t, &key, upto), r),
    ensures
        told_ref(t.inner@, key, upto, r),
{
    lemma_read_is_told(t.inner@, key, upto);
    lemma_told_ref(t.inner@, key, upto, r);
}

/// Reading many keys of a table gives as many answers as keys, each told of the key at its place.
pub proof fn law_table_get_many<K: Ord, V>(
    t: Table<K, V>,
    keys: Vec<K>,
    upto: u64,
    r: Vec<SeqMarked<&V>>,
)
    requires
        t.wf(),
        call_ensures(Table::<K, V>::get_many, (&t, keys, upto), r),
    ensures
        r@.len() == keys@.len(),
        forall|i: int|
            0 <= i < keys@.len() ==> told_ref(t.inner@, #[trigger] keys@[i], upto, r@[i]),
{
    assert forall|i: int| 0 <= i < keys@.len() implies told_ref(
        t.inner@,
        #[trigger] keys@[i],
        upto,
        r@[i],
    ) by {
        lemma_read_is_told(t.inner@, keys@[i], upto);
        assert(r@[i].unref() == read(t.inner@, keys@[i], upto));
        lemma_told_ref(t.inner@, keys@[i], upto, r@[i]);
    }
}

/// `key` is not before an included start, is after an excluded start, is not after an included
/// end, and is before an excluded end.
pub open spec fn between<K: Ord>(range: KeyRange<K>, key: K) -> bool {
    &&& range.0 matches Bound::Included(start) ==> !key_lt(key, start)
    &&& range.0 matches Bound::Excluded(start) ==> key_lt(start, key)
    &&& range.1 matches Bound::Included(end) ==> !key_lt(end, key)
    &&& range.1 matches Bound::Excluded(end) ==> key_lt(key, end)
}

/// `items` are the keys between the ends of `range` that have a version which is not too new,
/// each once and in the order of the keys, with what a reader is to be told of them.
pub open spec fn told_range<K: Ord, V>(
    s: Seq<Record<K, V>>,
    range: KeyRange<K>,
    upto: u64,
    items: Seq<(K, SeqMarked<V>)>,
) -> bool {
    &&& forall|i: int, j: int|
        0 <= i < j < items.len() ==> key_lt((#[trigger] items[i]).0, (#[trigger] items[j]).0)
    &&& forall|i: int| 0 <= i < items.len() ==> between(range, (#[trigger] items[i]).0)
    &&& forall|i: int|
        0 <= i < items.len() ==> told_seen(s, (#[trigger] items[i]).0, upto, items[i].1)
    &&& forall|q: Record<K, V>| #[trigger]
        s.contains(q) && q.0.1.seq <= upto && between(range, q.0.0) ==> exists|i: int|
            0 <= i < items.len() && key_eq((#[trigger] items[i]).0, q.0.0)
}

/// `value` tells the last version of `key` that is not newer than `upto`, which stands under this
/// very key.
pub open spec fn told_seen<K: Ord, V>(
    s: Seq<Record<K, V>>,
    key: K,
    upto: u64,
    value: SeqMarked<V>,
) -> bool {
    exists|r: Record<K, V>| #[trigger]
        sees(s, key, upto, r) && r.0.0 == key && tells(r, value)
}

/// `told_seen`, of a reference to the value.
pub open spec fn told_seen_ref<K: Ord, V>(
    s: Seq<Record<K, V>>,
    key: K,
    upto: u64,
    value: SeqMarked<&V>,
) -> bool {
    exists|r: Record<K, V>| #[trigger]
        sees(s, key, upto, r) && r.0.0 == key && tells_ref(r, value)
}

/// A scan is what a reader is to be told of the range.
pub proof fn lemma_scan_is_told<K: Ord, V>(s: Seq<Record<K, V>>, range: KeyRange<K>, upto: u64)
    requires
        ordered::<K>(),
        sorted(s),
    ensures
        told_range(s, range, upto, scan(s, range, upto)),
{
    let items = scan(s, range, upto);
    let p = in_view(s, range, upto);
    let f = s.filter(p);
    lemma_filter_sorted(s, p);
    lemma_scan_ascends(s, range, upto);
    assert forall|i: int| 0 <= i < items.len() implies between(range, (#[trigger] items[i]).0)
        && told_seen(s, items[i].0, upto, items[i].1) by {
        assert(s.contains(f[i]) && p(f[i]));
        lemma_key_trichotomy(f[i].0.0, f[i].0.0);
        assert(shown(s, f[i].0.0, upto, f[i]));
        lemma_shown_is_seen(s, f[i].0.0, upto, f[i]);
        assert(sees(s, items[i].0, upto, f[i]) && tells(f[i], items[i].1));
    }
    assert forall|q: Record<K, V>| #[trigger]
        s.contains(q) && q.0.1.seq <= upto && between(range, q.0.0) implies exists|i: int|
        0 <= i < items.len() && key_eq((#[trigger] items[i]).0, q.0.0) by {
        lemma_key_trichotomy(q.0.0, q.0.0);
        lemma_is_shown(s, q.0.0, upto);
        let r = choose|r: Record<K, V>| shown(s, q.0.0, upto, r);
        lemma_within_same(range, r.0.0, q.0.0);
        let j = choose|j: int| 0 <= j < s.len() && s[j] == r;
        assert(p(s[j]));
        s.lemma_filter_contains(p, j);
        let i = choose|i: int| 0 <= i < f.len() && f[i] == r;
        assert(items[i].0 == r.0.0);
    }
}

/// A range read of a table hands out no key before an included start or at or before an excluded
/// one, none after an included end or at or after an excluded one, and every other key that has
/// a version which is not too new; each once, in the order of the keys, with what a read of it
/// tells.
pub proof fn law_table_range<K: Ord, V>(
    t: Table<K, V>,
    range: KeyRange<K>,
    upto: u64,
    r: Vec<(&K, SeqMarked<&V>)>,
)
    requires
        t.wf(),
        call_ensures(Table::<K, V>::range, (&t, range, upto), r),
    ensures
        forall|i: int, j: int|
            0 <= i < j < r@.len() ==> key_lt(*(#[trigger] r@[i]).0, *(#[trigger] r@[j]).0),
        forall|i: int, start: K|
            0 <= i < r@.len() && range.0 == Bound::Included(start) ==> !#[trigger] key_lt(
                *r@[i].0,
                start,
            ),
        forall|i: int, start: K|
            0 <= i < r@.len() && range.0 == Bound::Excluded(start) ==> #[trigger] key_lt(
                start,
                *r@[i].0,
            ),
        forall|i: int, end: K|
            0 <= i < r@.len() && range.1 == Bound::Included(end) ==> !#[trigger] key_lt(
                end,
                *r@[i].0,
            ),
        forall|i: int, end: K|
            0 <= i < r@.len() && range.1 == Bound::Excluded(end) ==> #[trigger] key_lt(
                *r@[i].0,
                end,
            ),
        forall|i: int|
            0 <= i < r@.len() ==> told_seen_ref(t.inner@, *(#[trigger] r@[i]).0, upto, r@[i].1),
        forall|q: Record<K, V>| #[trigger]
            t.inner@.contains(q) && q.0.1.seq <= upto && between(range, q.0.0) ==> exists|i: int|
                0 <= i < r@.len() && key_eq(*(#[trigger] r@[i]).0, q.0.0),
{
    let s = t.inner@;
    let items = unref_items(r@);
    assert(items == scan(s, range, upto));
    lemma_scan_is_told(s, range, upto);
    assert forall|i: int| 0 <= i < r@.len() implies between(range, *(#[trigger] r@[i]).0) by {
        assert(between(range, items[i].0));
    }
    assert forall|i: int, j: int| 0 <= i < j < r@.len() implies key_lt(
        *(#[trigger] r@[i]).0,
        *(#[trigger] r@[j]).0,
    ) by {
        assert(key_lt(items[i].0, items[j].0));
    }
    assert forall|i: int, start: K|
        0 <= i < r@.len() && range.0 == Bound::Included(start) implies !#[trigger] key_lt(
        *r@[i].0,
        start,
    ) by {
        assert(between(range, *r@[i].0));
    }
    assert forall|i: int, start: K|
        0 <= i < r@.len() && range.0 == Bound::Excluded(start) implies #[trigger] key_lt(
        start,
        *r@[i].0,
    ) by {
        assert(between(range, *r@[i].0));
    }
    assert forall|i: int, end: K|
        0 <= i < r@.len() && range.1 == Bound::Included(end) implies !#[trigger] key_lt(
        end,
        *r@[i].0,
    ) by {
        assert(between(range, *r@[i].0));
    }
    assert forall|i: int, end: K|
        0 <= i < r@.len() && range.1 == Bound::Excluded(end) implies #[trigger] key_lt(
        *r@[i].0,
        end,
    ) by {
        assert(between(range, *r@[i].0));
    }
    assert forall|i: int| 0 <= i < r@.len() implies told_seen_ref(
        s,
        *(#[trigger] r@[i]).0,
        upto,
        r@[i].1,
    ) by {
        assert(told_seen(s, items[i].0, upto, items[i].1));
        let w = choose|w: Record<K, V>| #[trigger]
            sees(s, items[i].0, upto, w) && w.0.0 == items[i].0 && tells(w, items[i].1);
        assert(sees(s, *r@[i].0, upto, w) && tells_ref(w, r@[i].1));
    }
    assert forall|q: Record<K, V>| #[trigger]
        s.contains(q) && q.0.1.seq <= upto && between(range, q.0.0) implies exists|i: int|
        0 <= i < r@.len() && key_eq(*(#[trigger] r@[i]).0, q.0.0) by {
        let i = choose|i: int| 0 <= i < items.len() && key_eq((#[trigger] items[i]).0, q.0.0);
        assert(key_eq(*r@[i].0, q.0.0));
    }
}

/// A key can be read if the version that is seen of it is a deletion or has a value.
pub proof fn law_table_is_readable<K: Ord, V>(t: Table<K, V>, key: K, upto: u64, r: bool)
    requires
        t.wf(),
        call_ensures(Table::<K, V>::is_readable, (&t, &key, upto), r),
    ensures
        r <==> forall|w: Record<K, V>| #[trigger]
            sees(t.inner@, key, upto, w) ==> w.0.1.marked is TombStone || w.1 is Some,
{
    let s = t.inner@;
    assert forall|w: Record<K, V>| #[trigger] sees(s, key, upto, w) == shown(
        s,
        key,
        upto,
        w,
    ) by {
        if shown(s, key, upto, w) {
            lemma_shown_is_seen(s, key, upto, w);
        }
        if sees(s, key, upto, w) {
            lemma_seen_is_newest(s, key, upto, w);
        }
    }
    if r {
        assert forall|w: Record<K, V>| #[trigger]
            sees(s, key, upto, w) implies w.0.1.marked is TombStone || w.1 is Some by {
            assert(shown(s, key, upto, w));
            assert(has_value(w));
        }
    } else {
        let w = choose|w: Record<K, V>| shown(s, key, upto, w) && !has_value(w);
        assert(sees(s, key, upto, w));
    }
}

proof fn lemma_seen_is_newest<K: Ord, V>(
    s: Seq<Record<K, V>>,
    key: K,
    upto: u64,
    w: Record<K, V>,
)
    requires
        ordered::<K>(),
        sees(s, key, upto, w),
    ensures
        shown(s, key, upto, w),
{
    assert forall|q: Record<K, V>| #[trigger]
        s.contains(q) && key_eq(q.0.0, w.0.0) && q.0.1.seq <= upto implies q.0.1.rank()
        <= w.0.1.rank() by {
        lemma_key_transitive(q.0.0, w.0.0, key);
        assert(not_after(q, w));
    }
}

/// A range can be read if every key of it can.
pub proof fn law_table_is_range_readable<K: Ord, V>(
    t: Table<K, V>,
    range: KeyRange<K>,
    upto: u64,
    r: bool,
)
    requires
        t.wf(),
        call_ensures(Table::<K, V>::is_range_readable, (&t, &range, upto), r),
    ensures
        r <==> forall|w: Record<K, V>| #[trigger]
            t.inner@.contains(w) && between(range, w.0.0) && sees(t.inner@, w.0.0, upto, w)
                ==> w.0.1.marked is TombStone || w.1 is Some,
{
    let s = t.inner@;
    assert forall|w: Record<K, V>| #[trigger] s.contains(w) implies (in_view(
        s,
        range,
        upto,
    )(w) == (between(range, w.0.0) && sees(s, w.0.0, upto, w))) by {
        lemma_key_trichotomy(w.0.0, w.0.0);
        if newest(s, upto, w) {
            assert(shown(s, w.0.0, upto, w));
            lemma_shown_is_seen(s, w.0.0, upto, w);
        }
        if sees(s, w.0.0, upto, w) {
            lemma_seen_is_newest(s, w.0.0, upto, w);
        }
    }
    if !r {
        let w = choose|w: Record<K, V>| #[trigger]
            s.contains(w) && in_view(s, range, upto)(w) && !has_value(w);
        assert(s.contains(w));
    }
}

} // verus!
