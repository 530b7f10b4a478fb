//! What merging changes into a read gives, said of the items themselves.

use crate::io_result::{all_ok, ok_items, oks, IOResultStream};
use crate::laws::readers::{are_clones, told_range_clone};
use crate::laws::tables::{between, lemma_scan_is_told};
use crate::laws::transactions::{
    law_changes_override_snapshot, law_table_view_range_agrees_with_get, overrides_strictly,
};
use crate::laws::views::{lemma_reads, reads};
use crate::map_key::{faithful_clone, MapKey};
use crate::order::{key_eq, key_lt, lemma_key_transitive, lemma_key_trichotomy, ordered};
use crate::read_at_seq::{items_cloned, GetAtSeq, RangeAtSeq};
use crate::seq_marked::SeqMarked;
use crate::table::Table;
use crate::util::{
    at_key, coalesced, comes_first, joined, keys_ascend, law_merge_hands_failures_on, lemma_at_key,
    lemma_merge_overlays, merge_of, merge_reads, merged, overlaid, ReadItem,
};
use crate::versions::Record;
use crate::view::{range_cloned, View};
use crate::view_api::ViewRange;
use crate::visibility::{is_shown, lemma_is_shown, read, scan, KeyRange};
use std::io;
use std::ops::Bound;
use vstd::prelude::*;
use vstd::view::View as _;

verus! {

/// `a` was written before `b`, or with it and is no deletion unless `b` is.
pub open spec fn is_not_after<V>(a: SeqMarked<V>, b: SeqMarked<V>) -> bool {
    a.seq < b.seq || (a.seq == b.seq && (a.marked is TombStone ==> b.marked is TombStone))
}

/// Some item that did not fail says the very same of the key of `y`.
pub open spec fn has_source<K: Ord, V>(s: Seq<ReadItem<K, V>>, y: (K, SeqMarked<V>)) -> bool {
    exists|i: int|
        {
            &&& 0 <= i < s.len()
            &&& (#[trigger] s[i]) is Ok
            &&& key_eq(s[i]->Ok_0.0, y.0)
            &&& s[i]->Ok_0.1 == y.1
        }
}

/// Some item that did not fail says of the key of `x` something that is not older.
pub open spec fn is_covered<K: Ord, V>(s: Seq<ReadItem<K, V>>, x: (K, SeqMarked<V>)) -> bool {
    exists|i: int|
        {
            &&& 0 <= i < s.len()
            &&& (#[trigger] s[i]) is Ok
            &&& key_eq(s[i]->Ok_0.0, x.0)
            &&& is_not_after(x.1, s[i]->Ok_0.1)
        }
}

/// The items that failed.
pub open spec fn failed<K, V>(s: Seq<ReadItem<K, V>>) -> Seq<ReadItem<K, V>> {
    s.filter(|item: ReadItem<K, V>| item is Err)
}

/// `out` is a merge of `updates` into `base`. Each failure of the read comes out, in their order,
/// and there is no other. Each item that comes out is one of both; each item of either has one
/// that is not older; and where the keys of both ascend and nothing failed, they ascend.
pub open spec fn is_merge<K: Ord, V>(
    base: Seq<ReadItem<K, V>>,
    updates: Seq<(K, SeqMarked<V>)>,
    out: Seq<ReadItem<K, V>>,
) -> bool {
    &&& failed(out) == failed(base)
    &&& forall|i: int|
        0 <= i < out.len() && (#[trigger] out[i]) is Ok ==> has_source(base, out[i]->Ok_0)
            || has_source(wrapped(updates), out[i]->Ok_0)
    &&& forall|i: int|
        0 <= i < base.len() && (#[trigger] base[i]) is Ok ==> is_covered(out, base[i]->Ok_0)
    &&& forall|i: int| 0 <= i < updates.len() ==> is_covered(out, #[trigger] updates[i])
    &&& strictly_ascend(base) && strictly_ascend(wrapped(updates)) ==> strictly_ascend(out)
}

/// The items, of which none failed.
pub open spec fn wrapped<K, V>(items: Seq<(K, SeqMarked<V>)>) -> Seq<ReadItem<K, V>> {
    Seq::new(items.len(), |i: int| Ok(items[i]))
}

/// No item failed, and each key comes before the next.
pub open spec fn strictly_ascend<K: Ord, V>(s: Seq<ReadItem<K, V>>) -> bool {
    &&& forall|i: int| 0 <= i < s.len() ==> (#[trigger] s[i]) is Ok
    &&& forall|i: int, j: int|
        0 <= i < j < s.len() ==> key_lt((#[trigger] s[i])->Ok_0.0, (#[trigger] s[j])->Ok_0.0)
}

/// Some item of `a` or `b` is `x`, just if some item of their merge is.
proof fn lemma_merged_contains<K: Ord, V>(
    last: Seq<ReadItem<K, V>>,
    other: Seq<ReadItem<K, V>>,
    x: ReadItem<K, V>,
)
    ensures
        merged(last, other).contains(x) <==> last.contains(x) || other.contains(x),
    decreases last.len() + other.len(),
{
    if last.len() > 0 && other.len() > 0 {
        if comes_first(last[0], other[0]) {
            lemma_merged_contains(last.drop_first(), other, x);
            lemma_contains_after(last[0], merged(last.drop_first(), other), x);
            lemma_contains_after(last[0], last.drop_first(), x);
            assert(last =~= seq![last[0]] + last.drop_first());
        } else {
            lemma_merged_contains(other.drop_first(), last, x);
            lemma_contains_after(other[0], merged(other.drop_first(), last), x);
            lemma_contains_after(other[0], other.drop_first(), x);
            assert(other =~= seq![other[0]] + other.drop_first());
        }
    }
}

proof fn lemma_contains_after<T>(first: T, rest: Seq<T>, x: T)
    ensures
        (seq![first] + rest).contains(x) <==> first == x || rest.contains(x),
{
    let s = seq![first] + rest;
    if s.contains(x) {
        let i = choose|i: int| 0 <= i < s.len() && s[i] == x;
        if i > 0 {
            assert(rest[i - 1] == x);
        }
    }
    if first == x {
        assert(s[0] == x);
    }
    if rest.contains(x) {
        let i = choose|i: int| 0 <= i < rest.len() && rest[i] == x;
        assert(s[i + 1] == x);
    }
}

proof fn lemma_source_in<K: Ord, V>(s: Seq<ReadItem<K, V>>, x: ReadItem<K, V>, y: (K, SeqMarked<V>))
    requires
        s.contains(x),
        x is Ok,
        key_eq(x->Ok_0.0, y.0),
        x->Ok_0.1 == y.1,
    ensures
        has_source(s, y),
{
    let i = choose|i: int| 0 <= i < s.len() && s[i] == x;
    assert(s[i] is Ok);
}

proof fn lemma_covered_in<K: Ord, V>(
    s: Seq<ReadItem<K, V>>,
    y: ReadItem<K, V>,
    x: (K, SeqMarked<V>),
)
    requires
        s.contains(y),
        y is Ok,
        key_eq(y->Ok_0.0, x.0),
        is_not_after(x.1, y->Ok_0.1),
    ensures
        is_covered(s, x),
{
    let i = choose|i: int| 0 <= i < s.len() && s[i] == y;
    assert(s[i] is Ok);
}

/// What coalescing leaves was there before.
proof fn lemma_coalesced_source<K: Ord, V>(m: Seq<ReadItem<K, V>>, y: ReadItem<K, V>)
    requires
        ordered::<K>(),
        coalesced(m).contains(y),
        y is Ok,
    ensures
        has_source(m, y->Ok_0),
    decreases m.len(),
{
    lemma_key_trichotomy(y->Ok_0.0, y->Ok_0.0);
    if m.len() < 2 {
        lemma_source_in(m, y, y->Ok_0);
    } else if let Some(item) = joined(m[0], m[1]) {
        let n = seq![item] + m.skip(2);
        lemma_coalesced_source(n, y);
        let i = choose|i: int|
            {
                &&& 0 <= i < n.len()
                &&& (#[trigger] n[i]) is Ok
                &&& key_eq(n[i]->Ok_0.0, y->Ok_0.0)
                &&& n[i]->Ok_0.1 == y->Ok_0.1
            };
        if i == 0 {
            lemma_key_trichotomy(m[0]->Ok_0.0, m[1]->Ok_0.0);
            lemma_key_transitive(m[1]->Ok_0.0, m[0]->Ok_0.0, y->Ok_0.0);
            assert(m[0] is Ok && m[1] is Ok);
        } else {
            assert(m[i + 1] == n[i]);
        }
    } else {
        let rest = coalesced(m.skip(1));
        lemma_contains_after(m[0], rest, y);
        if m[0] == y {
            assert(m[0] is Ok);
        } else {
            lemma_coalesced_source(m.skip(1), y);
            let i = choose|i: int|
                {
                    &&& 0 <= i < m.skip(1).len()
                    &&& (#[trigger] m.skip(1)[i]) is Ok
                    &&& key_eq(m.skip(1)[i]->Ok_0.0, y->Ok_0.0)
                    &&& m.skip(1)[i]->Ok_0.1 == y->Ok_0.1
                };
            assert(m[i + 1] == m.skip(1)[i]);
        }
    }
}

/// What was there before coalescing is covered by what it leaves.
proof fn lemma_coalesced_covers<K: Ord, V>(m: Seq<ReadItem<K, V>>, x: ReadItem<K, V>)
    requires
        ordered::<K>(),
        m.contains(x),
        x is Ok,
    ensures
        is_covered(coalesced(m), x->Ok_0),
    decreases m.len(),
{
    let out = coalesced(m);
    lemma_key_trichotomy(x->Ok_0.0, x->Ok_0.0);
    if m.len() < 2 {
        lemma_covered_in(out, x, x->Ok_0);
    } else if let Some(item) = joined(m[0], m[1]) {
        let n = seq![item] + m.skip(2);
        let j = choose|j: int| 0 <= j < m.len() && m[j] == x;
        if j < 2 {
            assert(n[0] == item);
            assert(n.contains(item));
            lemma_coalesced_covers(n, item);
            let i = choose|i: int|
                {
                    &&& 0 <= i < out.len()
                    &&& (#[trigger] out[i]) is Ok
                    &&& key_eq(out[i]->Ok_0.0, item->Ok_0.0)
                    &&& is_not_after(item->Ok_0.1, out[i]->Ok_0.1)
                };
            lemma_key_trichotomy(m[0]->Ok_0.0, m[1]->Ok_0.0);
            lemma_key_transitive(out[i]->Ok_0.0, m[0]->Ok_0.0, m[1]->Ok_0.0);
            assert(is_not_after(x->Ok_0.1, item->Ok_0.1));
            assert(out[i] is Ok);
        } else {
            assert(n[j - 1] == x);
            assert(n.contains(x));
            lemma_coalesced_covers(n, x);
        }
    } else {
        let rest = coalesced(m.skip(1));
        assert(m =~= seq![m[0]] + m.skip(1));
        lemma_contains_after(m[0], m.skip(1), x);
        lemma_contains_after(m[0], rest, x);
        if m[0] == x {
            lemma_covered_in(out, x, x->Ok_0);
        } else {
            lemma_coalesced_covers(m.skip(1), x);
            let i = choose|i: int|
                {
                    &&& 0 <= i < rest.len()
                    &&& (#[trigger] rest[i]) is Ok
                    &&& key_eq(rest[i]->Ok_0.0, x->Ok_0.0)
                    &&& is_not_after(x->Ok_0.1, rest[i]->Ok_0.1)
                };
            assert(out[i + 1] == rest[i]);
        }
    }
}

/// Merging gives a merge.
proof fn lemma_is_merge<K: Ord, V>(
    base: Seq<ReadItem<K, V>>,
    updates: Seq<(K, SeqMarked<V>)>,
    out: Seq<ReadItem<K, V>>,
)
    requires
        ordered::<K>(),
        out == merge_of(base, ok_items(updates)),
        all_ok(base) && keys_ascend(oks(base)) && keys_ascend(updates) ==> all_ok(out)
            && keys_ascend(oks(out)),
    ensures
        is_merge(base, updates, out),
{
    let u = ok_items(updates);
    let m = merged(u, base);
    assert(u =~= wrapped(updates));
    law_merge_hands_failures_on(base, u);
    assert forall|i: int| 0 <= i < out.len() && (#[trigger] out[i]) is Ok implies has_source(
        base,
        out[i]->Ok_0,
    ) || has_source(wrapped(updates), out[i]->Ok_0) by {
        assert(out.contains(out[i]));
        lemma_coalesced_source(m, out[i]);
        let y = out[i]->Ok_0;
        let j = choose|j: int|
            {
                &&& 0 <= j < m.len()
                &&& (#[trigger] m[j]) is Ok
                &&& key_eq(m[j]->Ok_0.0, y.0)
                &&& m[j]->Ok_0.1 == y.1
            };
        assert(m.contains(m[j]));
        lemma_merged_contains(u, base, m[j]);
        if base.contains(m[j]) {
            lemma_source_in(base, m[j], y);
        } else {
            lemma_source_in(u, m[j], y);
        }
    }
    assert forall|i: int| 0 <= i < base.len() && (#[trigger] base[i]) is Ok implies is_covered(
        out,
        base[i]->Ok_0,
    ) by {
        assert(base.contains(base[i]));
        lemma_merged_contains(u, base, base[i]);
        lemma_coalesced_covers(m, base[i]);
    }
    assert forall|i: int| 0 <= i < updates.len() implies is_covered(out, #[trigger] updates[i]) by {
        assert(u[i] == Ok::<(K, SeqMarked<V>), io::Error>(updates[i]));
        assert(u.contains(u[i]));
        lemma_merged_contains(u, base, u[i]);
        lemma_coalesced_covers(m, u[i]);
    }
    if strictly_ascend(base) && strictly_ascend(wrapped(updates)) {
        assert forall|i: int, j: int| 0 <= i < j < updates.len() implies key_lt(
            (#[trigger] updates[i]).0,
            (#[trigger] updates[j]).0,
        ) by {
            assert(key_lt(wrapped(updates)[i]->Ok_0.0, wrapped(updates)[j]->Ok_0.0));
        }
        assert forall|i: int, j: int| 0 <= i < j < out.len() implies key_lt(
            (#[trigger] out[i])->Ok_0.0,
            (#[trigger] out[j])->Ok_0.0,
        ) by {
            assert(key_lt(oks(out)[i].0, oks(out)[j].0));
        }
    }
}

/// Merging changes into a read gives a merge of both.
pub proof fn law_merge_reads<K: Ord + Send, V: Send>(
    base: IOResultStream<(K, SeqMarked<V>)>,
    updates: Vec<(K, SeqMarked<V>)>,
    r: IOResultStream<(K, SeqMarked<V>)>,
)
    requires
        ordered::<K>(),
        call_ensures(merge_reads::<K, V>, (base, updates), r),
    ensures
        is_merge(base@, updates@, r@),
{
    lemma_is_merge(base@, updates@, r@);
}

/// `b` is a clone of the end `a` of a range.
pub open spec fn is_end_clone<K: Clone>(a: Bound<K>, b: Bound<K>) -> bool {
    match a {
        Bound::Included(x) => b matches Bound::Included(y) && cloned(x, y),
        Bound::Excluded(x) => b matches Bound::Excluded(y) && cloned(x, y),
        Bound::Unbounded => b is Unbounded,
    }
}

/// `out` is a merge of clones of what is staged for the keys of `range` into `base`, which the
/// reader may give for the range `own` at the snapshot's number.
pub open spec fn is_overlay<K: MapKey, D: GetAtSeq<K> + RangeAtSeq<K>>(
    view: View<K, D>,
    range: KeyRange<K>,
    own: KeyRange<K>,
    base: IOResultStream<(K, SeqMarked<K::V>)>,
    updates: Seq<(K, SeqMarked<K::V>)>,
    out: Seq<ReadItem<K, K::V>>,
) -> bool {
    &&& is_end_clone(range.0, own.0)
    &&& is_end_clone(range.1, own.1)
    &&& view.snapshot.data.may_range_at(own, view.snapshot.snapshot_seq.seq, Ok(base))
    &&& told_range_clone(view.changes.inner@, range, view.last_seq.seq, wrapped(updates))
    &&& failed(out) == failed(base@)
    &&& forall|i: int|
        0 <= i < out.len() && (#[trigger] out[i]) is Ok ==> has_source(base@, out[i]->Ok_0)
            || has_source(wrapped(updates), out[i]->Ok_0)
    &&& forall|i: int|
        0 <= i < base@.len() && (#[trigger] base@[i]) is Ok ==> is_covered(out, base@[i]->Ok_0)
    &&& forall|i: int| 0 <= i < updates.len() ==> is_covered(out, #[trigger] updates[i])
}

/// A range read of a transaction fails only if the reader, asked for a clone of the range at the
/// snapshot's number, may fail. Otherwise it is an overlay of what the reader gave with what is
/// staged for the keys of the range.
pub proof fn law_view_range<K: MapKey, D: GetAtSeq<K> + RangeAtSeq<K>>(
    view: View<K, D>,
    range: KeyRange<K>,
    r: Result<IOResultStream<(K, SeqMarked<K::V>)>, io::Error>,
)
    requires
        view.wf(),
        call_ensures(View::<K, D>::range, (&view, range), r),
    ensures
        r matches Err(e) ==> exists|own: KeyRange<K>|
            {
                &&& is_end_clone(range.0, own.0)
                &&& is_end_clone(range.1, own.1)
                &&& #[trigger] view.snapshot.data.may_range_at(
                    own,
                    view.snapshot.snapshot_seq.seq,
                    Err(e),
                )
            },
        r matches Ok(items) ==> exists|
            own: KeyRange<K>,
            base: IOResultStream<(K, SeqMarked<K::V>)>,
            updates: Seq<(K, SeqMarked<K::V>)>,
        | #[trigger]
            is_overlay(view, range, own, base, updates, items@),
{
    lemma_view_range(view, range, r);
}

/// `law_view_range`, of the trait's method.
pub proof fn law_view_range_of_trait<K: MapKey, D: GetAtSeq<K> + RangeAtSeq<K>>(
    view: View<K, D>,
    range: KeyRange<K>,
    r: Result<IOResultStream<(K, SeqMarked<K::V>)>, io::Error>,
)
    requires
        view.wf(),
        call_ensures(<View<K, D> as ViewRange<K>>::range, (&view, range), r),
    ensures
        r matches Err(e) ==> exists|own: KeyRange<K>|
            {
                &&& is_end_clone(range.0, own.0)
                &&& is_end_clone(range.1, own.1)
                &&& #[trigger] view.snapshot.data.may_range_at(
                    own,
                    view.snapshot.snapshot_seq.seq,
                    Err(e),
                )
            },
        r matches Ok(items) ==> exists|
            own: KeyRange<K>,
            base: IOResultStream<(K, SeqMarked<K::V>)>,
            updates: Seq<(K, SeqMarked<K::V>)>,
        | #[trigger]
            is_overlay(view, range, own, base, updates, items@),
{
    lemma_view_range(view, range, r);
}

proof fn lemma_view_range<K: MapKey, D: GetAtSeq<K> + RangeAtSeq<K>>(
    view: View<K, D>,
    range: KeyRange<K>,
    r: Result<IOResultStream<(K, SeqMarked<K::V>)>, io::Error>,
)
    requires
        view.wf(),
        view.may_range(range, r),
    ensures
        r matches Err(e) ==> exists|own: KeyRange<K>|
            {
                &&& is_end_clone(range.0, own.0)
                &&& is_end_clone(range.1, own.1)
                &&& #[trigger] view.snapshot.data.may_range_at(
                    own,
                    view.snapshot.snapshot_seq.seq,
                    Err(e),
                )
            },
        r matches Ok(items) ==> exists|
            own: KeyRange<K>,
            base: IOResultStream<(K, SeqMarked<K::V>)>,
            updates: Seq<(K, SeqMarked<K::V>)>,
        | #[trigger]
            is_overlay(view, range, own, base, updates, items@),
{
    let data = view.snapshot.data;
    let from = view.snapshot.snapshot_seq.seq;
    if let Err(e) = r {
        let own = choose|own: KeyRange<K>| #[trigger]
            range_cloned(range, own) && data.may_range_at(own, from, Err(e));
        assert(data.may_range_at(own, from, Err(e)));
    } else {
        let items = r->Ok_0;
        let own = choose|own: KeyRange<K>| #[trigger]
            range_cloned(range, own) && view.may_overlay_read(range, own, items);
        let base = choose|base: IOResultStream<(K, SeqMarked<K::V>)>|
            {
                &&& data.may_range_at(own, from, Ok(base))
                &&& #[trigger] view.may_overlay(range, base, items)
            };
        let plain = scan(view.changes.inner@, range, view.last_seq.seq);
        let updates = choose|updates: Seq<(K, SeqMarked<K::V>)>|
            {
                &&& #[trigger] items_cloned(plain, updates)
                &&& items@ == merge_of(base@, ok_items(updates))
                &&& all_ok(base@) && keys_ascend(oks(base@)) && faithful_clone::<K>() ==> all_ok(
                    items@,
                ) && overlaid(oks(base@), updates, oks(items@))
            };
        lemma_scan_is_told(view.changes.inner@, range, view.last_seq.seq);
        assert(are_clones(plain, wrapped(updates)));
        lemma_is_merge_items(base@, updates, items@);
        assert(is_overlay(view, range, own, base, updates, items@));
    }
}

proof fn lemma_is_merge_items<K: Ord, V>(
    base: Seq<ReadItem<K, V>>,
    updates: Seq<(K, SeqMarked<V>)>,
    out: Seq<ReadItem<K, V>>,
)
    requires
        ordered::<K>(),
        out == merge_of(base, ok_items(updates)),
    ensures
        failed(out) == failed(base),
        forall|i: int|
            0 <= i < out.len() && (#[trigger] out[i]) is Ok ==> has_source(base, out[i]->Ok_0)
                || has_source(wrapped(updates), out[i]->Ok_0),
        forall|i: int|
            0 <= i < base.len() && (#[trigger] base[i]) is Ok ==> is_covered(out, base[i]->Ok_0),
        forall|i: int| 0 <= i < updates.len() ==> is_covered(out, #[trigger] updates[i]),
{
    if all_ok(base) && keys_ascend(oks(base)) && keys_ascend(updates) {
        lemma_merge_overlays(base, updates);
    }
    lemma_is_merge(base, updates, out);
}

/// A range read of a transaction over a table does not fail. It gives each key between the ends
/// of the range that has a version, staged or in the snapshot, once and in the order of the keys,
/// and says of it what a read of the key may give. What is staged has to come after the
/// snapshot's normal data, and keys have to be cloned faithfully.
pub proof fn law_table_view_range<K: MapKey>(
    view: View<K, Table<K, K::V>>,
    range: KeyRange<K>,
    r: Result<IOResultStream<(K, SeqMarked<K::V>)>, io::Error>,
)
    requires
        view.wf(),
        view.snapshot.data.wf(),
        forall|a: K, b: K| #[trigger] cloned(a, b) ==> key_eq(a, b),
        0 < view.snapshot.snapshot_seq.seq <= view.last_seq.seq,
        forall|q: Record<K, K::V>| #[trigger]
            view.changes.inner@.contains(q) ==> q.0.1.seq > view.snapshot.snapshot_seq.seq || (
            q.0.1.seq == view.snapshot.snapshot_seq.seq && q.0.1.marked is TombStone),
        call_ensures(View::<K, Table<K, K::V>>::range, (&view, range), r),
    ensures
        r is Ok,
        strictly_ascend(r->Ok_0@),
        forall|i: int|
            0 <= i < r->Ok_0@.len() ==> between(range, (#[trigger] r->Ok_0@[i])->Ok_0.0),
        forall|i: int|
            0 <= i < r->Ok_0@.len() ==> reads(
                view,
                (#[trigger] r->Ok_0@[i])->Ok_0.0,
                Ok(r->Ok_0@[i]->Ok_0.1),
            ),
        forall|q: Record<K, K::V>| #[trigger]
            view.changes.inner@.contains(q) && q.0.1.seq <= view.last_seq.seq && between(
                range,
                q.0.0,
            ) ==> has_item(r->Ok_0@, q.0.0),
        forall|q: Record<K, K::V>| #[trigger]
            view.snapshot.data.inner@.contains(q) && q.0.1.seq <= view.snapshot.snapshot_seq.seq
                && between(range, q.0.0) ==> has_item(r->Ok_0@, q.0.0),
{
    assert(faithful_clone::<K>());
    assert(r is Ok);
    let items = r->Ok_0@;
    let stream = r->Ok_0;
    assert(view.follows_snapshot());
    assert forall|key: K| overrides_here(view, key) by {
        law_changes_override_snapshot(view, key);
    }
    let some: K = arbitrary();
    assert(overrides_here(view, some));
    law_table_view_range_agrees_with_get(view, range, stream, some);
    assert forall|i: int, j: int| 0 <= i < j < items.len() implies key_lt(
        (#[trigger] items[i])->Ok_0.0,
        (#[trigger] items[j])->Ok_0.0,
    ) by {
        assert(key_lt(oks(items)[i].0, oks(items)[j].0));
    }
    assert forall|i: int| 0 <= i < items.len() implies between(
        range,
        (#[trigger] items[i])->Ok_0.0,
    ) && reads(view, items[i]->Ok_0.0, Ok(items[i]->Ok_0.1)) by {
        let key = items[i]->Ok_0.0;
        assert(overrides_here(view, key));
        law_table_view_range_agrees_with_get(view, range, stream, key);
        lemma_key_trichotomy(key, key);
        assert(oks(items)[i] == items[i]->Ok_0);
        lemma_at_key(oks(items), key, i);
        lemma_reads(view, key, Ok(items[i]->Ok_0.1));
    }
    assert forall|q: Record<K, K::V>| #[trigger]
        view.changes.inner@.contains(q) && q.0.1.seq <= view.last_seq.seq && between(
            range,
            q.0.0,
        ) implies has_item(items, q.0.0) by {
        lemma_key_trichotomy(q.0.0, q.0.0);
        lemma_is_shown(view.changes.inner@, q.0.0, view.last_seq.seq);
        assert(overrides_here(view, q.0.0));
        law_table_view_range_agrees_with_get(view, range, stream, q.0.0);
        lemma_has_item(items, q.0.0);
    }
    assert forall|q: Record<K, K::V>| #[trigger]
        view.snapshot.data.inner@.contains(q) && q.0.1.seq <= view.snapshot.snapshot_seq.seq
            && between(range, q.0.0) implies has_item(items, q.0.0) by {
        lemma_key_trichotomy(q.0.0, q.0.0);
        lemma_is_shown(view.snapshot.data.inner@, q.0.0, view.snapshot.snapshot_seq.seq);
        assert(overrides_here(view, q.0.0));
        law_table_view_range_agrees_with_get(view, range, stream, q.0.0);
        lemma_has_item(items, q.0.0);
    }
}

/// Some item has the key.
pub open spec fn has_item<K: Ord, V>(items: Seq<ReadItem<K, V>>, key: K) -> bool {
    exists|i: int| 0 <= i < items.len() && key_eq((#[trigger] items[i])->Ok_0.0, key)
}

proof fn lemma_has_item<K: Ord, V>(items: Seq<ReadItem<K, V>>, key: K)
    requires
        at_key(oks(items), key) is Some,
    ensures
        has_item(items, key),
{
    let i = choose|i: int| 0 <= i < oks(items).len() && key_eq((#[trigger] oks(items)[i]).0, key);
    assert(key_eq(items[i]->Ok_0.0, key));
}

spec fn overrides_here<K: MapKey>(view: View<K, Table<K, K::V>>, key: K) -> bool {
    overrides_strictly(
        is_shown(view.changes.inner@, key, view.last_seq.seq),
        view.staged(key),
        is_shown(view.snapshot.data.inner@, key, view.snapshot.snapshot_seq.seq),
        read(view.snapshot.data.inner@, key, view.snapshot.snapshot_seq.seq),
    )
}

} // verus!
