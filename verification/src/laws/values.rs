//! What the calls on single values, keys and version maps give.

use crate::compact::compact_seq_marked_pair;
use crate::io_result::{into_stream, IOResultStream};
use crate::laws::overlays::is_not_after;
use crate::laws::storing::{lemma_only_wrote, lemma_wrote_all, wrote_all};
use crate::laws::tables::{absent, is_version, only_wrote};
use crate::map_key::lemma_integer_key;
use crate::order::{key_eq, key_less, key_lt, key_same, lemma_key_trichotomy, ordered};
use crate::seq_marked::{InternalSeq, Marked, SeqMarked};
use crate::util::{by_key_seq, merge_kv_results, ReadItem};
use crate::versions::{
    lemma_slot_transitive, lemma_slot_trichotomy, lemma_slot_unique, slot_eq, slot_lt, Record, Slot,
    VersionMap,
};
use crate::visibility::{is_valid_range, KeyRange};
use std::io;
use std::ops::Bound;
use vstd::prelude::*;

verus! {

/// Integer keys are ordered as integers.
pub proof fn law_integer_keys(a: u64, b: u64)
    ensures
        key_lt(a, b) <==> a < b,
        key_eq(a, b) <==> a == b,
{
    lemma_integer_key();
    lemma_key_trichotomy(a, b);
}

/// The comparisons of keys answer for the order of keys.
pub proof fn law_key_comparisons<K: Ord>(a: K, b: K, less: bool, same: bool)
    requires
        ordered::<K>(),
        call_ensures(key_less::<K>, (&a, &b), less),
        call_ensures(key_same::<K>, (&a, &b), same),
    ensures
        less == key_lt(a, b),
        same == key_eq(a, b),
{
}

/// The parts of a value are what it was made of.
pub proof fn law_value_parts<D>(
    seq: u64,
    data: D,
    value: SeqMarked<D>,
    deletion: SeqMarked<D>,
    nothing: SeqMarked<D>,
)
    requires
        call_ensures(SeqMarked::<D>::new_normal, (seq, data), value),
        call_ensures(SeqMarked::<D>::new_tombstone, (seq,), deletion),
        call_ensures(SeqMarked::<D>::new_not_found, (), nothing),
    ensures
        value.seq == seq,
        value.marked == Marked::Normal(data),
        deletion.seq == seq,
        deletion.marked is TombStone,
        absent(nothing),
{
}

/// What is asked of a value is what it holds.
pub proof fn law_value_questions<D>(
    value: SeqMarked<D>,
    is_tombstone: bool,
    is_not_found: bool,
    seq: InternalSeq,
    order: SeqMarked<()>,
    data: Option<D>,
)
    requires
        call_ensures(SeqMarked::<D>::is_tombstone, (&value,), is_tombstone),
        call_ensures(SeqMarked::<D>::is_not_found, (&value,), is_not_found),
        call_ensures(SeqMarked::<D>::internal_seq, (&value,), seq),
        call_ensures(SeqMarked::<D>::order_key, (&value,), order),
        call_ensures(SeqMarked::<D>::into_data, (value,), data),
    ensures
        is_tombstone == (value.marked is TombStone),
        is_not_found == absent(value),
        seq.seq == value.seq,
        order.seq == value.seq,
        (order.marked is TombStone) == (value.marked is TombStone),
        data == match value.marked {
            Marked::Normal(d) => Some(d),
            Marked::TombStone => None,
        },
{
}

/// A value comes after another with a smaller number, and a deletion after a value with the same
/// number. The later of two values is one of them, and the other does not come after it.
pub proof fn law_value_order<D>(a: SeqMarked<D>, b: SeqMarked<D>, after: bool, later: SeqMarked<D>)
    requires
        call_ensures(SeqMarked::<D>::is_after::<D>, (&a, &b), after),
        call_ensures(SeqMarked::<D>::max, (a, b), later),
    ensures
        after == !is_not_after(a, b),
        later == if after {
            a
        } else {
            b
        },
        is_not_after(a, later) && is_not_after(b, later),
{
}

/// A clone of a value has its number and a clone of its data, or is a deletion as it is.
pub proof fn law_value_clone<D: Clone>(value: SeqMarked<&D>, r: SeqMarked<D>)
    requires
        call_ensures(SeqMarked::<&D>::cloned, (value,), r),
    ensures
        r.seq == value.seq,
        match value.marked {
            Marked::Normal(data) => r.marked matches Marked::Normal(copy) && cloned(*data, copy),
            Marked::TombStone => r.marked is TombStone,
        },
{
}

/// Of two levels the newer one is kept, unless it does not know the key.
pub proof fn law_compact<V>(newer: SeqMarked<V>, older: SeqMarked<V>, r: SeqMarked<V>)
    requires
        call_ensures(compact_seq_marked_pair::<V>, (newer, older), r),
    ensures
        r == if newer.seq == 0 && newer.marked is TombStone {
            older
        } else {
            newer
        },
{
}

/// Items may stand in the order of their keys, then of their age; failures anywhere.
pub proof fn law_by_key_seq<K: Ord, V>(a: ReadItem<K, V>, b: ReadItem<K, V>, r: bool)
    requires
        ordered::<K>(),
        call_ensures(by_key_seq::<K, V>, (&a, &b), r),
    ensures
        a is Err || b is Err ==> r,
        a is Ok && b is Ok ==> r == (key_lt(a->Ok_0.0, b->Ok_0.0) || (key_eq(
            a->Ok_0.0,
            b->Ok_0.0,
        ) && is_not_after(a->Ok_0.1, b->Ok_0.1))),
{
}

/// Two items of one key are joined into one under the first one's key, which says the later of
/// what they say. Other items are handed back as they are.
pub proof fn law_merge_kv_results<K: Ord, V>(
    a: ReadItem<K, V>,
    b: ReadItem<K, V>,
    r: Result<ReadItem<K, V>, (ReadItem<K, V>, ReadItem<K, V>)>,
)
    requires
        ordered::<K>(),
        call_ensures(merge_kv_results::<K, V>, (a, b), r),
    ensures
        r is Ok <==> a is Ok && b is Ok && key_eq(a->Ok_0.0, b->Ok_0.0),
        r is Ok ==> {
            &&& r->Ok_0 is Ok
            &&& r->Ok_0->Ok_0.0 == a->Ok_0.0
            &&& r->Ok_0->Ok_0.1 == if is_not_after(a->Ok_0.1, b->Ok_0.1) {
                b->Ok_0.1
            } else {
                a->Ok_0.1
            }
        },
        r is Err ==> r->Err_0 == (a, b),
{
}

/// A stream of items holds each of them, in their order.
pub proof fn law_into_stream<T>(items: Vec<T>, r: IOResultStream<T>)
    requires
        call_ensures(into_stream::<T>, (items,), r),
    ensures
        r@.len() == items@.len(),
        forall|i: int|
            0 <= i < items@.len() ==> #[trigger] r@[i] == Ok::<T, io::Error>(items@[i]),
{
}

/// A range can be read unless it starts behind its end, or starts and ends at one key that it
/// leaves out on both sides.
pub proof fn law_valid_range<K: Ord>(range: KeyRange<K>, r: bool)
    requires
        ordered::<K>(),
        call_ensures(is_valid_range::<K>, (&range,), r),
    ensures
        range.0 is Unbounded || range.1 is Unbounded ==> r,
        forall|a: K, b: K|
            #![trigger key_lt(b, a)]
            (range.0 == Bound::Included(a) || range.0 == Bound::Excluded(a)) && (range.1
                == Bound::Included(b) || range.1 == Bound::Excluded(b)) && key_lt(b, a) ==> !r,
        forall|a: K, b: K|
            #![trigger key_lt(a, b)]
            (range.0 == Bound::Included(a) || range.0 == Bound::Excluded(a)) && (range.1
                == Bound::Included(b) || range.1 == Bound::Excluded(b)) && key_lt(a, b) ==> r,
        forall|a: K, b: K|
            #![trigger key_eq(a, b)]
            (range.0 == Bound::Included(a) || range.0 == Bound::Excluded(a)) && (range.1
                == Bound::Included(b) || range.1 == Bound::Excluded(b)) && key_eq(a, b) ==> r == !(
            range.0 is Excluded && range.1 is Excluded),
{
    assert forall|a: K, b: K|
        #![trigger key_lt(b, a)]
        (range.0 == Bound::Included(a) || range.0 == Bound::Excluded(a)) && (range.1
            == Bound::Included(b) || range.1 == Bound::Excluded(b)) && key_lt(b, a) implies !r by {
        lemma_key_trichotomy(a, b);
    }
    assert forall|a: K, b: K|
        #![trigger key_lt(a, b)]
        (range.0 == Bound::Included(a) || range.0 == Bound::Excluded(a)) && (range.1
            == Bound::Included(b) || range.1 == Bound::Excluded(b)) && key_lt(a, b) implies r by {
        lemma_key_trichotomy(a, b);
    }
    assert forall|a: K, b: K|
        #![trigger key_eq(a, b)]
        (range.0 == Bound::Included(a) || range.0 == Bound::Excluded(a)) && (range.1
            == Bound::Included(b) || range.1 == Bound::Excluded(b)) && key_eq(a, b) implies r == !(
    range.0 is Excluded && range.1 is Excluded) by {
        lemma_key_trichotomy(a, b);
        lemma_key_trichotomy(b, a);
    }
}

/// A version map hands out what was written last at a slot, if anything was.
pub proof fn law_version_map_get<K: Ord, V>(
    map: VersionMap<K, V>,
    slot: Slot<K>,
    r: Option<&Option<V>>,
)
    requires
        map.wf(),
        call_ensures(VersionMap::<K, V>::get, (&map, &slot), r),
    ensures
        r is None <==> forall|q: Record<K, V>| #[trigger]
            map@.contains(q) ==> !is_version(q, slot.0, slot.1),
        forall|q: Record<K, V>| #[trigger]
            map@.contains(q) && is_version(q, slot.0, slot.1) ==> r == Some(&q.1),
{
    assert forall|q: Record<K, V>| #[trigger] is_version(q, slot.0, slot.1) == slot_eq(
        q.0,
        slot,
    ) by {}
    lemma_one_of_slot(map, slot);
    if let Some(value) = r {
        let w = choose|w: Record<K, V>| #[trigger]
            map@.contains(w) && slot_eq(w.0, slot) && w.1 == *value;
        assert(is_version(w, slot.0, slot.1));
    }
}

/// Of one slot a version map holds one record.
proof fn lemma_one_of_slot<K: Ord, V>(map: VersionMap<K, V>, slot: Slot<K>)
    requires
        map.wf(),
    ensures
        forall|a: Record<K, V>, b: Record<K, V>|
            #![trigger map@.contains(a), map@.contains(b)]
            map@.contains(a) && map@.contains(b) && slot_eq(a.0, slot) && slot_eq(b.0, slot) ==> a
                == b,
{
    assert forall|a: Record<K, V>, b: Record<K, V>|
        #![trigger map@.contains(a), map@.contains(b)]
        map@.contains(a) && map@.contains(b) && slot_eq(a.0, slot) && slot_eq(
            b.0,
            slot,
        ) implies a == b by {
        lemma_slot_trichotomy(b.0, slot);
        lemma_slot_transitive(a.0, slot, b.0);
        lemma_slot_unique(map@, a, b);
    }
}

/// Writing to a version map writes one version and no other, and hands back what it replaced.
pub proof fn law_version_map_insert<K: Ord, V>(
    map: &mut VersionMap<K, V>,
    slot: Slot<K>,
    value: Option<V>,
    r: Option<Option<V>>,
)
    requires
        old(map).wf(),
        call_ensures(VersionMap::<K, V>::insert, (map, slot, value), r),
    ensures
        only_wrote(old(map)@, final(map)@, slot.0, slot.1, value),
        final(map).wf(),
        r is None <==> forall|q: Record<K, V>| #[trigger]
            old(map)@.contains(q) ==> !is_version(q, slot.0, slot.1),
        forall|q: Record<K, V>| #[trigger]
            old(map)@.contains(q) && is_version(q, slot.0, slot.1) ==> r == Some(q.1),
{
    lemma_only_wrote(map@, slot, value);
    assert forall|q: Record<K, V>| #[trigger] is_version(q, slot.0, slot.1) == slot_eq(
        q.0,
        slot,
    ) by {}
    lemma_one_of_slot(*map, slot);
    if let Some(before) = r {
        let w = choose|w: Record<K, V>| #[trigger]
            map@.contains(w) && slot_eq(w.0, slot) && w.1 == before;
        assert(is_version(w, slot.0, slot.1));
    }
}

/// Extending a version map writes all changes, in their order, and nothing else. Its records come
/// out by key, of one key the newest first.
pub proof fn law_version_map_extend<K: Ord, V>(
    map: &mut VersionMap<K, V>,
    changes: Vec<Record<K, V>>,
)
    requires
        old(map).wf(),
        call_ensures(VersionMap::<K, V>::extend, (map, changes), ()),
    ensures
        wrote_all(old(map)@, final(map)@, changes@),
        final(map).wf(),
        forall|records: Vec<Record<K, V>>| #[trigger]
            call_ensures(VersionMap::<K, V>::into_records, (*final(map),), records) ==> records@
                == final(map)@ && newest_first(records@),
{
    lemma_wrote_all(map@, changes@);
    let t = final(map)@;
    assert(newest_first(t)) by {
        assert forall|i: int, j: int| 0 <= i < j < t.len() implies key_lt(
            (#[trigger] t[i]).0.0,
            (#[trigger] t[j]).0.0,
        ) || (key_eq(t[i].0.0, t[j].0.0) && (t[i].0.1.seq > t[j].0.1.seq || (t[i].0.1.seq
            == t[j].0.1.seq && t[i].0.1.marked is TombStone && !(
        t[j].0.1.marked is TombStone)))) by {
            assert(slot_lt(t[i].0, t[j].0));
        }
    }
}

/// The records stand by key, and of one key the newest first, a deletion before a value with the
/// same number.
pub open spec fn newest_first<K: Ord, V>(s: Seq<Record<K, V>>) -> bool {
    forall|i: int, j: int|
        0 <= i < j < s.len() ==> key_lt((#[trigger] s[i]).0.0, (#[trigger] s[j]).0.0) || (key_eq(
            s[i].0.0,
            s[j].0.0,
        ) && (s[i].0.1.seq > s[j].0.1.seq || (s[i].0.1.seq == s[j].0.1.seq
            && s[i].0.1.marked is TombStone && !(s[j].0.1.marked is TombStone))))
}

/// A version map counts its records as they stand.
pub proof fn law_version_map_count<K: Ord, V>(map: VersionMap<K, V>, len: usize, empty: bool)
    requires
        call_ensures(VersionMap::<K, V>::len, (&map,), len),
        call_ensures(VersionMap::<K, V>::is_empty, (&map,), empty),
    ensures
        len == map@.len(),
        empty <==> map@.len() == 0,
{
}

/// A version map hands out its records by their number.
pub proof fn law_version_map_at<K: Ord, V>(map: VersionMap<K, V>, i: usize, record: &Record<K, V>)
    requires
        call_ensures(VersionMap::<K, V>::at, (&map, i), record),
    ensures
        *record == map@[i as int],
{
}

/// A sequence number holds what it was made of, and the first and the last order are the first
/// and the last: nothing comes before the one or after the other.
pub proof fn law_first_and_last(
    seq: u64,
    number: InternalSeq,
    first: SeqMarked<()>,
    last: SeqMarked<()>,
    any: SeqMarked<()>,
)
    requires
        call_ensures(InternalSeq::new, (seq,), number),
        call_ensures(SeqMarked::<()>::zero, (), first),
        call_ensures(SeqMarked::<()>::max_value, (), last),
    ensures
        number.seq == seq,
        is_not_after(first, any),
        is_not_after(any, last),
{
}

/// The position of a slot parts the records that stand before it from those that do not: those of
/// smaller keys, and the newer ones of its key.
pub proof fn law_version_map_position<K: Ord, V>(
    map: VersionMap<K, V>,
    key: K,
    mark: SeqMarked<()>,
    r: usize,
)
    requires
        map.wf(),
        call_ensures(VersionMap::<K, V>::position, (&map, &key, &mark), r),
    ensures
        r <= map@.len(),
        forall|i: int|
            0 <= i < map@.len() ==> (i < r <==> (key_lt((#[trigger] map@[i]).0.0, key) || (key_eq(
                map@[i].0.0,
                key,
            ) && !is_not_after(map@[i].0.1, mark)))),
{
    assert forall|i: int| 0 <= i < map@.len() implies (i < r <==> (key_lt(
        (#[trigger] map@[i]).0.0,
        key,
    ) || (key_eq(map@[i].0.0, key) && !is_not_after(map@[i].0.1, mark)))) by {
        assert(slot_lt(map@[i].0, (key, mark)) <==> (key_lt(map@[i].0.0, key)
            || (key_eq(map@[i].0.0, key) && !is_not_after(map@[i].0.1, mark))));
    }
}

} // verus!
