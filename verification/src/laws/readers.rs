//! What readers and snapshots hand out, said of the versions themselves.

use crate::io_result::{may_read_in_turn, may_succeed, oks, IOResultStream};
use crate::laws::tables::{
    absent, lemma_read_is_told, lemma_scan_is_told, sees, sees_nothing, tells, told, told_range,
};
use crate::map_key::MapKey;
use crate::read_at_seq::{GetAtSeq, RangeAtSeq};
use crate::seq_marked::{InternalSeq, Marked, SeqMarked};
use crate::snapshot::Snapshot;
use crate::table::Table;
use crate::versions::Record;
use crate::visibility::{read, scan, KeyRange};
use std::io;
use vstd::prelude::*;

verus! {

/// `value` has the sequence number of `r` and a clone of its value, or is a deletion as `r` is.
pub open spec fn tells_clone<K, V: Clone>(r: Record<K, V>, value: SeqMarked<V>) -> bool {
    &&& value.seq == r.0.1.seq
    &&& match value.marked {
        Marked::Normal(data) => {
            &&& !(r.0.1.marked is TombStone)
            &&& r.1 matches Some(own) ==> cloned(own, data)
        },
        Marked::TombStone => r.0.1.marked is TombStone,
    }
}

/// `value` is a clone of what a reader at `upto` is to be told of `key`.
pub open spec fn told_clone<K: Ord, V: Clone>(
    s: Seq<Record<K, V>>,
    key: K,
    upto: u64,
    value: SeqMarked<V>,
) -> bool {
    ||| exists|r: Record<K, V>| #[trigger] sees(s, key, upto, r) && tells_clone(r, value)
    ||| sees_nothing(s, key, upto) && absent(value)
}

/// `b` has the sequence number of `a` and a clone of its data, or is a deletion as `a` is.
pub open spec fn is_clone<V: Clone>(a: SeqMarked<V>, b: SeqMarked<V>) -> bool {
    &&& a.seq == b.seq
    &&& match a.marked {
        Marked::Normal(x) => b.marked matches Marked::Normal(y) && cloned(x, y),
        Marked::TombStone => b.marked is TombStone,
    }
}

/// `items` did not fail, and are clones of the keys and values of `plain`, one for one.
pub open spec fn are_clones<K: Clone, V: Clone>(
    plain: Seq<(K, SeqMarked<V>)>,
    items: Seq<Result<(K, SeqMarked<V>), io::Error>>,
) -> bool {
    &&& items.len() == plain.len()
    &&& forall|i: int|
        0 <= i < items.len() ==> {
            &&& (#[trigger] items[i]) is Ok
            &&& cloned(plain[i].0, items[i]->Ok_0.0)
            &&& is_clone(plain[i].1, items[i]->Ok_0.1)
        }
}

/// `items` are clones of what a reader at `upto` is to be told of the keys of `range`.
pub open spec fn told_range_clone<K: Ord + Clone, V: Clone>(
    s: Seq<Record<K, V>>,
    range: KeyRange<K>,
    upto: u64,
    items: Seq<Result<(K, SeqMarked<V>), io::Error>>,
) -> bool {
    exists|plain: Seq<(K, SeqMarked<V>)>| #[trigger]
        told_range(s, range, upto, plain) && are_clones(plain, items)
}

/// A clone of what a reader is told is a clone of the version.
pub proof fn lemma_told_clone<K: Ord, V: Clone>(
    s: Seq<Record<K, V>>,
    key: K,
    upto: u64,
    a: SeqMarked<V>,
    b: SeqMarked<V>,
)
    requires
        told(s, key, upto, a),
        is_clone(a, b),
    ensures
        told_clone(s, key, upto, b),
{
    if !(sees_nothing(s, key, upto) && absent(a)) {
        let r = choose|r: Record<K, V>| #[trigger] sees(s, key, upto, r) && tells(r, a);
        assert(sees(s, key, upto, r) && tells_clone(r, b));
    }
}

/// Asking a table for a key does not fail, and gives a clone of what a reader is to be told.
pub proof fn law_table_get_at_seq<K: MapKey>(
    t: Table<K, K::V>,
    key: K,
    upto: u64,
    r: Result<SeqMarked<K::V>, io::Error>,
)
    requires
        t.wf(),
        call_ensures(<Table<K, K::V> as GetAtSeq<K>>::get_at_seq, (&t, key, upto), r),
    ensures
        r matches Ok(value) && told_clone(t.inner@, key, upto, value),
{
    lemma_read_is_told(t.inner@, key, upto);
    lemma_told_clone(t.inner@, key, upto, read(t.inner@, key, upto), r->Ok_0);
}

/// Asking a table for many keys does not fail, and gives as many answers as keys, each a clone of
/// what a reader is to be told of the key at its place.
pub proof fn law_table_get_many_at_seq<K: MapKey>(
    t: Table<K, K::V>,
    keys: Vec<K>,
    upto: u64,
    r: Result<Vec<SeqMarked<K::V>>, io::Error>,
)
    requires
        t.wf(),
        call_ensures(<Table<K, K::V> as GetAtSeq<K>>::get_many_at_seq, (&t, keys, upto), r),
    ensures
        r is Ok,
        r->Ok_0@.len() == keys@.len(),
        forall|i: int|
            0 <= i < keys@.len() ==> told_clone(
                t.inner@,
                #[trigger] keys@[i],
                upto,
                r->Ok_0@[i],
            ),
{
    let values = r->Ok_0@;
    assert forall|i: int| 0 <= i < keys@.len() implies told_clone(
        t.inner@,
        #[trigger] keys@[i],
        upto,
        values[i],
    ) by {
        assert(t.may_get_at(keys@[i], upto, Ok(values[i])));
        lemma_read_is_told(t.inner@, keys@[i], upto);
        lemma_told_clone(t.inner@, keys@[i], upto, read(t.inner@, keys@[i], upto), values[i]);
    }
}

/// Asking a table for a range does not fail, and gives clones of what a reader is to be told of
/// the keys of the range.
pub proof fn law_table_range_at_seq<K: MapKey>(
    t: Table<K, K::V>,
    range: KeyRange<K>,
    upto: u64,
    r: Result<IOResultStream<(K, SeqMarked<K::V>)>, io::Error>,
)
    requires
        t.wf(),
        call_ensures(<Table<K, K::V> as RangeAtSeq<K>>::range_at_seq, (&t, range, upto), r),
    ensures
        r matches Ok(items) && told_range_clone(t.inner@, range, upto, items@),
{
    lemma_range_answer(t, range, upto, r);
}

proof fn lemma_range_answer<K: MapKey>(
    t: Table<K, K::V>,
    range: KeyRange<K>,
    upto: u64,
    r: Result<IOResultStream<(K, SeqMarked<K::V>)>, io::Error>,
)
    requires
        t.wf(),
        t.may_range_at(range, upto, r),
    ensures
        r matches Ok(items) && told_range_clone(t.inner@, range, upto, items@),
{
    let plain = scan(t.inner@, range, upto);
    let items = r->Ok_0@;
    lemma_scan_is_told(t.inner@, range, upto);
    assert forall|i: int| 0 <= i < items.len() implies {
        &&& (#[trigger] items[i]) is Ok
        &&& cloned(plain[i].0, items[i]->Ok_0.0)
        &&& is_clone(plain[i].1, items[i]->Ok_0.1)
    } by {
        assert(oks(items)[i] == items[i]->Ok_0);
    }
    assert(are_clones(plain, items));
}

/// The reader may answer for `key`.
pub open spec fn can_answer<K: MapKey, D: GetAtSeq<K>>(data: D, key: K, upto: u64) -> bool {
    exists|value: SeqMarked<K::V>| #[trigger] data.may_get_at(key, upto, Ok(value))
}

/// What asking a reader for many keys hands back: an answer for each key, in the order of the
/// keys, or the failure of one of them.
pub open spec fn answers_each<K: MapKey, D: GetAtSeq<K>>(
    data: D,
    keys: Seq<K>,
    upto: u64,
    r: Result<Vec<SeqMarked<K::V>>, io::Error>,
) -> bool {
    match r {
        Ok(values) => {
            &&& values@.len() == keys.len()
            &&& forall|i: int|
                0 <= i < keys.len() ==> data.may_get_at(#[trigger] keys[i], upto, Ok(values@[i]))
        },
        Err(e) => exists|n: int|
            {
                &&& 0 <= n < keys.len()
                &&& data.may_get_at(#[trigger] keys[n], upto, Err(e))
                &&& forall|i: int| 0 <= i < n ==> can_answer(data, #[trigger] keys[i], upto)
            },
    }
}

/// Asking a reader for many keys gives an answer for each, however many there are, unless the
/// reader fails for one of them.
pub proof fn law_get_many_at_seq<K: MapKey, D: GetAtSeq<K>>(
    data: D,
    keys: Vec<K>,
    upto: u64,
    r: Result<Vec<SeqMarked<K::V>>, io::Error>,
)
    requires
        call_ensures(<D as GetAtSeq<K>>::get_many_at_seq, (&data, keys, upto), r),
    ensures
        answers_each(data, keys@, upto, r),
        (forall|i: int, e: io::Error|
            0 <= i < keys@.len() ==> !#[trigger] data.may_get_at(keys@[i], upto, Err(e)))
            ==> r is Ok,
{
    lemma_answers_each(data, keys@, upto, r);
}

proof fn lemma_answers_each<K: MapKey, D: GetAtSeq<K>>(
    data: D,
    keys: Seq<K>,
    upto: u64,
    r: Result<Vec<SeqMarked<K::V>>, io::Error>,
)
    requires
        may_read_in_turn(
            |key: K, got: Result<SeqMarked<K::V>, io::Error>| data.may_get_at(key, upto, got),
            keys,
            r,
        ),
    ensures
        answers_each(data, keys, upto, r),
{
    let may = |key: K, got: Result<SeqMarked<K::V>, io::Error>| data.may_get_at(key, upto, got);
    match r {
        Ok(values) => {
            assert forall|i: int| 0 <= i < keys.len() implies data.may_get_at(
                #[trigger] keys[i],
                upto,
                Ok(values@[i]),
            ) by {
                assert(may(keys[i], Ok(values@[i])));
            }
        },
        Err(e) => {
            let n = choose|n: int|
                {
                    &&& 0 <= n < keys.len()
                    &&& may(#[trigger] keys[n], Err(e))
                    &&& forall|i: int| 0 <= i < n ==> may_succeed(may, #[trigger] keys[i])
                };
            assert(data.may_get_at(keys[n], upto, Err(e)));
            assert forall|i: int| 0 <= i < n implies can_answer(data, #[trigger] keys[i], upto) by {
                assert(may_succeed(may, keys[i]));
                let value = choose|value: SeqMarked<K::V>| #[trigger] may(keys[i], Ok(value));
                assert(data.may_get_at(keys[i], upto, Ok(value)));
            }
        },
    }
}

/// A snapshot keeps its reader and its number.
pub proof fn law_snapshot_parts<K, D>(
    seq: InternalSeq,
    data: D,
    snapshot: Snapshot<K, D>,
    got_seq: InternalSeq,
    got_data: D,
)
    requires
        call_ensures(Snapshot::<K, D>::new, (seq, data), snapshot),
        call_ensures(Snapshot::<K, D>::snapshot_seq, (&snapshot,), got_seq),
        call_ensures(Snapshot::<K, D>::into_data, (snapshot,), got_data),
    ensures
        got_seq.seq == seq.seq,
        got_data == data,
{
}

/// A read of a snapshot asks its reader for the key at the snapshot's number.
pub proof fn law_snapshot_get<K: MapKey, D: GetAtSeq<K> + RangeAtSeq<K>>(
    snapshot: Snapshot<K, D>,
    key: K,
    r: Result<SeqMarked<K::V>, io::Error>,
)
    requires
        call_ensures(Snapshot::<K, D>::get, (&snapshot, key), r),
    ensures
        snapshot.data.may_get_at(key, snapshot.snapshot_seq.seq, r),
{
}

/// Reading many keys of a snapshot gives an answer for each, however many there are, unless the
/// reader fails for one of them.
pub proof fn law_snapshot_get_many<K: MapKey, D: GetAtSeq<K> + RangeAtSeq<K>>(
    snapshot: Snapshot<K, D>,
    keys: Vec<K>,
    r: Result<Vec<SeqMarked<K::V>>, io::Error>,
)
    requires
        call_ensures(Snapshot::<K, D>::get_many, (&snapshot, keys), r),
    ensures
        answers_each(snapshot.data, keys@, snapshot.snapshot_seq.seq, r),
        (forall|i: int, e: io::Error|
            0 <= i < keys@.len() ==> !#[trigger] snapshot.data.may_get_at(
                keys@[i],
                snapshot.snapshot_seq.seq,
                Err(e),
            )) ==> r is Ok,
{
    lemma_answers_each(snapshot.data, keys@, snapshot.snapshot_seq.seq, r);
}

/// A range read of a snapshot asks its reader for the range at the snapshot's number.
pub proof fn law_snapshot_range<K: MapKey, D: GetAtSeq<K> + RangeAtSeq<K>>(
    snapshot: Snapshot<K, D>,
    range: KeyRange<K>,
    r: Result<IOResultStream<(K, SeqMarked<K::V>)>, io::Error>,
)
    requires
        call_ensures(Snapshot::<K, D>::range, (&snapshot, range), r),
    ensures
        snapshot.data.may_range_at(range, snapshot.snapshot_seq.seq, r),
{
}

/// Reads of a snapshot of a table do not fail. They give clones of what a reader at the snapshot's
/// number is to be told, of each key as many as asked for, and of the keys of a range.
pub proof fn law_table_snapshot<K: MapKey>(
    snapshot: Snapshot<K, Table<K, K::V>>,
    key: K,
    got: Result<SeqMarked<K::V>, io::Error>,
    keys: Vec<K>,
    many: Result<Vec<SeqMarked<K::V>>, io::Error>,
    range: KeyRange<K>,
    items: Result<IOResultStream<(K, SeqMarked<K::V>)>, io::Error>,
)
    requires
        snapshot.data.wf(),
        call_ensures(Snapshot::<K, Table<K, K::V>>::get, (&snapshot, key), got),
        call_ensures(Snapshot::<K, Table<K, K::V>>::get_many, (&snapshot, keys), many),
        call_ensures(Snapshot::<K, Table<K, K::V>>::range, (&snapshot, range), items),
    ensures
        got matches Ok(value) && told_clone(
            snapshot.data.inner@,
            key,
            snapshot.snapshot_seq.seq,
            value,
        ),
        many is Ok,
        many->Ok_0@.len() == keys@.len(),
        forall|i: int|
            0 <= i < keys@.len() ==> told_clone(
                snapshot.data.inner@,
                #[trigger] keys@[i],
                snapshot.snapshot_seq.seq,
                many->Ok_0@[i],
            ),
        items matches Ok(stream) && told_range_clone(
            snapshot.data.inner@,
            range,
            snapshot.snapshot_seq.seq,
            stream@,
        ),
{
    let s = snapshot.data.inner@;
    let upto = snapshot.snapshot_seq.seq;
    lemma_read_is_told(s, key, upto);
    lemma_told_clone(s, key, upto, read(s, key, upto), got->Ok_0);
    lemma_answers_each(snapshot.data, keys@, upto, many);
    let values = many->Ok_0@;
    assert forall|i: int| 0 <= i < keys@.len() implies told_clone(
        s,
        #[trigger] keys@[i],
        upto,
        values[i],
    ) by {
        assert(snapshot.data.may_get_at(keys@[i], upto, Ok(values[i])));
        lemma_read_is_told(s, keys@[i], upto);
        lemma_told_clone(s, keys@[i], upto, read(s, keys@[i], upto), values[i]);
    }
    lemma_range_answer(snapshot.data, range, upto, items);
}

} // verus!
