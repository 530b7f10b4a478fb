//! Laws of reading.

use crate::map_key::{faithful_clone, MapKey};
use crate::order::{key_eq, key_lt, lemma_key_transitive, lemma_key_trichotomy, ordered};
use crate::read_at_seq::items_cloned;
use crate::seq_marked::SeqMarked;
use crate::util::{at_key, keys_ascend, lemma_at_key};
use crate::versions::{slot_lt, sorted, Record};
use crate::visibility::{
    in_view, is_shown, lemma_is_shown, lemma_same_start, lemma_shown_unique, newest, read, scan,
    shown, within, KeyRange,
};
use std::ops::Bound;
use vstd::prelude::*;

verus! {

/// Filtering sorted records leaves them sorted, and leaves none that was not there.
pub proof fn lemma_filter_sorted<K: Ord, V>(
    s: Seq<Record<K, V>>,
    p: spec_fn(Record<K, V>) -> bool,
)
    requires
        sorted(s),
    ensures
        sorted(s.filter(p)),
        forall|i: int|
            0 <= i < s.filter(p).len() ==> s.contains(#[trigger] s.filter(p)[i]) && p(
                s.filter(p)[i],
            ),
    decreases s.len(),
{
    reveal(Seq::filter);
    if s.len() > 0 {
        let rest = s.drop_last();
        lemma_filter_sorted(rest, p);
        let f = s.filter(p);
        let g = rest.filter(p);
        assert forall|i: int| 0 <= i < f.len() implies s.contains(#[trigger] f[i]) && p(f[i]) by {
            if i < g.len() {
                assert(f[i] == g[i]);
                let j = choose|j: int| 0 <= j < rest.len() && rest[j] == g[i];
                assert(s[j] == g[i]);
            } else {
                assert(f[i] == s.last());
                assert(s[s.len() - 1] == f[i]);
            }
        }
        assert forall|i: int, j: int| 0 <= i < j < f.len() implies slot_lt(
            (#[trigger] f[i]).0,
            (#[trigger] f[j]).0,
        ) by {
            if j < g.len() {
                assert(f[i] == g[i] && f[j] == g[j]);
            } else {
                assert(f[i] == g[i]);
                let k = choose|k: int| 0 <= k < rest.len() && rest[k] == g[i];
                assert(s[k] == g[i]);
                assert(slot_lt(s[k].0, s[s.len() - 1].0));
            }
        }
    }
}

/// A range read hands out each key once, in the order of the keys.
pub proof fn lemma_scan_ascends<K: Ord, V>(s: Seq<Record<K, V>>, range: KeyRange<K>, upto: u64)
    requires
        ordered::<K>(),
        sorted(s),
    ensures
        keys_ascend(scan(s, range, upto)),
{
    let p = in_view(s, range, upto);
    let f = s.filter(p);
    lemma_filter_sorted(s, p);
    let items = scan(s, range, upto);
    assert forall|i: int, j: int| 0 <= i < j < items.len() implies key_lt(
        (#[trigger] items[i]).0,
        (#[trigger] items[j]).0,
    ) by {
        assert(s.contains(f[i]) && p(f[i]));
        assert(s.contains(f[j]) && p(f[j]));
        assert(slot_lt(f[i].0, f[j].0));
        assert(newest(s, upto, f[j]));
    }
}

/// Clones of items whose keys ascend ascend too.
pub proof fn lemma_clones_ascend<K: MapKey>(
    a: Seq<(K, SeqMarked<K::V>)>,
    b: Seq<(K, SeqMarked<K::V>)>,
)
    requires
        ordered::<K>(),
        faithful_clone::<K>(),
        items_cloned(a, b),
        keys_ascend(a),
    ensures
        keys_ascend(b),
{
    assert forall|i: int, j: int| 0 <= i < j < b.len() implies key_lt(
        (#[trigger] b[i]).0,
        (#[trigger] b[j]).0,
    ) by {
        assert(cloned(a[i].0, b[i].0) && cloned(a[j].0, b[j].0));
        assert(key_lt(a[i].0, a[j].0));
        lemma_key_trichotomy(a[i].0, b[i].0);
        lemma_key_transitive(b[i].0, a[i].0, a[j].0);
        lemma_key_transitive(b[i].0, a[j].0, b[j].0);
    }
}

/// One key does not lie both within a range and outside of it.
pub proof fn lemma_within_same<K: Ord>(range: KeyRange<K>, a: K, b: K)
    requires
        ordered::<K>(),
        key_eq(a, b),
    ensures
        within(range, a) == within(range, b),
{
    lemma_same_start(range.0, a, b);
    lemma_key_trichotomy(a, b);
    match range.1 {
        Bound::Included(k) => {
            lemma_key_transitive(k, a, b);
            lemma_key_transitive(k, b, a);
        },
        Bound::Excluded(k) => {
            lemma_key_transitive(a, b, k);
            lemma_key_transitive(b, a, k);
        },
        Bound::Unbounded => {},
    }
}

/// A range read says of a key of the range what a read of that key gives, and says nothing of
/// other keys, nor of keys that have no version to be seen.
pub proof fn law_range_agrees_with_get<K: Ord, V>(
    s: Seq<Record<K, V>>,
    range: KeyRange<K>,
    upto: u64,
    key: K,
)
    requires
        ordered::<K>(),
        sorted(s),
    ensures
        at_key(scan(s, range, upto), key) == if within(range, key) && is_shown(s, key, upto) {
            Some(read(s, key, upto))
        } else {
            None
        },
{
    let p = in_view(s, range, upto);
    let f = s.filter(p);
    let items = scan(s, range, upto);
    lemma_filter_sorted(s, p);
    lemma_scan_ascends(s, range, upto);
    if exists|i: int| 0 <= i < items.len() && key_eq((#[trigger] items[i]).0, key) {
        let i = choose|i: int| 0 <= i < items.len() && key_eq((#[trigger] items[i]).0, key);
        assert(s.contains(f[i]) && p(f[i]));
        assert(shown(s, key, upto, f[i]));
        lemma_shown_unique(s, key, upto, f[i], f[i]);
        lemma_within_same(range, f[i].0.0, key);
        lemma_at_key(items, key, i);
    } else if within(range, key) && is_shown(s, key, upto) {
        let r = choose|r: Record<K, V>| shown(s, key, upto, r);
        lemma_within_same(range, r.0.0, key);
        let j = choose|j: int| 0 <= j < s.len() && s[j] == r;
        assert(p(s[j]));
        s.lemma_filter_contains(p, j);
        let i = choose|i: int| 0 <= i < f.len() && f[i] == r;
        assert(items[i].0 == r.0.0);
    }
}

/// What a reader sees is not newer than the reader.
pub proof fn law_read_is_not_too_new<K: Ord, V>(s: Seq<Record<K, V>>, key: K, upto: u64)
    ensures
        read(s, key, upto).seq <= upto,
{
}

/// A reader sees no older version of a key than an earlier reader does.
pub proof fn law_reads_advance<K: Ord, V>(s: Seq<Record<K, V>>, key: K, upto: u64, later: u64)
    requires
        ordered::<K>(),
        sorted(s),
        upto <= later,
        is_shown(s, key, upto),
    ensures
        is_shown(s, key, later),
        read(s, key, upto).rank() <= read(s, key, later).rank(),
{
    let a = choose|r: Record<K, V>| shown(s, key, upto, r);
    lemma_is_shown(s, key, later);
    assert(s.contains(a));
    let b = choose|r: Record<K, V>| shown(s, key, later, r);
    lemma_key_trichotomy(b.0.0, key);
    lemma_key_transitive(a.0.0, key, b.0.0);
    assert(a.0.1.rank() <= b.0.1.rank());
}

} // verus!
