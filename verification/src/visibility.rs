//! What a reader sees of a set of versions.
//!
//! A reader at a sequence number sees, of each key, the newest version that is not newer
//! than that number. The order of versions puts a deletion after a value with the same
//! number, so a deletion hides the value that was written with it.

use crate::order::{key_eq, key_less, key_lt, lemma_key_transitive, lemma_key_trichotomy, ordered};
use crate::seq_marked::{tombstone_mark, Marked, SeqMarked};
use crate::versions::{
    extended, inserted, lemma_inserted, lemma_position, lemma_slot_unique, position, slot_lt,
    sorted, Record, Slot,
};
use std::ops::Bound;
use vstd::prelude::*;

verus! {

/// The end of a range of keys, as the standard library has it.
#[verifier::external_type_specification]
pub struct ExBound<T>(Bound<T>);

/// A range of keys: where it starts and where it ends.
pub type KeyRange<K> = (Bound<K>, Bound<K>);

/// `key` does not lie before the start of a range.
pub open spec fn from_start<K: Ord>(start: Bound<K>, key: K) -> bool {
    match start {
        Bound::Included(k) => !key_lt(key, k),
        Bound::Excluded(k) => key_lt(k, key),
        Bound::Unbounded => true,
    }
}

/// `key` does not lie behind the end of a range.
pub open spec fn to_end<K: Ord>(end: Bound<K>, key: K) -> bool {
    match end {
        Bound::Included(k) => !key_lt(k, key),
        Bound::Excluded(k) => key_lt(key, k),
        Bound::Unbounded => true,
    }
}

/// `key` lies in the range.
pub open spec fn within<K: Ord>(range: KeyRange<K>, key: K) -> bool {
    from_start(range.0, key) && to_end(range.1, key)
}

/// The range does not start behind its end, and where it starts and ends at one key it does
/// not leave that key out twice.
pub open spec fn valid_range<K: Ord>(range: KeyRange<K>) -> bool {
    match range {
        (Bound::Excluded(a), Bound::Excluded(b)) => key_lt(a, b),
        (Bound::Included(a) | Bound::Excluded(a), Bound::Included(b) | Bound::Excluded(b)) =>
            !key_lt(b, a),
        _ => true,
    }
}

/// `r` is the newest version of its key that a reader at `upto` sees among `s`.
pub open spec fn newest<K: Ord, V>(s: Seq<Record<K, V>>, upto: u64, r: Record<K, V>) -> bool {
    &&& r.0.1.seq <= upto
    &&& forall|q: Record<K, V>| #[trigger]
        s.contains(q) && key_eq(q.0.0, r.0.0) && q.0.1.seq <= upto ==> q.0.1.rank()
            <= r.0.1.rank()
}

/// `r` is the version of `key` that a reader at `upto` sees.
pub open spec fn shown<K: Ord, V>(
    s: Seq<Record<K, V>>,
    key: K,
    upto: u64,
    r: Record<K, V>,
) -> bool {
    s.contains(r) && key_eq(r.0.0, key) && newest(s, upto, r)
}

/// What a version says: its value with its sequence number, or that it is a deletion.
pub open spec fn content<K, V>(r: Record<K, V>) -> SeqMarked<V> {
    SeqMarked {
        seq: r.0.1.seq,
        marked: if r.0.1.marked is TombStone {
            Marked::TombStone
        } else {
            Marked::Normal(r.1->0)
        },
    }
}

/// A version that is no deletion has a value.
pub open spec fn has_value<K, V>(r: Record<K, V>) -> bool {
    r.0.1.marked is Normal ==> r.1 is Some
}

/// Every version that is no deletion has a value.
pub open spec fn complete<K, V>(s: Seq<Record<K, V>>) -> bool {
    forall|r: Record<K, V>| #[trigger] s.contains(r) ==> has_value(r)
}

/// The version of `key` that a reader at `upto` sees has a value, unless it is a deletion.
pub open spec fn readable<K: Ord, V>(s: Seq<Record<K, V>>, key: K, upto: u64) -> bool {
    forall|r: Record<K, V>| shown(s, key, upto, r) ==> has_value(r)
}

/// A reader at `upto` sees some version of `key`.
pub open spec fn is_shown<K: Ord, V>(s: Seq<Record<K, V>>, key: K, upto: u64) -> bool {
    exists|r: Record<K, V>| shown(s, key, upto, r)
}

/// What a reader at `upto` sees of `key`.
pub open spec fn read<K: Ord, V>(s: Seq<Record<K, V>>, key: K, upto: u64) -> SeqMarked<V> {
    if is_shown(s, key, upto) {
        content(choose|r: Record<K, V>| shown(s, key, upto, r))
    } else {
        SeqMarked { seq: 0, marked: Marked::TombStone }
    }
}

/// The versions that a reader at `upto` sees of the keys of `range`.
pub open spec fn in_view<K: Ord, V>(
    s: Seq<Record<K, V>>,
    range: KeyRange<K>,
    upto: u64,
) -> spec_fn(Record<K, V>) -> bool {
    |r: Record<K, V>| within(range, r.0.0) && newest(s, upto, r)
}

/// What a reader at `upto` sees of the keys of `range`, key by key in the order of the keys.
pub open spec fn scan<K: Ord, V>(s: Seq<Record<K, V>>, range: KeyRange<K>, upto: u64) -> Seq<
    (K, SeqMarked<V>),
> {
    s.filter(in_view(s, range, upto)).map_values(|r: Record<K, V>| (r.0.0, content(r)))
}

/// The versions that a reader at `upto` sees of the keys of `range` have values, unless they
/// are deletions.
pub open spec fn range_readable<K: Ord, V>(
    s: Seq<Record<K, V>>,
    range: KeyRange<K>,
    upto: u64,
) -> bool {
    forall|r: Record<K, V>| #[trigger]
        s.contains(r) && in_view(s, range, upto)(r) ==> has_value(r)
}

/// A reader sees at most one version of a key.
pub proof fn lemma_shown_unique<K: Ord, V>(
    s: Seq<Record<K, V>>,
    key: K,
    upto: u64,
    a: Record<K, V>,
    b: Record<K, V>,
)
    requires
        ordered::<K>(),
        sorted(s),
        shown(s, key, upto, a),
        shown(s, key, upto, b),
    ensures
        a == b,
        read(s, key, upto) == content(a),
{
    let c = choose|r: Record<K, V>| shown(s, key, upto, r);
    lemma_same_shown(s, key, upto, a, b);
    lemma_same_shown(s, key, upto, a, c);
}

proof fn lemma_same_shown<K: Ord, V>(
    s: Seq<Record<K, V>>,
    key: K,
    upto: u64,
    a: Record<K, V>,
    b: Record<K, V>,
)
    requires
        ordered::<K>(),
        sorted(s),
        shown(s, key, upto, a),
        shown(s, key, upto, b),
    ensures
        a == b,
{
    lemma_key_trichotomy(a.0.0, key);
    lemma_key_trichotomy(b.0.0, key);
    lemma_key_transitive(a.0.0, key, b.0.0);
    lemma_key_transitive(b.0.0, key, a.0.0);
    lemma_slot_unique(s, a, b);
}

/// The version that a reader sees stands where a deletion of the key at the reader's number
/// would stand, if any version does.
pub proof fn lemma_shown_at_position<K: Ord, V>(s: Seq<Record<K, V>>, key: K, upto: u64)
    requires
        ordered::<K>(),
        sorted(s),
    ensures
        ({
            let i = position(s, (key, tombstone_mark(upto)));
            &&& 0 <= i <= s.len()
            &&& (i < s.len() && key_eq(s[i].0.0, key)) ==> shown(s, key, upto, s[i])
            &&& !(i < s.len() && key_eq(s[i].0.0, key)) ==> forall|q: Record<K, V>|
                !(#[trigger] s.contains(q) && key_eq(q.0.0, key) && q.0.1.seq <= upto)
        }),
{
    let slot = (key, tombstone_mark(upto));
    let i = position(s, slot);
    lemma_position(s, slot);
    assert forall|j: int|
        0 <= j < s.len() && key_eq((#[trigger] s[j]).0.0, key) && s[j].0.1.seq <= upto implies i
        <= j by {
        lemma_key_trichotomy(s[j].0.0, key);
    }
    if i < s.len() && key_eq(s[i].0.0, key) {
        assert(!slot_lt(s[i].0, slot));
        assert(s[i].0.1.seq <= upto);
        assert forall|q: Record<K, V>| #[trigger]
            s.contains(q) && key_eq(q.0.0, s[i].0.0) && q.0.1.seq <= upto implies q.0.1.rank()
            <= s[i].0.1.rank() by {
            let j = choose|j: int| 0 <= j < s.len() && s[j] == q;
            lemma_key_transitive(q.0.0, s[i].0.0, key);
            assert(i <= j);
            lemma_key_trichotomy(s[i].0.0, s[j].0.0);
            if i < j {
                assert(slot_lt(s[i].0, s[j].0));
            }
        }
        assert(s.contains(s[i]));
    } else {
        assert forall|q: Record<K, V>|
            !(#[trigger] s.contains(q) && key_eq(q.0.0, key) && q.0.1.seq <= upto) by {
            if s.contains(q) && key_eq(q.0.0, key) && q.0.1.seq <= upto {
                let j = choose|j: int| 0 <= j < s.len() && s[j] == q;
                assert(i <= j);
                lemma_key_trichotomy(s[i].0.0, key);
                lemma_key_trichotomy(s[j].0.0, key);
                if i < j {
                    // s[i] is not before the slot, so its key comes after `key`
                    assert(slot_lt(s[i].0, s[j].0));
                    lemma_key_transitive(s[i].0.0, s[j].0.0, key);
                    assert(!slot_lt(s[i].0, slot));
                }
            }
        }
    }
}

/// A reader sees a version of a key if there is one that is not too new.
pub proof fn lemma_is_shown<K: Ord, V>(s: Seq<Record<K, V>>, key: K, upto: u64)
    requires
        ordered::<K>(),
        sorted(s),
    ensures
        is_shown(s, key, upto) <==> exists|q: Record<K, V>| #[trigger]
            s.contains(q) && key_eq(q.0.0, key) && q.0.1.seq <= upto,
{
    lemma_shown_at_position(s, key, upto);
    if exists|q: Record<K, V>| #[trigger]
        s.contains(q) && key_eq(q.0.0, key) && q.0.1.seq <= upto {
        let i = position(s, (key, tombstone_mark(upto)));
        assert(shown(s, key, upto, s[i]));
    }
    if is_shown(s, key, upto) {
        let r = choose|r: Record<K, V>| shown(s, key, upto, r);
        assert(s.contains(r));
    }
}

/// Whether `key` does not lie behind the end of a range.
pub fn ends_after<K: Ord>(end: &Bound<K>, key: &K) -> (r: bool)
    requires
        ordered::<K>(),
    ensures
        r == to_end(*end, *key),
{
    match end {
        Bound::Included(k) => !key_less(k, key),
        Bound::Excluded(k) => key_less(key, k),
        Bound::Unbounded => true,
    }
}

/// Whether a range does not start behind its end, nor leaves out twice the key at which it
/// starts and ends.
pub fn is_valid_range<K: Ord>(range: &KeyRange<K>) -> (r: bool)
    requires
        ordered::<K>(),
    ensures
        r == valid_range(*range),
{
    match (&range.0, &range.1) {
        (Bound::Excluded(a), Bound::Excluded(b)) => key_less(a, b),
        (Bound::Included(a) | Bound::Excluded(a), Bound::Included(b) | Bound::Excluded(b)) =>
            !key_less(b, a),
        _ => true,
    }
}

/// What lies behind the end of a range stays behind it further on.
pub proof fn lemma_behind_end<K: Ord>(end: Bound<K>, a: K, b: K)
    requires
        ordered::<K>(),
        !to_end(end, a),
        !key_lt(b, a),
    ensures
        !to_end(end, b),
{
    lemma_key_trichotomy(a, b);
    match end {
        Bound::Included(k) => {
            lemma_key_transitive(k, a, b);
        },
        Bound::Excluded(k) => {
            lemma_key_transitive(a, b, k);
        },
        Bound::Unbounded => {},
    }
}

/// Of sorted records a later one does not have a smaller key.
pub proof fn lemma_keys_ascend<K: Ord, V>(s: Seq<Record<K, V>>, i: int, j: int)
    requires
        ordered::<K>(),
        sorted(s),
        0 <= i <= j < s.len(),
    ensures
        !key_lt(s[j].0.0, s[i].0.0),
        i < j && key_eq(s[i].0.0, s[j].0.0) ==> s[i].0.1.rank() > s[j].0.1.rank(),
{
    lemma_key_trichotomy(s[i].0.0, s[j].0.0);
    if i < j {
        assert(slot_lt(s[i].0, s[j].0));
    }
}

/// Filtering one element more.
pub proof fn lemma_filter_next<A>(s: Seq<A>, p: spec_fn(A) -> bool, i: int)
    requires
        0 <= i < s.len(),
    ensures
        s.take(i + 1).filter(p) == if p(s[i]) {
            s.take(i).filter(p).push(s[i])
        } else {
            s.take(i).filter(p)
        },
{
    reveal(Seq::filter);
    assert(s.take(i + 1).drop_last() =~= s.take(i));
}

/// Filtering elements that do not pass.
pub proof fn lemma_filter_none<A>(s: Seq<A>, p: spec_fn(A) -> bool, a: int, b: int)
    requires
        0 <= a <= b <= s.len(),
        forall|j: int| a <= j < b ==> !p(#[trigger] s[j]),
    ensures
        s.take(b).filter(p) == s.take(a).filter(p),
    decreases b - a,
{
    if a < b {
        lemma_filter_none(s, p, a, b - 1);
        lemma_filter_next(s, p, b - 1);
    }
}

/// One key does not lie on both sides of the start of a range.
pub proof fn lemma_same_start<K: Ord>(start: Bound<K>, a: K, b: K)
    requires
        ordered::<K>(),
        key_eq(a, b),
    ensures
        from_start(start, a) == from_start(start, b),
{
    lemma_key_trichotomy(a, b);
    match start {
        Bound::Included(k) => {
            lemma_key_transitive(a, b, k);
            lemma_key_transitive(b, a, k);
        },
        Bound::Excluded(k) => {
            lemma_key_transitive(k, a, b);
            lemma_key_transitive(k, b, a);
        },
        Bound::Unbounded => {},
    }
}

/// No version is newer than `seq`.
pub open spec fn all_upto<K, V>(s: Seq<Record<K, V>>, seq: u64) -> bool {
    forall|r: Record<K, V>| #[trigger] s.contains(r) ==> r.0.1.seq <= seq
}

/// Writing a version with a value, or a deletion, leaves every version that is no deletion
/// with a value.
proof fn lemma_inserted_complete<K: Ord, V>(
    s: Seq<Record<K, V>>,
    slot: Slot<K>,
    value: Option<V>,
)
    requires
        ordered::<K>(),
        sorted(s),
        complete(s),
        has_value((slot, value)),
    ensures
        complete(inserted(s, slot, value)),
{
    lemma_inserted(s, slot, value);
}

/// Writing a version leaves none newer than both it and those before.
proof fn lemma_inserted_upto<K: Ord, V>(
    s: Seq<Record<K, V>>,
    slot: Slot<K>,
    value: Option<V>,
    seq: u64,
)
    requires
        ordered::<K>(),
        sorted(s),
        all_upto(s, seq),
        slot.1.seq <= seq,
    ensures
        all_upto(inserted(s, slot, value), seq),
{
    lemma_inserted(s, slot, value);
}

/// Writing changes keeps the versions sorted. It leaves every version that is no deletion with
/// a value, where the changes have theirs, and leaves none newer than `seq`, where none of the
/// changes is.
pub proof fn lemma_extended<K: Ord, V>(
    s: Seq<Record<K, V>>,
    changes: Seq<Record<K, V>>,
    seq: u64,
)
    requires
        ordered::<K>(),
        sorted(s),
    ensures
        sorted(extended(s, changes)),
        complete(s) && complete(changes) ==> complete(extended(s, changes)),
        all_upto(s, seq) && all_upto(changes, seq) ==> all_upto(extended(s, changes), seq),
    decreases changes.len(),
{
    if changes.len() > 0 {
        let rest = changes.drop_last();
        let change = changes.last();
        lemma_extended(s, rest, seq);
        lemma_inserted(extended(s, rest), change.0, change.1);
        assert(changes.contains(change));
        assert forall|r: Record<K, V>| #[trigger] rest.contains(r) implies changes.contains(r) by {
            let i = choose|i: int| 0 <= i < rest.len() && rest[i] == r;
            assert(changes[i] == r);
        }
        if complete(s) && complete(changes) {
            assert(complete(rest));
            lemma_inserted_complete(extended(s, rest), change.0, change.1);
        }
        if all_upto(s, seq) && all_upto(changes, seq) {
            assert(all_upto(rest, seq));
            lemma_inserted_upto(extended(s, rest), change.0, change.1, seq);
        }
    }
}

} // verus!
