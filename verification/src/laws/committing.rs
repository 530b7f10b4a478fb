//! What readers see after changes were committed to a table.

use crate::laws::reading::law_range_agrees_with_get;
use crate::laws::writing::{law_write_is_not_in_range_before, law_write_is_not_read_before};
use crate::order::{key_eq, lemma_key_transitive, lemma_key_trichotomy, ordered};
use crate::seq_marked::SeqMarked;
use crate::util::at_key;
use crate::versions::{
    extended, holds, lemma_inserted, lemma_slot_transitive, lemma_slot_trichotomy, occupied,
    slot_eq, slot_lt, sorted, Record,
};
use crate::visibility::{
    content, is_shown, lemma_extended, lemma_is_shown, lemma_shown_unique, read, scan, shown,
    within, KeyRange,
};
use vstd::prelude::*;

verus! {

/// Committing changes writes each of them, keeps every other version, and adds nothing else.
pub proof fn law_commit_is_complete<K: Ord, V>(s: Seq<Record<K, V>>, changes: Seq<Record<K, V>>)
    requires
        ordered::<K>(),
        sorted(s),
        sorted(changes),
    ensures
        sorted(extended(s, changes)),
        forall|r: Record<K, V>| #[trigger]
            extended(s, changes).contains(r) ==> (if occupied(changes, r.0) {
                holds(changes, r.0, r.1)
            } else {
                s.contains(r)
            }),
        forall|r: Record<K, V>| #[trigger]
            s.contains(r) && !occupied(changes, r.0) ==> extended(s, changes).contains(r),
        forall|c: Record<K, V>| #[trigger]
            changes.contains(c) ==> holds(extended(s, changes), c.0, c.1),
    decreases changes.len(),
{
    if changes.len() > 0 {
        let rest = changes.drop_last();
        let last = changes.last();
        let before = extended(s, rest);
        let after = extended(s, changes);
        assert(sorted(rest));
        law_commit_is_complete(s, rest);
        lemma_inserted(before, last.0, last.1);
        assert(changes[changes.len() - 1] == last);
        assert forall|c: Record<K, V>| rest.contains(c) implies #[trigger] changes.contains(c)
            && !slot_eq(c.0, last.0) by {
            let i = choose|i: int| 0 <= i < rest.len() && rest[i] == c;
            assert(changes[i] == c);
            assert(slot_lt(changes[i].0, changes[changes.len() - 1].0));
            lemma_slot_trichotomy(c.0, last.0);
        }
        assert forall|c: Record<K, V>| #[trigger] changes.contains(c) implies c == last
            || rest.contains(c) by {
            let i = choose|i: int| 0 <= i < changes.len() && changes[i] == c;
            if i < rest.len() {
                assert(rest[i] == c);
            }
        }
        assert forall|r: Record<K, V>| #[trigger] after.contains(r) implies (if occupied(
            changes,
            r.0,
        ) {
            holds(changes, r.0, r.1)
        } else {
            s.contains(r)
        }) by {
            lemma_slot_trichotomy(r.0, last.0);
            if slot_eq(r.0, last.0) {
                assert(changes.contains(last));
                assert(holds(changes, r.0, r.1));
            } else {
                assert(before.contains(r));
                if occupied(rest, r.0) {
                    let c = choose|c: Record<K, V>| #[trigger]
                        rest.contains(c) && slot_eq(c.0, r.0) && c.1 == r.1;
                    assert(changes.contains(c));
                } else if occupied(changes, r.0) {
                    let c = choose|c: Record<K, V>| #[trigger]
                        changes.contains(c) && slot_eq(c.0, r.0);
                    lemma_slot_trichotomy(c.0, r.0);
                    assert(c == last || rest.contains(c));
                }
            }
        }
        assert forall|r: Record<K, V>| #[trigger]
            s.contains(r) && !occupied(changes, r.0) implies after.contains(r) by {
            if occupied(rest, r.0) {
                let c = choose|c: Record<K, V>| #[trigger] rest.contains(c) && slot_eq(c.0, r.0);
                assert(changes.contains(c));
            }
            assert(before.contains(r));
            lemma_slot_trichotomy(last.0, r.0);
            if slot_eq(r.0, last.0) {
                assert(changes.contains(last));
            }
        }
        assert forall|c: Record<K, V>| #[trigger] changes.contains(c) implies holds(
            after,
            c.0,
            c.1,
        ) by {
            if rest.contains(c) {
                let r = choose|r: Record<K, V>| #[trigger]
                    before.contains(r) && slot_eq(r.0, c.0) && r.1 == c.1;
                lemma_slot_trichotomy(r.0, c.0);
                lemma_slot_transitive(c.0, r.0, last.0);
                assert(after.contains(r));
            }
        }
    }
}

/// What a reader of a key sees that is shown `old` by the versions before and `new` by the
/// changes: the later of them, and the change where both are at one place in the order.
pub open spec fn later_read<V>(
    old_shown: bool,
    old_read: SeqMarked<V>,
    new_shown: bool,
    new_read: SeqMarked<V>,
) -> SeqMarked<V> {
    if new_shown && !(old_shown && old_read.rank() > new_read.rank()) {
        new_read
    } else {
        old_read
    }
}

/// After a commit a reader sees of each key the later of what it saw before and of what the
/// changes show.
pub proof fn law_commit_is_read<K: Ord, V>(
    s: Seq<Record<K, V>>,
    changes: Seq<Record<K, V>>,
    key: K,
    upto: u64,
)
    requires
        ordered::<K>(),
        sorted(s),
        sorted(changes),
    ensures
        is_shown(extended(s, changes), key, upto) == (is_shown(s, key, upto) || is_shown(
            changes,
            key,
            upto,
        )),
        read(extended(s, changes), key, upto) == later_read(
            is_shown(s, key, upto),
            read(s, key, upto),
            is_shown(changes, key, upto),
            read(changes, key, upto),
        ),
{
    let t = extended(s, changes);
    law_commit_is_complete(s, changes);
    lemma_is_shown(s, key, upto);
    lemma_is_shown(changes, key, upto);
    lemma_is_shown(t, key, upto);
    let a = choose|r: Record<K, V>| shown(s, key, upto, r);
    let b = choose|r: Record<K, V>| shown(changes, key, upto, r);
    let by_s = is_shown(s, key, upto);
    let by_c = is_shown(changes, key, upto);
    // every version in `t` that the reader may see is outranked by what `s` or `changes` show
    assert forall|q: Record<K, V>| #[trigger]
        t.contains(q) && key_eq(q.0.0, key) && q.0.1.seq <= upto implies (by_c && q.0.1.rank()
        <= b.0.1.rank()) || (by_s && q.0.1.rank() <= a.0.1.rank()) by {
        if occupied(changes, q.0) {
            let c = choose|c: Record<K, V>| #[trigger] changes.contains(c) && slot_eq(c.0, q.0);
            lemma_key_transitive(c.0.0, q.0.0, key);
            assert(changes.contains(c) && key_eq(c.0.0, key) && c.0.1.seq <= upto);
            lemma_rank_shown(changes, key, upto, b, c);
        } else {
            assert(s.contains(q));
            lemma_rank_shown(s, key, upto, a, q);
        }
    }
    if by_c && !(by_s && a.0.1.rank() > b.0.1.rank()) {
        let w = choose|r: Record<K, V>| #[trigger]
            t.contains(r) && slot_eq(r.0, b.0) && r.1 == b.1;
        lemma_key_transitive(w.0.0, b.0.0, key);
        assert(w.0.1.seq == b.0.1.seq);
        lemma_shown_by_rank(t, key, upto, w);
        lemma_shown_unique(t, key, upto, w, w);
        assert(content(w) == content(b));
    } else if by_s {
        if occupied(changes, a.0) {
            let c = choose|c: Record<K, V>| #[trigger] changes.contains(c) && slot_eq(c.0, a.0);
            lemma_key_transitive(c.0.0, a.0.0, key);
            assert(changes.contains(c) && key_eq(c.0.0, key) && c.0.1.seq <= upto);
            lemma_rank_shown(changes, key, upto, b, c);
        }
        assert(t.contains(a));
        lemma_shown_by_rank(t, key, upto, a);
        lemma_shown_unique(t, key, upto, a, a);
    }
}

/// What is shown of a key outranks every version of it that the reader may see.
proof fn lemma_rank_shown<K: Ord, V>(
    s: Seq<Record<K, V>>,
    key: K,
    upto: u64,
    r: Record<K, V>,
    q: Record<K, V>,
)
    requires
        ordered::<K>(),
        shown(s, key, upto, r),
        s.contains(q),
        key_eq(q.0.0, key),
        q.0.1.seq <= upto,
    ensures
        q.0.1.rank() <= r.0.1.rank(),
{
    lemma_key_trichotomy(r.0.0, key);
    lemma_key_transitive(q.0.0, key, r.0.0);
}

/// A version that outranks every version of its key that the reader may see is shown.
proof fn lemma_shown_by_rank<K: Ord, V>(
    s: Seq<Record<K, V>>,
    key: K,
    upto: u64,
    r: Record<K, V>,
)
    requires
        ordered::<K>(),
        s.contains(r),
        key_eq(r.0.0, key),
        r.0.1.seq <= upto,
        forall|q: Record<K, V>| #[trigger]
            s.contains(q) && key_eq(q.0.0, key) && q.0.1.seq <= upto ==> q.0.1.rank()
                <= r.0.1.rank(),
    ensures
        shown(s, key, upto, r),
{
    assert forall|q: Record<K, V>| #[trigger]
        s.contains(q) && key_eq(q.0.0, r.0.0) && q.0.1.seq <= upto implies q.0.1.rank()
        <= r.0.1.rank() by {
        lemma_key_transitive(q.0.0, r.0.0, key);
    }
}

/// After a commit a range read says of each key of the range the later of what was seen of it
/// before and of what the changes show.
pub proof fn law_commit_is_in_range<K: Ord, V>(
    s: Seq<Record<K, V>>,
    changes: Seq<Record<K, V>>,
    range: KeyRange<K>,
    upto: u64,
    key: K,
)
    requires
        ordered::<K>(),
        sorted(s),
        sorted(changes),
    ensures
        at_key(scan(extended(s, changes), range, upto), key) == if within(range, key) && (is_shown(
            s,
            key,
            upto,
        ) || is_shown(changes, key, upto)) {
            Some(
                later_read(
                    is_shown(s, key, upto),
                    read(s, key, upto),
                    is_shown(changes, key, upto),
                    read(changes, key, upto),
                ),
            )
        } else {
            None
        },
{
    lemma_extended(s, changes, 0);
    law_commit_is_read(s, changes, key, upto);
    law_range_agrees_with_get(extended(s, changes), range, upto, key);
}

/// Every change is newer than `upto`.
pub open spec fn all_after<K, V>(changes: Seq<Record<K, V>>, upto: u64) -> bool {
    forall|i: int| 0 <= i < changes.len() ==> upto < (#[trigger] changes[i]).0.1.seq
}

/// A reader before a commit does not see any of it: it reads of every key and of every range
/// what it read before.
pub proof fn law_commit_is_not_read_before<K: Ord, V>(
    s: Seq<Record<K, V>>,
    changes: Seq<Record<K, V>>,
    key: K,
    range: KeyRange<K>,
    upto: u64,
)
    requires
        ordered::<K>(),
        sorted(s),
        all_after(changes, upto),
    ensures
        read(extended(s, changes), key, upto) == read(s, key, upto),
        scan(extended(s, changes), range, upto) == scan(s, range, upto),
    decreases changes.len(),
{
    if changes.len() > 0 {
        let rest = changes.drop_last();
        let last = changes.last();
        assert(changes[changes.len() - 1] == last);
        assert(all_after(rest, upto)) by {
            assert forall|i: int| 0 <= i < rest.len() implies upto < (
            #[trigger] rest[i]).0.1.seq by {
                assert(changes[i] == rest[i]);
            }
        }
        law_commit_is_not_read_before(s, rest, key, range, upto);
        lemma_extended(s, rest, 0);
        law_write_is_not_read_before(extended(s, rest), last.0, last.1, key, upto);
        law_write_is_not_in_range_before(extended(s, rest), last.0, last.1, range, upto);
    }
}

} // verus!
