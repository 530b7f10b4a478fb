//! An ordered map from a key and a sequence number to what was written there.
//!
//! The map holds every version of every key. Versions of one key stand next to each other,
//! the newest first, so that the version a reader may see is the first one that is not too
//! new for it.

use crate::order::{
    key_eq, key_less, key_lt, key_same, lemma_key_transitive, lemma_key_trichotomy, ordered,
};
use crate::seq_marked::SeqMarked;
use vstd::prelude::*;

verus! {

/// The place of one version: the key, and the order of the change that wrote it.
pub type Slot<K> = (K, SeqMarked<()>);

/// One version: its place, and the value, which a deletion does not have.
pub type Record<K, V> = (Slot<K>, Option<V>);

/// `a` comes strictly before `b`: by key, then the newer one first.
pub open spec fn slot_lt<K: Ord>(a: Slot<K>, b: Slot<K>) -> bool {
    key_lt(a.0, b.0) || (key_eq(a.0, b.0) && a.1.rank() > b.1.rank())
}

/// `a` and `b` are the same place.
pub open spec fn slot_eq<K: Ord>(a: Slot<K>, b: Slot<K>) -> bool {
    key_eq(a.0, b.0) && a.1.rank() == b.1.rank()
}

/// The records stand in the order of their slots, and no slot occurs twice.
pub open spec fn sorted<K: Ord, V>(s: Seq<Record<K, V>>) -> bool {
    forall|i: int, j: int|
        0 <= i < j < s.len() ==> slot_lt((#[trigger] s[i]).0, (#[trigger] s[j]).0)
}

/// `i` parts the records that come before `slot` from those that do not.
pub open spec fn splits<K: Ord, V>(s: Seq<Record<K, V>>, slot: Slot<K>, i: int) -> bool {
    &&& 0 <= i <= s.len()
    &&& forall|j: int| 0 <= j < i ==> slot_lt((#[trigger] s[j]).0, slot)
    &&& forall|j: int| i <= j < s.len() ==> !slot_lt((#[trigger] s[j]).0, slot)
}

/// The number of records that come before `slot`.
pub open spec fn position<K: Ord, V>(s: Seq<Record<K, V>>, slot: Slot<K>) -> int {
    choose|i: int| splits(s, slot, i)
}

/// The records after `value` was written at `slot`: the value takes the place of what was
/// written there before, and a new slot goes where the order puts it.
pub open spec fn inserted<K: Ord, V>(
    s: Seq<Record<K, V>>,
    slot: Slot<K>,
    value: Option<V>,
) -> Seq<Record<K, V>> {
    let i = position(s, slot);
    if i < s.len() && slot_eq(s[i].0, slot) {
        s.update(i, (s[i].0, value))
    } else {
        s.insert(i, (slot, value))
    }
}

/// The records after the changes were written one after the other.
pub open spec fn extended<K: Ord, V>(
    s: Seq<Record<K, V>>,
    changes: Seq<Record<K, V>>,
) -> Seq<Record<K, V>>
    decreases changes.len(),
{
    if changes.len() == 0 {
        s
    } else {
        let change = changes.last();
        inserted(extended(s, changes.drop_last()), change.0, change.1)
    }
}

/// Of two slots, either one comes before the other or they are the same place.
pub proof fn lemma_slot_trichotomy<K: Ord>(a: Slot<K>, b: Slot<K>)
    requires
        ordered::<K>(),
    ensures
        slot_lt(a, b) || slot_eq(a, b) || slot_lt(b, a),
        !(slot_lt(a, b) && slot_eq(a, b)),
        !(slot_lt(a, b) && slot_lt(b, a)),
        slot_eq(a, b) == slot_eq(b, a),
        slot_eq(a, a),
{
    lemma_key_trichotomy(a.0, b.0);
    lemma_key_trichotomy(b.0, a.0);
}

/// `slot_lt` and `slot_eq` chain.
pub proof fn lemma_slot_transitive<K: Ord>(a: Slot<K>, b: Slot<K>, c: Slot<K>)
    requires
        ordered::<K>(),
    ensures
        slot_lt(a, b) && slot_lt(b, c) ==> slot_lt(a, c),
        slot_lt(a, b) && slot_eq(b, c) ==> slot_lt(a, c),
        slot_eq(a, b) && slot_lt(b, c) ==> slot_lt(a, c),
        slot_eq(a, b) && slot_eq(b, c) ==> slot_eq(a, c),
{
    lemma_key_transitive(a.0, b.0, c.0);
}

/// The position of a slot among sorted records is where it parts them.
pub proof fn lemma_position<K: Ord, V>(s: Seq<Record<K, V>>, slot: Slot<K>)
    requires
        ordered::<K>(),
        sorted(s),
    ensures
        splits(s, slot, position(s, slot)),
        forall|i: int| splits(s, slot, i) ==> i == position(s, slot),
{
    lemma_split_exists(s, slot);
    let p = position(s, slot);
    assert forall|i: int| splits(s, slot, i) implies i == p by {
        if i < p {
            assert(slot_lt(s[i].0, slot));
        }
        if p < i {
            assert(slot_lt(s[p].0, slot));
        }
    }
}

proof fn lemma_split_exists<K: Ord, V>(s: Seq<Record<K, V>>, slot: Slot<K>)
    requires
        ordered::<K>(),
        sorted(s),
    ensures
        exists|i: int| splits(s, slot, i),
    decreases s.len(),
{
    if s.len() == 0 {
        assert(splits(s, slot, 0));
    } else if slot_lt(s.last().0, slot) {
        assert forall|j: int| 0 <= j < s.len() implies slot_lt((#[trigger] s[j]).0, slot) by {
            lemma_slot_transitive(s[j].0, s.last().0, slot);
        }
        assert(splits(s, slot, s.len() as int));
    } else {
        let rest = s.drop_last();
        lemma_split_exists(rest, slot);
        let i = choose|i: int| splits(rest, slot, i);
        assert forall|j: int| 0 <= j < i implies slot_lt((#[trigger] s[j]).0, slot) by {
            assert(rest[j] == s[j]);
        }
        assert forall|j: int| i <= j < s.len() implies !slot_lt((#[trigger] s[j]).0, slot) by {
            if j < s.len() - 1 {
                assert(rest[j] == s[j]);
            }
        }
        assert(splits(s, slot, i));
    }
}

/// Two records of sorted records at the same place are one record.
pub proof fn lemma_slot_unique<K: Ord, V>(s: Seq<Record<K, V>>, a: Record<K, V>, b: Record<K, V>)
    requires
        ordered::<K>(),
        sorted(s),
        s.contains(a),
        s.contains(b),
        slot_eq(a.0, b.0),
    ensures
        a == b,
{
    let i = choose|i: int| 0 <= i < s.len() && s[i] == a;
    let j = choose|j: int| 0 <= j < s.len() && s[j] == b;
    lemma_slot_trichotomy(a.0, b.0);
    lemma_slot_trichotomy(b.0, a.0);
    if i < j {
        assert(slot_lt(s[i].0, s[j].0));
    }
    if j < i {
        assert(slot_lt(s[j].0, s[i].0));
    }
}

/// Writing at a slot keeps the records sorted, keeps every record of another slot, adds none
/// but that of the slot, and leaves the written value there.
pub proof fn lemma_inserted<K: Ord, V>(s: Seq<Record<K, V>>, slot: Slot<K>, value: Option<V>)
    requires
        ordered::<K>(),
        sorted(s),
    ensures
        sorted(inserted(s, slot, value)),
        forall|r: Record<K, V>| #[trigger]
            inserted(s, slot, value).contains(r) ==> (if slot_eq(r.0, slot) {
                r.1 == value
            } else {
                s.contains(r)
            }),
        forall|r: Record<K, V>| #[trigger]
            s.contains(r) && !slot_eq(r.0, slot) ==> inserted(s, slot, value).contains(r),
        exists|r: Record<K, V>| #[trigger]
            inserted(s, slot, value).contains(r) && slot_eq(r.0, slot) && r.1 == value,
{
    let t = inserted(s, slot, value);
    let i = position(s, slot);
    lemma_position(s, slot);
    lemma_slot_trichotomy(slot, slot);
    if i < s.len() && slot_eq(s[i].0, slot) {
        assert(t.len() == s.len());
        assert(forall|j: int| 0 <= j < s.len() ==> (#[trigger] t[j]).0 == s[j].0);
        assert(t[i] == (s[i].0, value));
        assert(t.contains(t[i]));
        assert forall|r: Record<K, V>| #[trigger] t.contains(r) implies (if slot_eq(r.0, slot) {
            r.1 == value
        } else {
            s.contains(r)
        }) by {
            let j = choose|j: int| 0 <= j < t.len() && t[j] == r;
            if j != i {
                assert(s[j] == r);
                if slot_eq(r.0, slot) {
                    lemma_slot_trichotomy(s[i].0, slot);
                    lemma_slot_transitive(r.0, slot, s[i].0);
                    lemma_slot_unique(s, r, s[i]);
                    lemma_slot_trichotomy(s[i].0, s[j].0);
                    assert(false);
                }
            }
        }
        assert forall|r: Record<K, V>| #[trigger]
            s.contains(r) && !slot_eq(r.0, slot) implies t.contains(r) by {
            let j = choose|j: int| 0 <= j < s.len() && s[j] == r;
            assert(t[j] == r);
        }
    } else {
        assert(t[i] == (slot, value));
        assert(t.contains(t[i]));
        assert(forall|j: int| 0 <= j < i ==> #[trigger] t[j] == s[j]);
        assert(forall|j: int| i < j < t.len() ==> #[trigger] t[j] == s[j - 1]);
        assert forall|j: int| i <= j < s.len() implies slot_lt(slot, (#[trigger] s[j]).0) by {
            lemma_slot_trichotomy(s[j].0, slot);
            if slot_eq(s[j].0, slot) {
                lemma_slot_trichotomy(s[i].0, slot);
                if i < j {
                    assert(slot_lt(s[i].0, s[j].0));
                    lemma_slot_transitive(s[i].0, s[j].0, slot);
                }
            }
        }
        assert forall|a: int, b: int| 0 <= a < b < t.len() implies slot_lt(
            (#[trigger] t[a]).0,
            (#[trigger] t[b]).0,
        ) by {
            if a < i && i < b {
                assert(slot_lt(s[a].0, s[b - 1].0));
            } else if a > i {
                assert(slot_lt(s[a - 1].0, s[b - 1].0));
            } else if b < i {
                assert(slot_lt(s[a].0, s[b].0));
            }
        }
        assert forall|r: Record<K, V>| #[trigger] t.contains(r) implies (if slot_eq(r.0, slot) {
            r.1 == value
        } else {
            s.contains(r)
        }) by {
            let j = choose|j: int| 0 <= j < t.len() && t[j] == r;
            lemma_slot_trichotomy(r.0, slot);
            if j < i {
                assert(s[j] == r);
                assert(slot_lt(s[j].0, slot));
            } else if j > i {
                assert(s[j - 1] == r);
                assert(slot_lt(slot, s[j - 1].0));
            }
        }
        assert forall|r: Record<K, V>| #[trigger]
            s.contains(r) && !slot_eq(r.0, slot) implies t.contains(r) by {
            let j = choose|j: int| 0 <= j < s.len() && s[j] == r;
            if j < i {
                assert(t[j] == r);
            } else {
                assert(t[j + 1] == r);
            }
        }
    }
}

/// The value written at `slot` is `value`.
pub open spec fn holds<K: Ord, V>(s: Seq<Record<K, V>>, slot: Slot<K>, value: Option<V>) -> bool {
    exists|r: Record<K, V>| #[trigger] s.contains(r) && slot_eq(r.0, slot) && r.1 == value
}

/// Something was written at `slot`.
pub open spec fn occupied<K: Ord, V>(s: Seq<Record<K, V>>, slot: Slot<K>) -> bool {
    exists|r: Record<K, V>| #[trigger] s.contains(r) && slot_eq(r.0, slot)
}

/// An ordered map from slots to values, in a vector that is kept sorted.
#[derive(Debug)]
pub struct VersionMap<K, V> {
    records: Vec<Record<K, V>>,
}

impl<K, V> View for VersionMap<K, V> {
    type V = Seq<Record<K, V>>;

    closed spec fn view(&self) -> Seq<Record<K, V>> {
        self.records@
    }
}

/// Whether `a` comes strictly before the slot of `key` and `mark`.
fn slot_less<K: Ord>(a: &Slot<K>, key: &K, mark: &SeqMarked<()>) -> (r: bool)
    requires
        ordered::<K>(),
    ensures
        r == slot_lt(*a, (*key, *mark)),
{
    key_less(&a.0, key) || (key_same(&a.0, key) && a.1.is_after(mark))
}

impl<K: Ord, V> VersionMap<K, V> {
    /// The keys are ordered, and the records stand in that order.
    pub open spec fn wf(self) -> bool {
        ordered::<K>() && sorted(self@)
    }

    /// A map without records.
    pub fn new() -> (r: Self)
        ensures
            r@ == Seq::<Record<K, V>>::empty(),
            ordered::<K>() ==> r.wf(),
    {
        VersionMap { records: Vec::new() }
    }

    /// The number of records.
    pub fn len(&self) -> (r: usize)
        ensures
            r == self@.len(),
    {
        self.records.len()
    }

    /// Whether there are no records.
    pub fn is_empty(&self) -> (r: bool)
        ensures
            r == (self@.len() == 0),
    {
        self.records.is_empty()
    }

    /// The record number `i` in the order of the slots.
    pub fn at(&self, i: usize) -> (r: &Record<K, V>)
        requires
            i < self@.len(),
        ensures
            *r == self@[i as int],
    {
        &self.records[i]
    }

    /// The number of records that come before the slot of `key` and `mark`.
    pub fn position(&self, key: &K, mark: &SeqMarked<()>) -> (r: usize)
        requires
            self.wf(),
        ensures
            r == position(self@, (*key, *mark)),
            splits(self@, (*key, *mark), r as int),
    {
        let ghost slot = (*key, *mark);
        let mut low: usize = 0;
        let mut high: usize = self.records.len();
        while low < high
            invariant
                self.wf(),
                0 <= low <= high <= self@.len(),
                self@ == self.records@,
                slot == (*key, *mark),
                forall|j: int| 0 <= j < low ==> slot_lt((#[trigger] self@[j]).0, slot),
                forall|j: int| high <= j < self@.len() ==> !slot_lt((#[trigger] self@[j]).0, slot),
            decreases high - low,
        {
            let mid: usize = low + (high - low) / 2;
            if slot_less(&self.records[mid].0, key, mark) {
                proof {
                    assert forall|j: int| 0 <= j < mid + 1 implies slot_lt(
                        (#[trigger] self@[j]).0,
                        slot,
                    ) by {
                        if j < mid {
                            lemma_slot_transitive(self@[j].0, self@[mid as int].0, slot);
                        }
                    }
                }
                low = mid + 1;
            } else {
                proof {
                    assert forall|j: int| mid <= j < self@.len() implies !slot_lt(
                        (#[trigger] self@[j]).0,
                        slot,
                    ) by {
                        if mid < j {
                            lemma_slot_transitive(self@[mid as int].0, self@[j].0, slot);
                        }
                    }
                }
                high = mid;
            }
        }
        proof {
            lemma_position(self@, slot);
            assert(splits(self@, slot, low as int));
        }
        low
    }

    /// What was written at `slot`.
    pub fn get(&self, slot: &Slot<K>) -> (r: Option<&Option<V>>)
        requires
            self.wf(),
        ensures
            match r {
                Some(value) => holds(self@, *slot, *value),
                None => !occupied(self@, *slot),
            },
    {
        let i: usize = self.position(&slot.0, &slot.1);
        if i < self.records.len() && key_same(&self.records[i].0.0, &slot.0)
            && !slot.1.is_after(&self.records[i].0.1) {
            proof {
                lemma_slot_trichotomy(self@[i as int].0, *slot);
                assert(self@.contains(self@[i as int]));
            }
            Some(&self.records[i].1)
        } else {
            proof {
                assert forall|r: Record<K, V>| #[trigger] self@.contains(r) implies !slot_eq(
                    r.0,
                    *slot,
                ) by {
                    let j = choose|j: int| 0 <= j < self@.len() && self@[j] == r;
                    lemma_slot_trichotomy(r.0, *slot);
                    if i < j {
                        lemma_slot_transitive(self@[i as int].0, self@[j].0, *slot);
                    }
                }
            }
            None
        }
    }

    /// Writes `value` at `slot`, and gives back what was written there before.
    pub fn insert(&mut self, slot: Slot<K>, value: Option<V>) -> (r: Option<Option<V>>)
        requires
            old(self).wf(),
        ensures
            final(self).wf(),
            final(self)@ == inserted(old(self)@, slot, value),
            match r {
                Some(before) => holds(old(self)@, slot, before),
                None => !occupied(old(self)@, slot),
            },
    {
        proof {
            lemma_inserted(self@, slot, value);
        }
        let i: usize = self.position(&slot.0, &slot.1);
        if i < self.records.len() && key_same(&self.records[i].0.0, &slot.0)
            && !slot.1.is_after(&self.records[i].0.1) {
            proof {
                lemma_slot_trichotomy(self@[i as int].0, slot);
                assert(self@.contains(self@[i as int]));
            }
            let mut before = value;
            std::mem::swap(&mut self.records[i].1, &mut before);
            Some(before)
        } else {
            proof {
                assert forall|r: Record<K, V>| #[trigger] self@.contains(r) implies !slot_eq(
                    r.0,
                    slot,
                ) by {
                    let j = choose|j: int| 0 <= j < self@.len() && self@[j] == r;
                    lemma_slot_trichotomy(r.0, slot);
                    if i < j {
                        lemma_slot_transitive(self@[i as int].0, self@[j].0, slot);
                    }
                }
            }
            self.records.insert(i, (slot, value));
            None
        }
    }

    /// Writes all changes, one after the other.
    pub fn extend(&mut self, changes: Vec<Record<K, V>>)
        requires
            old(self).wf(),
        ensures
            final(self).wf(),
            final(self)@ == extended(old(self)@, changes@),
    {
        let ghost all = changes@;
        for change in it: changes
            invariant
                self.wf(),
                it.seq() == all,
                self@ == extended(old(self)@, all.take(it.index() as int)),
        {
            proof {
                let n = it.index() as int;
                assert(all.take(n + 1).drop_last() =~= all.take(n));
                assert(all.take(n + 1).last() == all[n]);
            }
            let _ = self.insert(change.0, change.1);
        }
        proof {
            assert(all.take(all.len() as int) =~= all);
        }
    }

    /// All records, in the order of their slots.
    pub fn into_records(self) -> (r: Vec<Record<K, V>>)
        ensures
            r@ == self@,
    {
        self.records
    }
}

} // verus!
