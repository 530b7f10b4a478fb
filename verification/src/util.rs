//! Merging of two sorted reads into one.

use crate::io_result::{all_ok, failures, into_stream, ok_items, oks, IOResultStream};
use crate::order::{
    key_eq, key_less, key_lt, key_same, lemma_key_transitive, lemma_key_trichotomy, ordered,
};
use crate::seq_marked::{max_marked, SeqMarked};
use futures_util::FutureExt;
use futures_util::StreamExt;
use std::io;
use stream_more::StreamMore;
use vstd::prelude::*;

verus! {

/// One item of a read: a key with what is seen of it, or a failure.
pub type ReadItem<K, V> = Result<(K, SeqMarked<V>), io::Error>;

/// `a` may stand before `b`: by key, then the older one first. A failure may stand anywhere.
pub open spec fn comes_first<K: Ord, V>(a: ReadItem<K, V>, b: ReadItem<K, V>) -> bool {
    match (a, b) {
        (Ok(x), Ok(y)) => key_lt(x.0, y.0) || (key_eq(x.0, y.0) && x.1.rank() <= y.1.rank()),
        _ => true,
    }
}

/// Whether `a` may stand before `b`: by key, then the older one first. A failure may stand
/// anywhere.
pub fn by_key_seq<K: Ord, V>(a: &ReadItem<K, V>, b: &ReadItem<K, V>) -> (r: bool)
    requires
        ordered::<K>(),
    ensures
        r == comes_first(*a, *b),
{
    match (a, b) {
        (Ok(x), Ok(y)) => key_less(&x.0, &y.0) || (key_same(&x.0, &y.0) && !x.1.is_after(&y.1)),
        _ => true,
    }
}

/// What is left of two items of one key: the later of them, under the first one's key. Items
/// of different keys, and failures, are not joined.
pub open spec fn joined<K: Ord, V>(a: ReadItem<K, V>, b: ReadItem<K, V>) -> Option<
    ReadItem<K, V>,
> {
    match (a, b) {
        (Ok(x), Ok(y)) => if key_eq(x.0, y.0) {
            Some(Ok((x.0, max_marked(x.1, y.1))))
        } else {
            None
        },
        _ => None,
    }
}

/// Joins two items of one key into the later of them, under the first one's key. Hands back
/// items of different keys, and failures.
pub fn merge_kv_results<K: Ord, V>(a: ReadItem<K, V>, b: ReadItem<K, V>) -> (r: Result<
    ReadItem<K, V>,
    (ReadItem<K, V>, ReadItem<K, V>),
>)
    requires
        ordered::<K>(),
    ensures
        match joined(a, b) {
            Some(item) => r == Ok::<ReadItem<K, V>, (ReadItem<K, V>, ReadItem<K, V>)>(item),
            None => r == Err::<ReadItem<K, V>, (ReadItem<K, V>, ReadItem<K, V>)>((a, b)),
        },
{
    match (a, b) {
        (Ok(x), Ok(y)) => if key_same(&x.0, &y.0) {
            Ok(Ok((x.0, SeqMarked::max(x.1, y.1))))
        } else {
            Err((Ok(x), Ok(y)))
        },
        (a, b) => Err((a, b)),
    }
}

/// `merge_kv_results` of boxed items.
fn merge_boxed<K: Ord, V>(a: Box<ReadItem<K, V>>, b: Box<ReadItem<K, V>>) -> (r: Result<
    Box<ReadItem<K, V>>,
    (Box<ReadItem<K, V>>, Box<ReadItem<K, V>>),
>)
    requires
        ordered::<K>(),
    ensures
        match joined(*a, *b) {
            Some(item) => r matches Ok(x) && *x == item,
            None => r matches Err((x, y)) && x == a && y == b,
        },
{
    match merge_kv_results(*a, *b) {
        Ok(item) => Ok(Box::new(item)),
        Err((a, b)) => Err((Box::new(a), Box::new(b))),
    }
}

/// The items of two reads, each in their order. Of the next items of both, that of the read
/// which was looked at last comes out where it may stand before the other, else the other one.
/// Then the read whose item came out is looked at.
pub open spec fn merged<K: Ord, V>(
    last: Seq<ReadItem<K, V>>,
    other: Seq<ReadItem<K, V>>,
) -> Seq<ReadItem<K, V>>
    decreases last.len() + other.len(),
{
    if last.len() == 0 {
        other
    } else if other.len() == 0 {
        last
    } else if comes_first(last[0], other[0]) {
        seq![last[0]] + merged(last.drop_first(), other)
    } else {
        seq![other[0]] + merged(other.drop_first(), last)
    }
}

/// Each item may stand before those that follow it.
pub open spec fn ascending<K: Ord, V>(s: Seq<ReadItem<K, V>>) -> bool {
    forall|i: int, j: int| 0 <= i < j < s.len() ==> comes_first(#[trigger] s[i], #[trigger] s[j])
}

/// The items with each run of items that can be joined replaced by what is left of it.
pub open spec fn coalesced<K: Ord, V>(s: Seq<ReadItem<K, V>>) -> Seq<ReadItem<K, V>>
    decreases s.len(),
{
    if s.len() < 2 {
        s
    } else {
        match joined(s[0], s[1]) {
            Some(item) => coalesced(seq![item] + s.skip(2)),
            None => seq![s[0]] + coalesced(s.skip(1)),
        }
    }
}

/// Calls `stream_more::StreamMore::kmerge_by` and `stream_more::KMerge::merge` with
/// `by_key_seq` on two streams that are ready at once, and collects what comes out.
///
/// Claimed of it: it takes turns between the streams as `merged` says. Both streams are polled
/// for their first items, `updates` last; then each time the stream whose item came out is
/// polled for its next one, and the item that was just polled comes out where `by_key_seq`
/// accepts it before that of the other stream, else that of the other stream does. Where one
/// stream has ended the rest of the other follows.
#[verifier::external_body]
fn kmerge<K: Ord + Send, V: Send>(
    base: IOResultStream<(K, SeqMarked<V>)>,
    updates: IOResultStream<(K, SeqMarked<V>)>,
) -> (r: IOResultStream<(K, SeqMarked<V>)>)
    requires
        ordered::<K>(),
    ensures
        r@ == merged(updates@, base@),
{
    let base = futures::stream::iter(base.into_iter().map(Box::new));
    let updates = futures::stream::iter(updates.into_iter().map(Box::new));
    let merged = base.kmerge_by(
        |a: &Box<ReadItem<K, V>>, b: &Box<ReadItem<K, V>>| by_key_seq(a, b),
    ).merge(updates);
    merged.map(|item| *item).collect::<Vec<_>>().now_or_never().unwrap()
}

/// Calls `stream_more::StreamMore::coalesce` with `merge_kv_results` on a stream that is
/// ready at once, and collects what comes out.
///
/// Claimed of it: each item is joined with the one before it, or with what that one was
/// joined to, as long as `merge_kv_results` joins them; otherwise what was before comes out
/// as it is.
#[verifier::external_body]
fn coalesce<K: Ord + Send, V: Send>(items: IOResultStream<(K, SeqMarked<V>)>) -> (r:
    IOResultStream<(K, SeqMarked<V>)>)
    requires
        ordered::<K>(),
    ensures
        r@ == coalesced(items@),
{
    let items = futures::stream::iter(items.into_iter().map(Box::new));
    let merged = items.coalesce(merge_boxed);
    merged.map(|item| *item).collect::<Vec<_>>().now_or_never().unwrap()
}

/// The keys of the items ascend, so no key occurs twice.
pub open spec fn keys_ascend<K: Ord, V>(s: Seq<(K, SeqMarked<V>)>) -> bool {
    forall|i: int, j: int|
        0 <= i < j < s.len() ==> key_lt((#[trigger] s[i]).0, (#[trigger] s[j]).0)
}

/// What the items say of `key`, if there is an item of it.
pub open spec fn at_key<K: Ord, V>(s: Seq<(K, SeqMarked<V>)>, key: K) -> Option<SeqMarked<V>> {
    if exists|i: int| 0 <= i < s.len() && key_eq((#[trigger] s[i]).0, key) {
        Some(s[choose|i: int| 0 <= i < s.len() && key_eq((#[trigger] s[i]).0, key)].1)
    } else {
        None
    }
}

/// `c` is what is left of `a` and `b`: the later of them, or the only one there is. Of two
/// values at one place in the order either may be left.
pub open spec fn later_of<V>(
    a: Option<SeqMarked<V>>,
    b: Option<SeqMarked<V>>,
    c: Option<SeqMarked<V>>,
) -> bool {
    match (a, b) {
        (Some(x), Some(y)) => {
            &&& x.rank() > y.rank() ==> c == a
            &&& x.rank() < y.rank() ==> c == b
            &&& x.rank() == y.rank() ==> (c == a || c == b)
        },
        (Some(_), None) => c == a,
        (None, _) => c == b,
    }
}

/// `out` says of every key what is left of what `base` and `updates` say of it, under a key
/// of one of them, key by key in the order of the keys.
pub open spec fn overlaid<K: Ord, V>(
    base: Seq<(K, SeqMarked<V>)>,
    updates: Seq<(K, SeqMarked<V>)>,
    out: Seq<(K, SeqMarked<V>)>,
) -> bool {
    &&& keys_ascend(out)
    &&& forall|key: K| #[trigger]
        later_of(at_key(base, key), at_key(updates, key), at_key(out, key))
    &&& forall|i: int|
        0 <= i < out.len() ==> has_key(base, (#[trigger] out[i]).0) || has_key(updates, out[i].0)
}

/// One of the items carries this very key.
pub open spec fn has_key<K, V>(s: Seq<(K, SeqMarked<V>)>, key: K) -> bool {
    exists|i: int| 0 <= i < s.len() && (#[trigger] s[i]).0 == key
}

/// An item whose keys ascend says of its key what it holds.
pub proof fn lemma_at_key<K: Ord, V>(s: Seq<(K, SeqMarked<V>)>, key: K, i: int)
    requires
        ordered::<K>(),
        keys_ascend(s),
        0 <= i < s.len(),
        key_eq(s[i].0, key),
    ensures
        at_key(s, key) == Some(s[i].1),
{
    let j = choose|j: int| 0 <= j < s.len() && key_eq((#[trigger] s[j]).0, key);
    lemma_key_trichotomy(s[i].0, key);
    lemma_key_trichotomy(s[j].0, key);
    lemma_key_transitive(s[i].0, key, s[j].0);
    lemma_key_trichotomy(s[i].0, s[j].0);
    if i < j {
        assert(key_lt(s[i].0, s[j].0));
    }
    if j < i {
        assert(key_lt(s[j].0, s[i].0));
    }
}

proof fn lemma_comes_first_transitive<K: Ord, V>(
    a: ReadItem<K, V>,
    b: ReadItem<K, V>,
    c: ReadItem<K, V>,
)
    requires
        ordered::<K>(),
        b is Ok,
        comes_first(a, b),
        comes_first(b, c),
    ensures
        comes_first(a, c),
{
    if a is Ok && c is Ok {
        lemma_key_transitive(a->Ok_0.0, b->Ok_0.0, c->Ok_0.0);
    }
}

/// `x` carries the key of some item of `m`, and what some item of `m` of that key says that
/// is not older than what any other item of that key says.
#[verifier::opaque]
spec fn latest_in<K: Ord, V>(m: Seq<ReadItem<K, V>>, x: ReadItem<K, V>) -> bool {
    &&& x is Ok
    &&& exists|i: int| 0 <= i < m.len() && (#[trigger] m[i])->Ok_0.0 == x->Ok_0.0
    &&& exists|i: int|
        {
            &&& 0 <= i < m.len()
            &&& key_eq((#[trigger] m[i])->Ok_0.0, x->Ok_0.0)
            &&& m[i]->Ok_0.1 == x->Ok_0.1
        }
    &&& forall|i: int|
        0 <= i < m.len() && key_eq((#[trigger] m[i])->Ok_0.0, x->Ok_0.0) ==> m[i]->Ok_0.1.rank()
            <= x->Ok_0.1.rank()
}

/// Some item of `out` has the key of `x`.
#[verifier::opaque]
spec fn covered<K: Ord, V>(out: Seq<ReadItem<K, V>>, x: ReadItem<K, V>) -> bool {
    exists|j: int| 0 <= j < out.len() && key_eq((#[trigger] out[j])->Ok_0.0, x->Ok_0.0)
}

/// What coalescing leaves of sorted items that did not fail: of each key the latest item, in
/// the order of the keys.
spec fn leaves_latest<K: Ord, V>(m: Seq<ReadItem<K, V>>, out: Seq<ReadItem<K, V>>) -> bool {
    &&& all_ok(out)
    &&& keys_ascend(oks(out))
    &&& forall|j: int| 0 <= j < out.len() ==> latest_in(m, #[trigger] out[j])
    &&& forall|i: int| 0 <= i < m.len() ==> covered(out, #[trigger] m[i])
}

/// Coalescing sorted items that did not fail leaves of each key the latest item.
proof fn lemma_coalesced<K: Ord, V>(m: Seq<ReadItem<K, V>>)
    requires
        ordered::<K>(),
        all_ok(m),
        ascending(m),
    ensures
        leaves_latest(m, coalesced(m)),
    decreases m.len(),
{
    let out = coalesced(m);
    if m.len() < 2 {
        if m.len() == 1 {
            lemma_key_trichotomy(m[0]->Ok_0.0, m[0]->Ok_0.0);
            assert(out[0] == m[0]);
            assert(latest_in(m, out[0])) by {
                reveal(latest_in);
            }
            assert(covered(out, m[0])) by {
                reveal(covered);
            }
        }
    } else if let Some(item) = joined(m[0], m[1]) {
        let n = seq![item] + m.skip(2);
        lemma_joined_ascends(m, item);
        lemma_coalesced(n);
        lemma_latest_joined(m, item, out);
    } else {
        let n = m.skip(1);
        assert(forall|i: int| 0 <= i < n.len() ==> #[trigger] n[i] == m[i + 1]);
        assert(ascending(n)) by {
            assert forall|i: int, j: int| 0 <= i < j < n.len() implies comes_first(
                #[trigger] n[i],
                #[trigger] n[j],
            ) by {
                assert(comes_first(m[i + 1], m[j + 1]));
            }
        }
        assert(all_ok(n));
        lemma_coalesced(n);
        lemma_latest_apart(m, coalesced(n));
    }
}

proof fn lemma_joined_ascends<K: Ord, V>(m: Seq<ReadItem<K, V>>, item: ReadItem<K, V>)
    requires
        ordered::<K>(),
        all_ok(m),
        ascending(m),
        m.len() >= 2,
        joined(m[0], m[1]) == Some(item),
    ensures
        item == Ok::<(K, SeqMarked<V>), io::Error>((m[0]->Ok_0.0, m[1]->Ok_0.1)),
        all_ok(seq![item] + m.skip(2)),
        ascending(seq![item] + m.skip(2)),
{
    let n = seq![item] + m.skip(2);
    assert(comes_first(m[0], m[1]));
    lemma_key_trichotomy(m[0]->Ok_0.0, m[1]->Ok_0.0);
    assert(item->Ok_0 == (m[0]->Ok_0.0, m[1]->Ok_0.1));
    assert(n[0] == item);
    assert(forall|i: int| 1 <= i < n.len() ==> #[trigger] n[i] == m[i + 1]);
    assert forall|i: int, j: int| 0 <= i < j < n.len() implies comes_first(
        #[trigger] n[i],
        #[trigger] n[j],
    ) by {
        assert(n[j] == m[j + 1]);
        if i == 0 {
            assert(comes_first(m[1], m[j + 1]));
            lemma_comes_first_transitive(item, m[1], m[j + 1]);
        } else {
            assert(comes_first(m[i + 1], m[j + 1]));
        }
    }
    assert forall|i: int| 0 <= i < n.len() implies (#[trigger] n[i]) is Ok by {
        if i > 0 {
            assert(m[i + 1] is Ok);
        }
    }
}

proof fn lemma_latest_in_joined<K: Ord, V>(
    m: Seq<ReadItem<K, V>>,
    item: ReadItem<K, V>,
    x: ReadItem<K, V>,
)
    requires
        ordered::<K>(),
        m.len() >= 2,
        comes_first(m[0], m[1]),
        all_ok(m),
        key_eq(m[0]->Ok_0.0, m[1]->Ok_0.0),
        item == Ok::<(K, SeqMarked<V>), io::Error>((m[0]->Ok_0.0, m[1]->Ok_0.1)),
        latest_in(seq![item] + m.skip(2), x),
    ensures
        latest_in(m, x),
{
    reveal(latest_in);
    let n = seq![item] + m.skip(2);
    assert(n[0] == item);
    assert(m[0] is Ok && m[1] is Ok);
    lemma_key_trichotomy(m[0]->Ok_0.0, m[1]->Ok_0.0);
    let i = choose|i: int| 0 <= i < n.len() && (#[trigger] n[i])->Ok_0.0 == x->Ok_0.0;
    assert(m[if i == 0 { 0 } else { i + 1 }]->Ok_0.0 == x->Ok_0.0);
    let k = choose|i: int|
        {
            &&& 0 <= i < n.len()
            &&& key_eq((#[trigger] n[i])->Ok_0.0, x->Ok_0.0)
            &&& n[i]->Ok_0.1 == x->Ok_0.1
        };
    if k == 0 {
        lemma_key_transitive(m[1]->Ok_0.0, m[0]->Ok_0.0, x->Ok_0.0);
        assert(key_eq(m[1]->Ok_0.0, x->Ok_0.0));
    } else {
        assert(m[k + 1] == n[k]);
    }
    assert forall|i: int|
        0 <= i < m.len() && key_eq(
            (#[trigger] m[i])->Ok_0.0,
            x->Ok_0.0,
        ) implies m[i]->Ok_0.1.rank() <= x->Ok_0.1.rank() by {
        if i == 1 {
            lemma_key_transitive(m[0]->Ok_0.0, m[1]->Ok_0.0, x->Ok_0.0);
        }
        let a: int = if i < 2 { 0 } else { i - 1 };
        assert(key_eq(n[a]->Ok_0.0, x->Ok_0.0));
    }
}

proof fn lemma_latest_joined<K: Ord, V>(
    m: Seq<ReadItem<K, V>>,
    item: ReadItem<K, V>,
    out: Seq<ReadItem<K, V>>,
)
    requires
        ordered::<K>(),
        all_ok(m),
        ascending(m),
        m.len() >= 2,
        joined(m[0], m[1]) == Some(item),
        item == Ok::<(K, SeqMarked<V>), io::Error>((m[0]->Ok_0.0, m[1]->Ok_0.1)),
        leaves_latest(seq![item] + m.skip(2), out),
    ensures
        leaves_latest(m, out),
{
    let n = seq![item] + m.skip(2);
    assert(comes_first(m[0], m[1]));
    assert(m[0] is Ok && m[1] is Ok);
    lemma_key_trichotomy(m[0]->Ok_0.0, m[1]->Ok_0.0);
    assert forall|j: int| 0 <= j < out.len() implies latest_in(m, #[trigger] out[j]) by {
        lemma_latest_in_joined(m, item, out[j]);
    }
    assert forall|i: int| 0 <= i < m.len() implies covered(out, #[trigger] m[i]) by {
        reveal(covered);
        let a: int = if i < 2 { 0 } else { i - 1 };
        assert(covered(out, n[a]));
        if i == 1 {
            let j = choose|j: int|
                0 <= j < out.len() && key_eq((#[trigger] out[j])->Ok_0.0, n[0]->Ok_0.0);
            lemma_key_transitive(out[j]->Ok_0.0, m[0]->Ok_0.0, m[1]->Ok_0.0);
            assert(key_eq(out[j]->Ok_0.0, m[1]->Ok_0.0));
        } else {
            assert(m[i]->Ok_0.0 == n[a]->Ok_0.0);
        }
    }
}

proof fn lemma_latest_in_apart<K: Ord, V>(m: Seq<ReadItem<K, V>>, x: ReadItem<K, V>)
    requires
        ordered::<K>(),
        m.len() >= 1,
        forall|i: int| 1 <= i < m.len() ==> key_lt(m[0]->Ok_0.0, (#[trigger] m[i])->Ok_0.0),
        latest_in(m.skip(1), x),
    ensures
        latest_in(m, x),
        key_lt(m[0]->Ok_0.0, x->Ok_0.0),
{
    reveal(latest_in);
    let n = m.skip(1);
    let i = choose|i: int| 0 <= i < n.len() && (#[trigger] n[i])->Ok_0.0 == x->Ok_0.0;
    assert(m[i + 1]->Ok_0.0 == x->Ok_0.0);
    let k = choose|i: int|
        {
            &&& 0 <= i < n.len()
            &&& key_eq((#[trigger] n[i])->Ok_0.0, x->Ok_0.0)
            &&& n[i]->Ok_0.1 == x->Ok_0.1
        };
    assert(m[k + 1] == n[k]);
    assert forall|i: int|
        0 <= i < m.len() && key_eq(
            (#[trigger] m[i])->Ok_0.0,
            x->Ok_0.0,
        ) implies m[i]->Ok_0.1.rank() <= x->Ok_0.1.rank() by {
        if i == 0 {
            lemma_key_trichotomy(m[0]->Ok_0.0, x->Ok_0.0);
        } else {
            assert(key_eq(n[i - 1]->Ok_0.0, x->Ok_0.0));
        }
    }
}

proof fn lemma_first_latest<K: Ord, V>(m: Seq<ReadItem<K, V>>)
    requires
        ordered::<K>(),
        m.len() >= 1,
        m[0] is Ok,
        forall|i: int| 1 <= i < m.len() ==> key_lt(m[0]->Ok_0.0, (#[trigger] m[i])->Ok_0.0),
    ensures
        latest_in(m, m[0]),
{
    reveal(latest_in);
    lemma_key_trichotomy(m[0]->Ok_0.0, m[0]->Ok_0.0);
    assert forall|i: int|
        0 <= i < m.len() && key_eq(
            (#[trigger] m[i])->Ok_0.0,
            m[0]->Ok_0.0,
        ) implies m[i]->Ok_0.1.rank() <= m[0]->Ok_0.1.rank() by {
        if i > 0 {
            lemma_key_trichotomy(m[0]->Ok_0.0, m[i]->Ok_0.0);
        }
    }
}

proof fn lemma_covered<K: Ord, V>(out: Seq<ReadItem<K, V>>, x: ReadItem<K, V>, j: int)
    requires
        0 <= j < out.len(),
        key_eq(out[j]->Ok_0.0, x->Ok_0.0),
    ensures
        covered(out, x),
{
    reveal(covered);
}

proof fn lemma_covered_after<K: Ord, V>(
    first: ReadItem<K, V>,
    rest: Seq<ReadItem<K, V>>,
    x: ReadItem<K, V>,
)
    requires
        covered(rest, x),
    ensures
        covered(seq![first] + rest, x),
{
    reveal(covered);
    let j = choose|j: int| 0 <= j < rest.len() && key_eq((#[trigger] rest[j])->Ok_0.0, x->Ok_0.0);
    assert((seq![first] + rest)[j + 1] == rest[j]);
}

proof fn lemma_latest_apart<K: Ord, V>(m: Seq<ReadItem<K, V>>, rest: Seq<ReadItem<K, V>>)
    requires
        ordered::<K>(),
        all_ok(m),
        ascending(m),
        m.len() >= 2,
        joined(m[0], m[1]) is None,
        leaves_latest(m.skip(1), rest),
    ensures
        leaves_latest(m, seq![m[0]] + rest),
{
    let n = m.skip(1);
    let out = seq![m[0]] + rest;
    assert(m[0] is Ok && m[1] is Ok);
    assert forall|i: int| 1 <= i < m.len() implies key_lt(
        m[0]->Ok_0.0,
        (#[trigger] m[i])->Ok_0.0,
    ) by {
        assert(comes_first(m[0], m[1]));
        if i > 1 {
            assert(comes_first(m[1], m[i]));
        }
        assert(m[i] is Ok);
        lemma_key_trichotomy(m[1]->Ok_0.0, m[i]->Ok_0.0);
        lemma_key_transitive(m[0]->Ok_0.0, m[1]->Ok_0.0, m[i]->Ok_0.0);
    }
    assert forall|j: int| 0 <= j < rest.len() implies key_lt(
        m[0]->Ok_0.0,
        (#[trigger] rest[j])->Ok_0.0,
    ) by {
        lemma_latest_in_apart(m, rest[j]);
    }
    assert forall|j: int| 0 <= j < out.len() implies (#[trigger] out[j]) is Ok by {
        if j > 0 {
            assert(rest[j - 1] is Ok);
        }
    }
    assert forall|i: int, j: int| 0 <= i < j < out.len() implies key_lt(
        (#[trigger] oks(out)[i]).0,
        (#[trigger] oks(out)[j]).0,
    ) by {
        assert(out[j] == rest[j - 1]);
        if i > 0 {
            assert(out[i] == rest[i - 1]);
            assert(key_lt(oks(rest)[i - 1].0, oks(rest)[j - 1].0));
        }
    }
    assert forall|j: int| 0 <= j < out.len() implies latest_in(m, #[trigger] out[j]) by {
        if j == 0 {
            lemma_first_latest(m);
        } else {
            assert(out[j] == rest[j - 1]);
            lemma_latest_in_apart(m, rest[j - 1]);
        }
    }
    assert forall|i: int| 0 <= i < m.len() implies covered(out, #[trigger] m[i]) by {
        if i == 0 {
            lemma_key_trichotomy(m[0]->Ok_0.0, m[0]->Ok_0.0);
            lemma_covered(out, m[0], 0);
        } else {
            assert(n[i - 1] == m[i]);
            lemma_covered_after(m[0], rest, m[i]);
        }
    }
}

/// `merged` holds the items of `a` and those of `b`, each in their order, and nothing else.
/// Each item that comes out may stand before what was then next in the other read.
spec fn merges<K: Ord, V>(
    merged: Seq<ReadItem<K, V>>,
    a: Seq<ReadItem<K, V>>,
    b: Seq<ReadItem<K, V>>,
) -> bool
    decreases merged.len(),
{
    if merged.len() == 0 {
        a.len() == 0 && b.len() == 0
    } else {
        let rest = merged.drop_first();
        ||| {
            &&& a.len() > 0 && a[0] == merged[0]
            &&& b.len() > 0 ==> comes_first(a[0], b[0])
            &&& merges(rest, a.drop_first(), b)
        }
        ||| {
            &&& b.len() > 0 && b[0] == merged[0]
            &&& a.len() > 0 ==> comes_first(b[0], a[0])
            &&& merges(rest, a, b.drop_first())
        }
    }
}

/// Of two items one may stand before the other.
proof fn lemma_comes_first_total<K: Ord, V>(a: ReadItem<K, V>, b: ReadItem<K, V>)
    requires
        ordered::<K>(),
    ensures
        comes_first(a, b) || comes_first(b, a),
{
    if a is Ok && b is Ok {
        lemma_key_trichotomy(a->Ok_0.0, b->Ok_0.0);
    }
}

/// Merging two reads takes the items of both in their order, each before what was then next in
/// the other.
proof fn lemma_merged<K: Ord, V>(last: Seq<ReadItem<K, V>>, other: Seq<ReadItem<K, V>>)
    requires
        ordered::<K>(),
    ensures
        merges(merged(last, other), last, other),
        merges(merged(last, other), other, last),
    decreases last.len() + other.len(),
{
    let m = merged(last, other);
    if last.len() == 0 {
        if other.len() > 0 {
            lemma_merged(last, other.drop_first());
        }
    } else if other.len() == 0 {
        lemma_merged(last.drop_first(), other);
        assert(merged(last.drop_first(), other) =~= m.drop_first());
    } else if comes_first(last[0], other[0]) {
        lemma_merged(last.drop_first(), other);
        assert(m.drop_first() =~= merged(last.drop_first(), other));
    } else {
        lemma_comes_first_total(last[0], other[0]);
        lemma_merged(other.drop_first(), last);
        assert(m.drop_first() =~= merged(other.drop_first(), last));
    }
}

/// A merge holds just what is merged.
proof fn lemma_merges_contains<K: Ord, V>(
    m: Seq<ReadItem<K, V>>,
    a: Seq<ReadItem<K, V>>,
    b: Seq<ReadItem<K, V>>,
    x: ReadItem<K, V>,
)
    requires
        merges(m, a, b),
    ensures
        m.contains(x) <==> a.contains(x) || b.contains(x),
    decreases m.len(),
{
    if m.len() > 0 {
        let rest = m.drop_first();
        assert(m.contains(x) <==> m[0] == x || rest.contains(x)) by {
            lemma_contains_first(m, x);
        }
        if a.len() > 0 && a[0] == m[0] && merges(rest, a.drop_first(), b) {
            lemma_contains_first(a, x);
            lemma_merges_contains(rest, a.drop_first(), b, x);
        } else {
            lemma_contains_first(b, x);
            lemma_merges_contains(rest, a, b.drop_first(), x);
        }
    }
}

/// Merging sorted items that did not fail leaves them sorted.
proof fn lemma_merges_ascending<K: Ord, V>(
    m: Seq<ReadItem<K, V>>,
    a: Seq<ReadItem<K, V>>,
    b: Seq<ReadItem<K, V>>,
)
    requires
        ordered::<K>(),
        merges(m, a, b),
        all_ok(a),
        all_ok(b),
        ascending(a),
        ascending(b),
    ensures
        ascending(m),
    decreases m.len(),
{
    if m.len() > 0 {
        let rest = m.drop_first();
        assert(m =~= seq![m[0]] + rest);
        let from_a = a.len() > 0 && a[0] == m[0] && (b.len() > 0 ==> comes_first(a[0], b[0]))
            && merges(rest, a.drop_first(), b);
        let (x, y) = if from_a {
            (a, b)
        } else {
            (b, a)
        };
        let next = x.drop_first();
        assert forall|i: int| 0 <= i < next.len() implies (#[trigger] next[i]) is Ok by {
            assert(x[i + 1] is Ok);
        }
        assert forall|i: int, j: int| 0 <= i < j < next.len() implies comes_first(
            #[trigger] next[i],
            #[trigger] next[j],
        ) by {
            assert(comes_first(x[i + 1], x[j + 1]));
        }
        if from_a {
            lemma_merges_ascending(rest, next, b);
        } else {
            lemma_merges_ascending(rest, a, next);
        }
        assert forall|j: int| 0 <= j < rest.len() implies comes_first(m[0], #[trigger] rest[j]) by {
            if from_a {
                lemma_merges_contains(rest, next, b, rest[j]);
            } else {
                lemma_merges_contains(rest, a, next, rest[j]);
            }
            assert(rest.contains(rest[j]));
            if next.contains(rest[j]) {
                let k = choose|k: int| 0 <= k < next.len() && next[k] == rest[j];
                assert(comes_first(x[0], x[k + 1]));
            } else {
                let k = choose|k: int| 0 <= k < y.len() && y[k] == rest[j];
                assert(comes_first(x[0], y[0]));
                assert(y[0] is Ok);
                if k > 0 {
                    assert(comes_first(y[0], y[k]));
                    lemma_comes_first_transitive(x[0], y[0], y[k]);
                }
            }
        }
        assert forall|i: int, j: int| 0 <= i < j < m.len() implies comes_first(
            #[trigger] m[i],
            #[trigger] m[j],
        ) by {
            assert(m[j] == rest[j - 1]);
            if i > 0 {
                assert(comes_first(rest[i - 1], rest[j - 1]));
            }
        }
    }
}

proof fn lemma_contains_first<T>(s: Seq<T>, x: T)
    requires
        s.len() > 0,
    ensures
        s.contains(x) <==> s[0] == x || s.drop_first().contains(x),
{
    let rest = s.drop_first();
    if s.contains(x) {
        let i = choose|i: int| 0 <= i < s.len() && s[i] == x;
        if i > 0 {
            assert(rest[i - 1] == x);
        }
    }
    if rest.contains(x) {
        let i = choose|i: int| 0 <= i < rest.len() && rest[i] == x;
        assert(s[i + 1] == x);
    }
}

/// An item stands in the merge of `base` and `updates`, so one of them says the same of its
/// key.
proof fn lemma_source<K: Ord, V>(
    base: Seq<ReadItem<K, V>>,
    updates: Seq<ReadItem<K, V>>,
    m: Seq<ReadItem<K, V>>,
    key: K,
    i: int,
)
    requires
        ordered::<K>(),
        all_ok(base),
        all_ok(updates),
        keys_ascend(oks(base)),
        keys_ascend(oks(updates)),
        merges(m, base, updates),
        0 <= i < m.len(),
        key_eq(m[i]->Ok_0.0, key),
    ensures
        at_key(oks(base), key) == Some(m[i]->Ok_0.1) || at_key(oks(updates), key) == Some(
            m[i]->Ok_0.1,
        ),
{
    lemma_merges_contains(m, base, updates, m[i]);
    assert(m.contains(m[i]));
    if base.contains(m[i]) {
        let b = choose|b: int| 0 <= b < base.len() && base[b] == m[i];
        assert(oks(base)[b] == m[i]->Ok_0);
        lemma_at_key(oks(base), key, b);
    } else {
        let u = choose|u: int| 0 <= u < updates.len() && updates[u] == m[i];
        assert(oks(updates)[u] == m[i]->Ok_0);
        lemma_at_key(oks(updates), key, u);
    }
}

/// What one of two merged reads says of a key, the merge has an item of.
proof fn lemma_in_merge<K: Ord, V>(
    a: Seq<ReadItem<K, V>>,
    m: Seq<ReadItem<K, V>>,
    key: K,
) -> (i: int)
    requires
        at_key(oks(a), key) is Some,
        forall|x: ReadItem<K, V>| a.contains(x) ==> m.contains(x),
    ensures
        0 <= i < m.len(),
        key_eq(m[i]->Ok_0.0, key),
        at_key(oks(a), key) == Some(m[i]->Ok_0.1),
{
    let j = choose|j: int| 0 <= j < oks(a).len() && key_eq((#[trigger] oks(a)[j]).0, key);
    assert(a.contains(a[j]));
    assert(m.contains(a[j]));
    choose|i: int| 0 <= i < m.len() && m[i] == a[j]
}

proof fn lemma_later_of<K: Ord, V>(
    base: Seq<ReadItem<K, V>>,
    updates: Seq<ReadItem<K, V>>,
    m: Seq<ReadItem<K, V>>,
    out: Seq<ReadItem<K, V>>,
    key: K,
)
    requires
        ordered::<K>(),
        all_ok(base),
        all_ok(updates),
        keys_ascend(oks(base)),
        keys_ascend(oks(updates)),
        merges(m, base, updates),
        leaves_latest(m, out),
    ensures
        later_of(at_key(oks(base), key), at_key(oks(updates), key), at_key(oks(out), key)),
{
    let b = at_key(oks(base), key);
    let u = at_key(oks(updates), key);
    assert forall|x: ReadItem<K, V>| base.contains(x) || updates.contains(x) implies m.contains(
        x,
    ) by {
        lemma_merges_contains(m, base, updates, x);
    }
    if exists|j: int| 0 <= j < out.len() && key_eq((#[trigger] oks(out)[j]).0, key) {
        let j = choose|j: int| 0 <= j < out.len() && key_eq((#[trigger] oks(out)[j]).0, key);
        let x = out[j];
        lemma_at_key(oks(out), key, j);
        assert(latest_in(m, x));
        reveal(latest_in);
        let i = choose|i: int|
            {
                &&& 0 <= i < m.len()
                &&& key_eq((#[trigger] m[i])->Ok_0.0, x->Ok_0.0)
                &&& m[i]->Ok_0.1 == x->Ok_0.1
            };
        lemma_key_transitive(m[i]->Ok_0.0, x->Ok_0.0, key);
        lemma_source(base, updates, m, key, i);
        lemma_key_trichotomy(x->Ok_0.0, key);
        if b is Some {
            let k = lemma_in_merge(base, m, key);
            lemma_key_trichotomy(m[k]->Ok_0.0, key);
            lemma_key_transitive(m[k]->Ok_0.0, key, x->Ok_0.0);
        }
        if u is Some {
            let k = lemma_in_merge(updates, m, key);
            lemma_key_trichotomy(m[k]->Ok_0.0, key);
            lemma_key_transitive(m[k]->Ok_0.0, key, x->Ok_0.0);
        }
    } else {
        if b is Some || u is Some {
            let k = if b is Some {
                lemma_in_merge(base, m, key)
            } else {
                lemma_in_merge(updates, m, key)
            };
            assert(covered(out, m[k]));
            reveal(covered);
            let j = choose|j: int|
                0 <= j < out.len() && key_eq((#[trigger] out[j])->Ok_0.0, m[k]->Ok_0.0);
            lemma_key_transitive(out[j]->Ok_0.0, m[k]->Ok_0.0, key);
            assert(key_eq(oks(out)[j].0, key));
        }
    }
}

/// What is left of the merge of two reads carries a key of one of them.
proof fn lemma_key_source<K: Ord, V>(
    base: Seq<ReadItem<K, V>>,
    updates: Seq<ReadItem<K, V>>,
    m: Seq<ReadItem<K, V>>,
    x: ReadItem<K, V>,
)
    requires
        merges(m, base, updates),
        latest_in(m, x),
    ensures
        has_key(oks(base), x->Ok_0.0) || has_key(oks(updates), x->Ok_0.0),
{
    reveal(latest_in);
    let i = choose|i: int| 0 <= i < m.len() && (#[trigger] m[i])->Ok_0.0 == x->Ok_0.0;
    lemma_merges_contains(m, base, updates, m[i]);
    assert(m.contains(m[i]));
    if base.contains(m[i]) {
        let b = choose|b: int| 0 <= b < base.len() && base[b] == m[i];
        assert(oks(base)[b].0 == x->Ok_0.0);
    } else {
        let u = choose|u: int| 0 <= u < updates.len() && updates[u] == m[i];
        assert(oks(updates)[u].0 == x->Ok_0.0);
    }
}

/// Coalescing the sorted merge of two reads overlays the one with the other.
proof fn lemma_overlaid<K: Ord, V>(
    base: Seq<ReadItem<K, V>>,
    updates: Seq<ReadItem<K, V>>,
    m: Seq<ReadItem<K, V>>,
)
    requires
        ordered::<K>(),
        all_ok(base),
        all_ok(updates),
        keys_ascend(oks(base)),
        keys_ascend(oks(updates)),
        merges(m, base, updates),
        ascending(m),
    ensures
        all_ok(coalesced(m)),
        overlaid(oks(base), oks(updates), oks(coalesced(m))),
{
    let out = coalesced(m);
    assert forall|i: int| 0 <= i < m.len() implies (#[trigger] m[i]) is Ok by {
        lemma_merges_contains(m, base, updates, m[i]);
        assert(m.contains(m[i]));
    }
    lemma_coalesced(m);
    assert forall|key: K| #[trigger]
        later_of(at_key(oks(base), key), at_key(oks(updates), key), at_key(oks(out), key)) by {
        lemma_later_of(base, updates, m, out, key);
    }
    assert forall|j: int| 0 <= j < oks(out).len() implies has_key(
        oks(base),
        (#[trigger] oks(out)[j]).0,
    ) || has_key(oks(updates), oks(out)[j].0) by {
        lemma_key_source(base, updates, m, out[j]);
    }
}

/// Items whose keys ascend are sorted.
proof fn lemma_ascending<K: Ord, V>(s: Seq<ReadItem<K, V>>)
    requires
        all_ok(s),
        keys_ascend(oks(s)),
    ensures
        ascending(s),
{
    assert forall|i: int, j: int| 0 <= i < j < s.len() implies comes_first(
        #[trigger] s[i],
        #[trigger] s[j],
    ) by {
        assert(key_lt(oks(s)[i].0, oks(s)[j].0));
    }
}

/// One more item in front is one more failure, if it failed.
proof fn lemma_failures_first<T>(first: Result<T, io::Error>, rest: Seq<Result<T, io::Error>>)
    ensures
        failures(seq![first] + rest) == if first is Err {
            seq![first] + failures(rest)
        } else {
            failures(rest)
        },
{
    let p = |item: Result<T, io::Error>| item is Err;
    let one = seq![first];
    Seq::filter_distributes_over_add(one, rest, p);
    reveal(Seq::filter);
    assert(one.drop_last() =~= Seq::<Result<T, io::Error>>::empty());
    assert(one.drop_last().filter(p) =~= Seq::<Result<T, io::Error>>::empty());
    if first is Err {
        assert(one.filter(p) =~= one);
    } else {
        assert(one.filter(p) =~= Seq::<Result<T, io::Error>>::empty());
        assert(one.filter(p) + failures(rest) =~= failures(rest));
    }
}

/// Merging a read with items that did not fail adds no failure and loses none.
proof fn lemma_merges_failures<K: Ord, V>(
    m: Seq<ReadItem<K, V>>,
    a: Seq<ReadItem<K, V>>,
    b: Seq<ReadItem<K, V>>,
)
    requires
        merges(m, a, b),
        all_ok(b),
    ensures
        failures(m) == failures(a),
    decreases m.len(),
{
    if m.len() > 0 {
        let rest = m.drop_first();
        assert(m =~= seq![m[0]] + rest);
        lemma_failures_first(m[0], rest);
        if a.len() > 0 && a[0] == m[0] && merges(rest, a.drop_first(), b) {
            assert(a =~= seq![a[0]] + a.drop_first());
            lemma_failures_first(a[0], a.drop_first());
            lemma_merges_failures(rest, a.drop_first(), b);
        } else {
            assert(b[0] is Ok);
            let next = b.drop_first();
            assert forall|i: int| 0 <= i < next.len() implies (#[trigger] next[i]) is Ok by {
                assert(b[i + 1] is Ok);
            }
            lemma_merges_failures(rest, a, next);
        }
    } else {
        assert(m =~= a);
    }
}

/// Coalescing adds no failure and loses none.
proof fn lemma_coalesced_failures<K: Ord, V>(m: Seq<ReadItem<K, V>>)
    ensures
        failures(coalesced(m)) == failures(m),
    decreases m.len(),
{
    if m.len() >= 2 {
        assert(m =~= seq![m[0]] + m.skip(1));
        lemma_failures_first(m[0], m.skip(1));
        if let Some(item) = joined(m[0], m[1]) {
            assert(m.skip(1) =~= seq![m[1]] + m.skip(2));
            lemma_failures_first(m[1], m.skip(2));
            lemma_failures_first(item, m.skip(2));
            lemma_coalesced_failures(seq![item] + m.skip(2));
        } else {
            lemma_coalesced_failures(m.skip(1));
            lemma_failures_first(m[0], coalesced(m.skip(1)));
        }
    }
}

/// What merging `updates` into `base` gives: the items of both, with runs of items of one key
/// joined.
pub open spec fn merge_of<K: Ord, V>(
    base: Seq<ReadItem<K, V>>,
    updates: Seq<ReadItem<K, V>>,
) -> Seq<ReadItem<K, V>> {
    coalesced(merged(updates, base))
}

/// Merging items that did not fail into a read hands on each of its failures, in their order,
/// and adds none.
pub proof fn law_merge_hands_failures_on<K: Ord, V>(
    base: Seq<ReadItem<K, V>>,
    updates: Seq<ReadItem<K, V>>,
)
    requires
        ordered::<K>(),
        all_ok(updates),
    ensures
        failures(merge_of(base, updates)) == failures(base),
{
    lemma_merged(updates, base);
    lemma_merges_failures(merged(updates, base), base, updates);
    lemma_coalesced_failures(merged(updates, base));
}

/// Where a read did not fail and the keys of both ascend, merging changes into it overlays it with
/// them.
pub proof fn lemma_merge_overlays<K: Ord, V>(
    base: Seq<ReadItem<K, V>>,
    updates: Seq<(K, SeqMarked<V>)>,
)
    requires
        ordered::<K>(),
        all_ok(base),
        keys_ascend(oks(base)),
        keys_ascend(updates),
    ensures
        all_ok(merge_of(base, ok_items(updates))),
        overlaid(oks(base), updates, oks(merge_of(base, ok_items(updates)))),
{
    let u = ok_items(updates);
    assert(oks(u) =~= updates);
    lemma_ascending(base);
    lemma_ascending(u);
    lemma_merged(u, base);
    lemma_merges_ascending(merged(u, base), base, u);
    lemma_overlaid(base, u, merged(u, base));
}

/// Merges changes into a read.
///
/// Where the read did not fail and the keys of both ascend, the result says of every key what
/// is the later of what they say of it.
pub fn merge_reads<K: Ord + Send, V: Send>(
    base: IOResultStream<(K, SeqMarked<V>)>,
    updates: Vec<(K, SeqMarked<V>)>,
) -> (r: IOResultStream<(K, SeqMarked<V>)>)
    requires
        ordered::<K>(),
    ensures
        r@ == merge_of(base@, ok_items(updates@)),
        failures(r@) == failures(base@),
        all_ok(base@) && keys_ascend(oks(base@)) && keys_ascend(updates@) ==> all_ok(r@)
            && overlaid(oks(base@), updates@, oks(r@)),
{
    let ghost b = base@;
    let ghost changes = updates@;
    let updates = into_stream(updates);
    let ghost u = updates@;
    let merged = kmerge(base, updates);
    let result = coalesce(merged);
    proof {
        law_merge_hands_failures_on(b, u);
        if all_ok(b) && keys_ascend(oks(b)) && keys_ascend(changes) {
            lemma_merge_overlays(b, changes);
        }
    }
    result
}

} // verus!
