//! Results of reads that may fail outside this crate.

use std::io;
use vstd::prelude::*;

verus! {

/// The error of a read, as the standard library has it. Nothing is claimed of it: the crate
/// only hands it on.
#[verifier::external_type_specification]
#[verifier::external_body]
pub struct ExIoError(io::Error);

/// The items of a read in the order in which they came, each of which may have failed.
pub type IOResultStream<T> = Vec<Result<T, io::Error>>;

/// None of the items failed.
pub open spec fn all_ok<T>(items: Seq<Result<T, io::Error>>) -> bool {
    forall|i: int| 0 <= i < items.len() ==> (#[trigger] items[i]) is Ok
}

/// The items, of which none failed.
pub open spec fn oks<T>(items: Seq<Result<T, io::Error>>) -> Seq<T> {
    items.map_values(|item: Result<T, io::Error>| item->Ok_0)
}

/// The items of a read in which nothing failed.
pub open spec fn ok_items<T>(items: Seq<T>) -> Seq<Result<T, io::Error>> {
    items.map_values(|item: T| Ok::<T, io::Error>(item))
}

/// The items that failed, in their order.
pub open spec fn failures<T>(items: Seq<Result<T, io::Error>>) -> Seq<Result<T, io::Error>> {
    items.filter(|item: Result<T, io::Error>| item is Err)
}

/// `e` is the first failure among the items.
pub open spec fn first_failure<T>(items: Seq<Result<T, io::Error>>, e: io::Error) -> bool {
    exists|i: int|
        0 <= i < items.len() && #[trigger] items[i] == Err::<T, io::Error>(e) && all_ok(
            items.take(i),
        )
}

/// Reading `key` may succeed, where `may` says what reading a key may give.
pub open spec fn may_succeed<K, T>(
    may: spec_fn(K, Result<T, io::Error>) -> bool,
    key: K,
) -> bool {
    exists|value: T| #[trigger] may(key, Ok(value))
}

/// `r` is what reading each of the keys in turn, up to the first read that fails, may give,
/// where `may` says what reading a key may give.
pub open spec fn may_read_in_turn<K, T>(
    may: spec_fn(K, Result<T, io::Error>) -> bool,
    keys: Seq<K>,
    r: Result<Vec<T>, io::Error>,
) -> bool {
    match r {
        Ok(values) => {
            &&& values@.len() == keys.len()
            &&& forall|i: int| 0 <= i < keys.len() ==> may(keys[i], Ok(#[trigger] values@[i]))
        },
        Err(e) => exists|n: int|
            {
                &&& 0 <= n < keys.len()
                &&& may(#[trigger] keys[n], Err(e))
                &&& forall|i: int| 0 <= i < n ==> may_succeed(may, #[trigger] keys[i])
            },
    }
}

/// The items as a stream without failures.
pub fn into_stream<T>(items: Vec<T>) -> (r: IOResultStream<T>)
    ensures
        r@ == ok_items(items@),
        all_ok(r@),
        oks(r@) == items@,
{
    let ghost all = items@;
    let mut result: IOResultStream<T> = Vec::with_capacity(items.len());
    for item in it: items
        invariant
            it.seq() == all,
            all_ok(result@),
            result@.len() == it.index(),
            forall|i: int|
                0 <= i < result@.len() ==> #[trigger] result@[i] == Ok::<T, io::Error>(all[i]),
    {
        result.push(Ok(item));
    }
    proof {
        assert(oks(result@) =~= all);
        assert(result@ =~= ok_items(all));
    }
    result
}

} // verus!
