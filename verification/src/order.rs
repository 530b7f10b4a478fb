//! The order of keys.
//!
//! Keys are compared through their `Ord` implementation only. Two keys that compare as
//! equal are one key to every structure of this crate, whatever else tells them apart.

use std::cmp::Ordering;
use vstd::laws_cmp::obeys_cmp;
use vstd::prelude::*;
use vstd::std_specs::cmp::PartialOrdSpec;

verus! {

/// The comparisons of `K` agree with each other and form a total order.
pub open spec fn ordered<K: Ord>() -> bool {
    obeys_cmp::<K>()
}

/// `a` comes strictly before `b`.
pub open spec fn key_lt<K: Ord>(a: K, b: K) -> bool {
    a.partial_cmp_spec(&b) == Some(Ordering::Less)
}

/// `a` and `b` are the same key.
pub open spec fn key_eq<K: Ord>(a: K, b: K) -> bool {
    a.partial_cmp_spec(&b) == Some(Ordering::Equal)
}

/// Of two keys, either one comes before the other or they are the same key.
pub proof fn lemma_key_trichotomy<K: Ord>(a: K, b: K)
    requires
        ordered::<K>(),
    ensures
        key_lt(a, b) || key_eq(a, b) || key_lt(b, a),
        !(key_lt(a, b) && key_eq(a, b)),
        !(key_lt(a, b) && key_lt(b, a)),
        key_eq(a, b) == key_eq(b, a),
        key_eq(a, a),
{
    reveal(vstd::laws_cmp::obeys_partial_cmp_spec_properties);
    reveal(vstd::laws_cmp::obeys_cmp_partial_ord);
    reveal(vstd::laws_cmp::obeys_cmp_ord);
    reveal(vstd::laws_eq::obeys_eq_spec_properties);
}

/// `key_lt` and `key_eq` chain.
pub proof fn lemma_key_transitive<K: Ord>(a: K, b: K, c: K)
    requires
        ordered::<K>(),
    ensures
        key_lt(a, b) && key_lt(b, c) ==> key_lt(a, c),
        key_lt(a, b) && key_eq(b, c) ==> key_lt(a, c),
        key_eq(a, b) && key_lt(b, c) ==> key_lt(a, c),
        key_eq(a, b) && key_eq(b, c) ==> key_eq(a, c),
{
    lemma_key_trichotomy(a, b);
    lemma_key_trichotomy(b, c);
    lemma_key_trichotomy(a, c);
    reveal(vstd::laws_cmp::obeys_partial_cmp_spec_properties);
    reveal(vstd::laws_eq::obeys_eq_spec_properties);
}

/// Whether `a` comes strictly before `b`.
pub fn key_less<K: Ord>(a: &K, b: &K) -> (r: bool)
    requires
        ordered::<K>(),
    ensures
        r == key_lt(*a, *b),
{
    proof {
        reveal(vstd::laws_cmp::obeys_cmp_partial_ord);
    }
    a < b
}

/// Whether `a` and `b` are the same key.
pub fn key_same<K: Ord>(a: &K, b: &K) -> (r: bool)
    requires
        ordered::<K>(),
    ensures
        r == key_eq(*a, *b),
{
    proof {
        reveal(vstd::laws_cmp::obeys_cmp_partial_ord);
    }
    a == b
}

} // verus!
