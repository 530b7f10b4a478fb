//! Keys and the values that belong to them.

use crate::order::{key_eq, lemma_key_trichotomy, ordered};
use vstd::prelude::*;

verus! {

/// A key of a key-value space, with the type of the values that are stored under it.
pub trait MapKey: Clone + Ord + Send {
    /// The values stored under keys of this type.
    type V: Clone + Send;
}

impl MapKey for String {
    type V = Vec<u8>;
}

impl MapKey for u64 {
    type V = Vec<u8>;
}

/// A clone of a key is the same key.
pub open spec fn faithful_clone<K: MapKey>() -> bool {
    forall|a: K, b: K| #[trigger] cloned(a, b) ==> key_eq(a, b)
}

/// Integer keys are ordered, and their clones are the same keys.
pub proof fn lemma_integer_key()
    ensures
        ordered::<u64>(),
        faithful_clone::<u64>(),
{
    broadcast use vstd::laws_cmp::group_laws_cmp;

    assert forall|a: u64, b: u64| #[trigger] cloned(a, b) implies key_eq(a, b) by {
        lemma_key_trichotomy(a, b);
    }
}

} // verus!
