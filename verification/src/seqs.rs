//! Finding the first occurrence of a key in a sequence.

use vstd::prelude::*;

verus! {

/// Whether `i` is the first index at which `keys` holds `k`.
pub open spec fn is_first_index<K>(keys: Seq<K>, k: K, i: int) -> bool {
    &&& 0 <= i < keys.len()
    &&& keys[i] == k
    &&& forall|j: int| 0 <= j < i ==> keys[j] != k
}

/// The first index at which `keys` holds `k`, if it holds `k` at all.
pub open spec fn first_index<K>(keys: Seq<K>, k: K) -> Option<int> {
    if keys.contains(k) {
        Some(choose|i: int| is_first_index(keys, k, i))
    } else {
        None
    }
}

/// `first_index` gives the first index, and gives none only for a key that
/// does not occur.
pub proof fn lemma_first_index<K>(keys: Seq<K>, k: K)
    ensures
        match first_index(keys, k) {
            Some(i) => is_first_index(keys, k, i),
            None => forall|j: int| 0 <= j < keys.len() ==> keys[j] != k,
        },
{
    keys.index_of_first_ensures(k);
    if keys.contains(k) {
        let w = keys.index_of_first(k).unwrap();
        assert(is_first_index(keys, k, w));
    }
}

/// An index known to be the first is the one that `first_index` gives.
pub proof fn lemma_first_index_is<K>(keys: Seq<K>, k: K, i: int)
    requires
        is_first_index(keys, k, i),
    ensures
        first_index(keys, k) == Some(i),
{
    assert(keys.contains(k));
    lemma_first_index(keys, k);
}

/// A key that occurs nowhere has no first index.
pub proof fn lemma_first_index_none<K>(keys: Seq<K>, k: K)
    requires
        forall|j: int| 0 <= j < keys.len() ==> keys[j] != k,
    ensures
        first_index(keys, k) is None,
{
}

} // verus!
