//! Association lists: a sequence of key/value pairs read front to back, where
//! the first pair with a given key decides its value.
use vstd::prelude::*;

verus! {

/// The value that the first pair with key `k` carries, if any.
pub open spec fn assoc_get<K, V>(s: Seq<(K, V)>, k: K) -> Option<V>
    decreases s.len(),
{
    if s.len() == 0 {
        None
    } else if s[0].0 == k {
        Some(s[0].1)
    } else {
        assoc_get(s.drop_first(), k)
    }
}

/// The finite map that an association list denotes.
pub open spec fn assoc_map<K, V>(s: Seq<(K, V)>) -> Map<K, V> {
    Map::new(|k: K| assoc_get(s, k) is Some, |k: K| assoc_get(s, k)->Some_0)
}

/// A key that no pair carries is absent.
pub proof fn lemma_assoc_absent<K, V>(s: Seq<(K, V)>, k: K)
    requires
        forall|j: int| 0 <= j < s.len() ==> s[j].0 != k,
    ensures
        assoc_get(s, k) is None,
    decreases s.len(),
{
    if s.len() > 0 {
        lemma_assoc_absent(s.drop_first(), k);
    }
}

/// The first pair with a key decides its value.
pub proof fn lemma_assoc_first<K, V>(s: Seq<(K, V)>, i: int, k: K)
    requires
        0 <= i < s.len(),
        s[i].0 == k,
        forall|j: int| 0 <= j < i ==> s[j].0 != k,
    ensures
        assoc_get(s, k) == Some(s[i].1),
    decreases i,
{
    if i > 0 {
        lemma_assoc_first(s.drop_first(), i - 1, k);
    }
}

/// Appending a pair for an absent key adds exactly that key.
pub proof fn lemma_assoc_push<K, V>(s: Seq<(K, V)>, k: K, v: V, q: K)
    requires
        assoc_get(s, k) is None,
    ensures
        assoc_get(s.push((k, v)), q) == (if q == k { Some(v) } else { assoc_get(s, q) }),
    decreases s.len(),
{
    if s.len() > 0 {
        assert(s.push((k, v)).drop_first() =~= s.drop_first().push((k, v)));
        lemma_assoc_push(s.drop_first(), k, v, q);
    } else {
        assert(s.push((k, v)).drop_first() =~= s);
    }
}

/// Overwriting the first pair of a key changes that key's value alone.
pub proof fn lemma_assoc_update<K, V>(s: Seq<(K, V)>, i: int, k: K, v: V, q: K)
    requires
        0 <= i < s.len(),
        s[i].0 == k,
        forall|j: int| 0 <= j < i ==> s[j].0 != k,
    ensures
        assoc_get(s.update(i, (k, v)), q) == (if q == k { Some(v) } else { assoc_get(s, q) }),
    decreases i,
{
    if i > 0 {
        assert(s.update(i, (k, v)).drop_first() =~= s.drop_first().update(i - 1, (k, v)));
        lemma_assoc_update(s.drop_first(), i - 1, k, v, q);
    } else {
        assert(s.update(i, (k, v)).drop_first() =~= s.drop_first());
    }
}

/// Map form of `lemma_assoc_push`.
pub proof fn lemma_assoc_map_push<K, V>(s: Seq<(K, V)>, k: K, v: V)
    requires
        forall|j: int| 0 <= j < s.len() ==> s[j].0 != k,
    ensures
        assoc_map(s.push((k, v))) == assoc_map(s).insert(k, v),
{
    lemma_assoc_absent(s, k);
    assert forall|q: K| assoc_get(s.push((k, v)), q) == (if q == k { Some(v) } else { assoc_get(s, q) }) by {
        lemma_assoc_push(s, k, v, q);
    }
    assert(assoc_map(s.push((k, v))) =~= assoc_map(s).insert(k, v));
}

/// Map form of `lemma_assoc_update`.
pub proof fn lemma_assoc_map_update<K, V>(s: Seq<(K, V)>, i: int, k: K, v: V)
    requires
        0 <= i < s.len(),
        s[i].0 == k,
        forall|j: int| 0 <= j < i ==> s[j].0 != k,
    ensures
        assoc_map(s.update(i, (k, v))) == assoc_map(s).insert(k, v),
{
    assert forall|q: K| assoc_get(s.update(i, (k, v)), q) == (if q == k { Some(v) } else { assoc_get(s, q) }) by {
        lemma_assoc_update(s, i, k, v, q);
    }
    assert(assoc_map(s.update(i, (k, v))) =~= assoc_map(s).insert(k, v));
}

} // verus!
