//! Sequences read as finite maps.
//!
//! A store kept as a vector of entries, each carrying its own key, is modelled
//! as the `Map` from keys to entries, later entries shadowing earlier ones.
//! When the keys are pairwise distinct the vector operations `push`, `update`
//! and `remove` act on that map as `insert` and `remove`; the lemmas here say
//! so once, for every such store in the crate.

use vstd::prelude::*;

verus! {

/// The map a sequence of entries denotes under key function `kf`.
pub open spec fn keyed_map<K, T>(s: Seq<T>, kf: spec_fn(T) -> K) -> Map<K, T>
    decreases s.len(),
{
    if s.len() == 0 {
        Map::empty()
    } else {
        keyed_map(s.drop_last(), kf).insert(kf(s.last()), s.last())
    }
}

/// No two entries share a key.
pub open spec fn distinct_keys<K, T>(s: Seq<T>, kf: spec_fn(T) -> K) -> bool {
    forall|i: int, j: int| 0 <= i < j < s.len() ==> kf(s[i]) != kf(s[j])
}

/// A key is in the map exactly when some entry carries it.
pub proof fn lemma_keyed_map_dom<K, T>(s: Seq<T>, kf: spec_fn(T) -> K, k: K)
    ensures
        keyed_map(s, kf).contains_key(k) <==> exists|i: int| 0 <= i < s.len() && kf(s[i]) == k,
    decreases s.len(),
{
    if s.len() == 0 {
    } else {
        lemma_keyed_map_dom(s.drop_last(), kf, k);
        if kf(s.last()) == k {
            assert(kf(s[s.len() - 1]) == k);
        } else if keyed_map(s, kf).contains_key(k) {
            let i = choose|i: int| 0 <= i < s.drop_last().len() && kf(s.drop_last()[i]) == k;
            assert(kf(s[i]) == k);
        } else if exists|i: int| 0 <= i < s.len() && kf(s[i]) == k {
            let i = choose|i: int| 0 <= i < s.len() && kf(s[i]) == k;
            assert(i < s.len() - 1);
            assert(kf(s.drop_last()[i]) == k);
        }
    }
}

/// Under distinct keys, the entry at an index is the map's value at its key.
pub proof fn lemma_keyed_map_at<K, T>(s: Seq<T>, kf: spec_fn(T) -> K, i: int)
    requires
        distinct_keys(s, kf),
        0 <= i < s.len(),
    ensures
        keyed_map(s, kf).contains_key(kf(s[i])),
        keyed_map(s, kf)[kf(s[i])] == s[i],
    decreases s.len(),
{
    if i == s.len() - 1 {
    } else {
        assert(distinct_keys(s.drop_last(), kf));
        assert(s.drop_last()[i] == s[i]);
        lemma_keyed_map_at(s.drop_last(), kf, i);
        assert(kf(s[s.len() - 1]) != kf(s[i]));
    }
}

/// Pushing an entry inserts it.
pub proof fn lemma_keyed_map_push<K, T>(s: Seq<T>, kf: spec_fn(T) -> K, x: T)
    ensures
        keyed_map(s.push(x), kf) == keyed_map(s, kf).insert(kf(x), x),
{
    assert(s.push(x).drop_last() =~= s);
    assert(s.push(x).last() == x);
}

/// Overwriting an entry in place, key kept, inserts the new entry.
pub proof fn lemma_keyed_map_update<K, T>(s: Seq<T>, kf: spec_fn(T) -> K, i: int, x: T)
    requires
        distinct_keys(s, kf),
        0 <= i < s.len(),
        kf(x) == kf(s[i]),
    ensures
        keyed_map(s.update(i, x), kf) == keyed_map(s, kf).insert(kf(x), x),
    decreases s.len(),
{
    let u = s.update(i, x);
    if i == s.len() - 1 {
        assert(u.drop_last() =~= s.drop_last());
        assert(u.last() == x);
        assert(keyed_map(s.drop_last(), kf).insert(kf(s.last()), s.last()).insert(kf(x), x)
            =~= keyed_map(s.drop_last(), kf).insert(kf(x), x));
    } else {
        assert(u.drop_last() =~= s.drop_last().update(i, x));
        assert(u.last() == s.last());
        assert(distinct_keys(s.drop_last(), kf));
        assert(s.drop_last()[i] == s[i]);
        lemma_keyed_map_update(s.drop_last(), kf, i, x);
        assert(kf(s.last()) != kf(x));
        assert(keyed_map(s.drop_last(), kf).insert(kf(x), x).insert(kf(s.last()), s.last())
            =~= keyed_map(s.drop_last(), kf).insert(kf(s.last()), s.last()).insert(kf(x), x));
    }
}

/// Removing the entry at an index removes its key.
pub proof fn lemma_keyed_map_remove<K, T>(s: Seq<T>, kf: spec_fn(T) -> K, i: int)
    requires
        distinct_keys(s, kf),
        0 <= i < s.len(),
    ensures
        keyed_map(s.remove(i), kf) == keyed_map(s, kf).remove(kf(s[i])),
    decreases s.len(),
{
    let r = s.remove(i);
    if i == s.len() - 1 {
        assert(r =~= s.drop_last());
        lemma_keyed_map_dom(s.drop_last(), kf, kf(s[i]));
        assert(forall|j: int| 0 <= j < s.drop_last().len() ==> kf(s.drop_last()[j]) != kf(s[i]));
        assert(keyed_map(s.drop_last(), kf).insert(kf(s.last()), s.last()).remove(kf(s.last()))
            =~= keyed_map(s.drop_last(), kf));
    } else {
        assert(r.drop_last() =~= s.drop_last().remove(i));
        assert(r.last() == s.last());
        assert(distinct_keys(s.drop_last(), kf));
        assert(s.drop_last()[i] == s[i]);
        lemma_keyed_map_remove(s.drop_last(), kf, i);
        assert(kf(s.last()) != kf(s[i]));
        assert(keyed_map(s.drop_last(), kf).remove(kf(s[i])).insert(kf(s.last()), s.last())
            =~= keyed_map(s.drop_last(), kf).insert(kf(s.last()), s.last()).remove(kf(s[i])));
    }
}

} // verus!
