use vstd::prelude::*;

verus! {

/// The finite map that a list of distinct keys and a list of values of the
/// same length stand for: the key at each position maps to the value at that
/// position.
pub open spec fn assoc<K, V>(keys: Seq<K>, vals: Seq<V>) -> Map<K, V> {
    Map::new(|k: K| keys.contains(k), |k: K| vals[keys.index_of(k)])
}

/// With distinct keys, the key at position `i` maps to the value at position `i`.
pub proof fn lemma_assoc_at<K, V>(keys: Seq<K>, vals: Seq<V>, i: int)
    requires
        keys.no_duplicates(),
        0 <= i < keys.len(),
    ensures
        keys.contains(keys[i]),
        keys.index_of(keys[i]) == i,
        assoc(keys, vals).contains_key(keys[i]),
        assoc(keys, vals)[keys[i]] == vals[i],
{
}

/// Appending a fresh key with its value inserts the pair into the map.
pub proof fn lemma_assoc_push<K, V>(keys: Seq<K>, vals: Seq<V>, k: K, v: V)
    requires
        keys.no_duplicates(),
        keys.len() == vals.len(),
        !keys.contains(k),
    ensures
        keys.push(k).no_duplicates(),
        assoc(keys.push(k), vals.push(v)) == assoc(keys, vals).insert(k, v),
{
    let keys2 = keys.push(k);
    let vals2 = vals.push(v);
    assert(keys2.no_duplicates());
    assert forall|x: K| keys2.contains(x) <==> (x == k || keys.contains(x)) by {
        if keys.contains(x) {
            let i = keys.index_of(x);
            assert(keys2[i] == x);
        }
        if x == k {
            assert(keys2[keys.len() as int] == k);
        }
    }
    assert forall|x: K| keys2.contains(x) implies #[trigger] assoc(keys2, vals2)[x] == assoc(
        keys,
        vals,
    ).insert(k, v)[x] by {
        let i = keys2.index_of(x);
        if x != k {
            let j = keys.index_of(x);
            assert(keys2[j] == x);
            assert(i == j);
        } else {
            assert(keys2[keys.len() as int] == k);
            assert(i == keys.len());
        }
    }
    assert(assoc(keys2, vals2) =~= assoc(keys, vals).insert(k, v));
}

/// Replacing the value at position `i` replaces what the key at `i` maps to.
pub proof fn lemma_assoc_update<K, V>(keys: Seq<K>, vals: Seq<V>, i: int, v: V)
    requires
        keys.no_duplicates(),
        keys.len() == vals.len(),
        0 <= i < keys.len(),
    ensures
        assoc(keys, vals.update(i, v)) == assoc(keys, vals).insert(keys[i], v),
{
    let vals2 = vals.update(i, v);
    assert forall|x: K| keys.contains(x) implies #[trigger] assoc(keys, vals2)[x] == assoc(
        keys,
        vals,
    ).insert(keys[i], v)[x] by {
        let j = keys.index_of(x);
        if x == keys[i] {
            assert(j == i);
        }
    }
    assert(assoc(keys, vals2) =~= assoc(keys, vals).insert(keys[i], v));
}

/// Removing position `i` from both lists removes the key at `i` from the map.
pub proof fn lemma_assoc_remove<K, V>(keys: Seq<K>, vals: Seq<V>, i: int)
    requires
        keys.no_duplicates(),
        keys.len() == vals.len(),
        0 <= i < keys.len(),
    ensures
        keys.remove(i).no_duplicates(),
        !keys.remove(i).contains(keys[i]),
        assoc(keys.remove(i), vals.remove(i)) == assoc(keys, vals).remove(keys[i]),
{
    let keys2 = keys.remove(i);
    let vals2 = vals.remove(i);
    assert forall|a: int, b: int|
        0 <= a < keys2.len() && 0 <= b < keys2.len() && a != b implies keys2[a] != keys2[b] by {
        let a1 = if a < i { a } else { a + 1 };
        let b1 = if b < i { b } else { b + 1 };
        assert(keys2[a] == keys[a1]);
        assert(keys2[b] == keys[b1]);
    }
    assert forall|x: K| keys2.contains(x) <==> (keys.contains(x) && x != keys[i]) by {
        if keys2.contains(x) {
            let a = keys2.index_of(x);
            let a1 = if a < i { a } else { a + 1 };
            assert(keys[a1] == x);
        }
        if keys.contains(x) && x != keys[i] {
            let j = keys.index_of(x);
            let j2 = if j < i { j } else { j - 1 };
            assert(keys2[j2] == x);
        }
    }
    assert forall|x: K| keys2.contains(x) implies #[trigger] assoc(keys2, vals2)[x] == assoc(
        keys,
        vals,
    ).remove(keys[i])[x] by {
        let a = keys2.index_of(x);
        let a1 = if a < i { a } else { a + 1 };
        assert(keys[a1] == x);
        assert(keys.index_of(x) == a1);
    }
    assert(assoc(keys2, vals2) =~= assoc(keys, vals).remove(keys[i]));
}

} // verus!
