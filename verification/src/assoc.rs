//! Association lists: sequences of key/value pairs in which no key occurs
//! twice, read as finite maps.

use vstd::prelude::*;

verus! {

/// No key occurs twice in `s`.
pub open spec fn distinct_keys<K, V>(s: Seq<(K, V)>) -> bool {
    forall|i: int, j: int|
        0 <= i < s.len() && 0 <= j < s.len() && i != j ==> #[trigger] s[i].0 != #[trigger] s[j].0
}

/// Some pair of `s` has the key `k`.
pub open spec fn has_key<K, V>(s: Seq<(K, V)>, k: K) -> bool {
    exists|i: int| 0 <= i < s.len() && #[trigger] s[i].0 == k
}

/// The position of the pair with key `k`.
pub open spec fn key_index<K, V>(s: Seq<(K, V)>, k: K) -> int {
    choose|i: int| 0 <= i < s.len() && #[trigger] s[i].0 == k
}

/// The map that `s` stands for.
pub open spec fn to_map<K, V>(s: Seq<(K, V)>) -> Map<K, V> {
    Map::new(|k: K| has_key(s, k), |k: K| s[key_index(s, k)].1)
}


/// The value that `s` holds for `k`, if any.
pub open spec fn lookup<K, V>(s: Seq<(K, V)>, k: K) -> Option<V> {
    if has_key(s, k) {
        Some(to_map(s)[k])
    } else {
        None
    }
}

/// The pair at position `i` is what the map holds for its key.
pub proof fn lemma_to_map_at<K, V>(s: Seq<(K, V)>, i: int)
    requires
        distinct_keys(s),
        0 <= i < s.len(),
    ensures
        to_map(s).dom().contains(s[i].0),
        to_map(s)[s[i].0] == s[i].1,
        key_index(s, s[i].0) == i,
{
    assert(has_key(s, s[i].0));
    let j = key_index(s, s[i].0);
    assert(s[j].0 == s[i].0);
}

/// Appending a pair with a new key inserts it into the map.
pub proof fn lemma_to_map_push<K, V>(s: Seq<(K, V)>, k: K, v: V)
    requires
        distinct_keys(s),
        !has_key(s, k),
    ensures
        distinct_keys(s.push((k, v))),
        to_map(s.push((k, v))) == to_map(s).insert(k, v),
{
    let t = s.push((k, v));
    assert forall|i: int, j: int|
        0 <= i < t.len() && 0 <= j < t.len() && i != j implies #[trigger] t[i].0
        != #[trigger] t[j].0 by {
        if i < s.len() && j < s.len() {
            assert(t[i] == s[i] && t[j] == s[j]);
        } else if i < s.len() {
            assert(t[i] == s[i]);
        } else {
            assert(t[j] == s[j]);
        }
    }
    assert forall|key: K| #[trigger] to_map(t).dom().contains(key) == to_map(s).insert(
        k,
        v,
    ).dom().contains(key) by {
        if has_key(s, key) {
            let i = key_index(s, key);
            assert(t[i] == s[i]);
        }
        if key == k {
            assert(t[s.len() as int].0 == k);
        }
    }
    assert(to_map(t).dom() =~= to_map(s).insert(k, v).dom());
    assert forall|key: K| #[trigger] to_map(t).dom().contains(key) implies to_map(t)[key]
        == to_map(s).insert(k, v)[key] by {
        if key == k {
            lemma_to_map_at(t, s.len() as int);
        } else {
            let i = key_index(s, key);
            assert(t[i] == s[i]);
            lemma_to_map_at(t, i);
            lemma_to_map_at(s, i);
        }
    }
    assert(to_map(t) =~= to_map(s).insert(k, v));
}

/// Replacing the value at position `i` updates the map at its key.
pub proof fn lemma_to_map_update<K, V>(s: Seq<(K, V)>, i: int, v: V)
    requires
        distinct_keys(s),
        0 <= i < s.len(),
    ensures
        distinct_keys(s.update(i, (s[i].0, v))),
        to_map(s.update(i, (s[i].0, v))) == to_map(s).insert(s[i].0, v),
{
    let k = s[i].0;
    let t = s.update(i, (k, v));
    assert forall|a: int, b: int|
        0 <= a < t.len() && 0 <= b < t.len() && a != b implies #[trigger] t[a].0
        != #[trigger] t[b].0 by {
        assert(t[a].0 == s[a].0 && t[b].0 == s[b].0);
    }
    assert forall|key: K| #[trigger] to_map(t).dom().contains(key) == to_map(s).insert(
        k,
        v,
    ).dom().contains(key) by {
        if has_key(s, key) {
            let j = key_index(s, key);
            assert(t[j].0 == s[j].0);
        }
        if has_key(t, key) {
            let j = key_index(t, key);
            assert(t[j].0 == s[j].0);
        }
        assert(t[i].0 == k);
    }
    assert(to_map(t).dom() =~= to_map(s).insert(k, v).dom());
    assert forall|key: K| #[trigger] to_map(t).dom().contains(key) implies to_map(t)[key]
        == to_map(s).insert(k, v)[key] by {
        if key == k {
            lemma_to_map_at(t, i);
        } else {
            let j = key_index(s, key);
            assert(t[j] == s[j]);
            lemma_to_map_at(t, j);
            lemma_to_map_at(s, j);
        }
    }
    assert(to_map(t) =~= to_map(s).insert(k, v));
}

/// Removing the pair at position `i` removes its key from the map.
pub proof fn lemma_to_map_remove<K, V>(s: Seq<(K, V)>, i: int)
    requires
        distinct_keys(s),
        0 <= i < s.len(),
    ensures
        distinct_keys(s.remove(i)),
        to_map(s.remove(i)) == to_map(s).remove(s[i].0),
{
    let k = s[i].0;
    let t = s.remove(i);
    assert forall|a: int| 0 <= a < t.len() implies #[trigger] t[a] == (if a < i {
        s[a]
    } else {
        s[a + 1]
    }) by {}
    assert forall|a: int, b: int|
        0 <= a < t.len() && 0 <= b < t.len() && a != b implies #[trigger] t[a].0
        != #[trigger] t[b].0 by {
        let a1 = if a < i { a } else { a + 1 };
        let b1 = if b < i { b } else { b + 1 };
        assert(t[a] == s[a1] && t[b] == s[b1]);
    }
    assert forall|key: K| #[trigger] to_map(t).dom().contains(key) == to_map(s).remove(
        k,
    ).dom().contains(key) by {
        if has_key(s, key) && key != k {
            let j = key_index(s, key);
            if j < i {
                assert(t[j] == s[j]);
            } else {
                assert(j != i);
                assert(t[j - 1] == s[j]);
            }
        }
        if has_key(t, key) {
            let j = key_index(t, key);
            let j1 = if j < i { j } else { j + 1 };
            assert(t[j] == s[j1]);
            assert(s[j1].0 != s[i].0);
        }
    }
    assert(to_map(t).dom() =~= to_map(s).remove(k).dom());
    assert forall|key: K| #[trigger] to_map(t).dom().contains(key) implies to_map(t)[key]
        == to_map(s).remove(k)[key] by {
        let j = key_index(t, key);
        let j1 = if j < i { j } else { j + 1 };
        assert(t[j] == s[j1]);
        lemma_to_map_at(t, j);
        lemma_to_map_at(s, j1);
    }
    assert(to_map(t) =~= to_map(s).remove(k));
}

} // verus!
