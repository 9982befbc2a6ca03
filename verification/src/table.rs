//! Keyed sequences: a `Vec` whose elements carry unique keys, read as a `Map`.

use vstd::prelude::*;

verus! {

/// Some element of `s` carries key `k`.
pub open spec fn has_key<T, K>(s: Seq<T>, key: spec_fn(T) -> K, k: K) -> bool {
    exists|i: int| 0 <= i < s.len() && #[trigger] key(s[i]) == k
}

/// The position of an element of `s` with key `k` (meaningful when `has_key`).
pub open spec fn key_index<T, K>(s: Seq<T>, key: spec_fn(T) -> K, k: K) -> int {
    choose|i: int| 0 <= i < s.len() && #[trigger] key(s[i]) == k
}

/// No two elements of `s` carry the same key.
pub open spec fn unique_keys<T, K>(s: Seq<T>, key: spec_fn(T) -> K) -> bool {
    forall|i: int, j: int|
        0 <= i < s.len() && 0 <= j < s.len() && i != j ==> #[trigger] key(s[i]) != #[trigger] key(s[j])
}

/// The map from each key to the value of the element that carries it.
pub open spec fn to_map<T, K, W>(s: Seq<T>, key: spec_fn(T) -> K, val: spec_fn(T) -> W) -> Map<K, W> {
    Map::new(|k: K| has_key(s, key, k), |k: K| val(s[key_index(s, key, k)]))
}

pub proof fn lemma_index<T, K, W>(s: Seq<T>, key: spec_fn(T) -> K, val: spec_fn(T) -> W, i: int)
    requires
        unique_keys(s, key),
        0 <= i < s.len(),
    ensures
        to_map(s, key, val).contains_key(key(s[i])),
        to_map(s, key, val)[key(s[i])] == val(s[i]),
        key_index(s, key, key(s[i])) == i,
{
    assert(has_key(s, key, key(s[i])));
    let j = key_index(s, key, key(s[i]));
    assert(key(s[j]) == key(s[i]));
}

pub proof fn lemma_push<T, K, W>(s: Seq<T>, key: spec_fn(T) -> K, val: spec_fn(T) -> W, x: T)
    requires
        unique_keys(s, key),
        !has_key(s, key, key(x)),
    ensures
        unique_keys(s.push(x), key),
        to_map(s.push(x), key, val) == to_map(s, key, val).insert(key(x), val(x)),
{
    let t = s.push(x);
    assert forall|i: int, j: int|
        0 <= i < t.len() && 0 <= j < t.len() && i != j implies #[trigger] key(t[i]) != #[trigger] key(t[j]) by {
        if i < s.len() && j < s.len() {
            assert(t[i] == s[i] && t[j] == s[j]);
        } else if i < s.len() {
            assert(t[i] == s[i]);
        } else {
            assert(t[j] == s[j]);
        }
    }
    let m1 = to_map(t, key, val);
    let m2 = to_map(s, key, val).insert(key(x), val(x));
    assert forall|k: K| m1.contains_key(k) <==> m2.contains_key(k) by {
        if has_key(t, key, k) {
            let i = choose|i: int| 0 <= i < t.len() && #[trigger] key(t[i]) == k;
            if i < s.len() {
                assert(t[i] == s[i]);
                assert(has_key(s, key, k));
            }
        }
        if has_key(s, key, k) {
            let i = choose|i: int| 0 <= i < s.len() && #[trigger] key(s[i]) == k;
            assert(t[i] == s[i]);
            assert(has_key(t, key, k));
        }
        if k == key(x) {
            assert(key(t[s.len() as int]) == k);
        }
    }
    assert forall|k: K| m1.contains_key(k) implies m1[k] == m2[k] by {
        if k == key(x) {
            lemma_index(t, key, val, s.len() as int);
        } else {
            let i = key_index(t, key, k);
            assert(t[i] == s[i]);
            lemma_index(s, key, val, i);
            lemma_index(t, key, val, i);
        }
    }
    assert(m1 =~= m2);
}

pub proof fn lemma_update<T, K, W>(s: Seq<T>, key: spec_fn(T) -> K, val: spec_fn(T) -> W, i: int, x: T)
    requires
        unique_keys(s, key),
        0 <= i < s.len(),
        key(x) == key(s[i]),
    ensures
        unique_keys(s.update(i, x), key),
        to_map(s.update(i, x), key, val) == to_map(s, key, val).insert(key(x), val(x)),
{
    let t = s.update(i, x);
    assert forall|a: int, b: int|
        0 <= a < t.len() && 0 <= b < t.len() && a != b implies #[trigger] key(t[a]) != #[trigger] key(t[b]) by {
        assert(key(t[a]) == key(s[a]));
        assert(key(t[b]) == key(s[b]));
    }
    let m1 = to_map(t, key, val);
    let m2 = to_map(s, key, val).insert(key(x), val(x));
    assert forall|k: K| m1.contains_key(k) <==> m2.contains_key(k) by {
        if has_key(t, key, k) {
            let j = choose|j: int| 0 <= j < t.len() && #[trigger] key(t[j]) == k;
            assert(key(s[j]) == k);
            assert(has_key(s, key, k));
        }
        if has_key(s, key, k) {
            let j = choose|j: int| 0 <= j < s.len() && #[trigger] key(s[j]) == k;
            assert(key(t[j]) == k);
            assert(has_key(t, key, k));
        }
        if k == key(x) {
            assert(key(t[i]) == k);
        }
    }
    assert forall|k: K| m1.contains_key(k) implies m1[k] == m2[k] by {
        let j = key_index(t, key, k);
        lemma_index(t, key, val, j);
        if j != i {
            assert(t[j] == s[j]);
            lemma_index(s, key, val, j);
        }
    }
    assert(m1 =~= m2);
}

pub proof fn lemma_remove<T, K, W>(s: Seq<T>, key: spec_fn(T) -> K, val: spec_fn(T) -> W, i: int)
    requires
        unique_keys(s, key),
        0 <= i < s.len(),
    ensures
        unique_keys(s.remove(i), key),
        to_map(s.remove(i), key, val) == to_map(s, key, val).remove(key(s[i])),
{
    let t = s.remove(i);
    assert forall|a: int, b: int|
        0 <= a < t.len() && 0 <= b < t.len() && a != b implies #[trigger] key(t[a]) != #[trigger] key(t[b]) by {
        let a2 = if a < i { a } else { a + 1 };
        let b2 = if b < i { b } else { b + 1 };
        assert(t[a] == s[a2]);
        assert(t[b] == s[b2]);
    }
    let m1 = to_map(t, key, val);
    let m2 = to_map(s, key, val).remove(key(s[i]));
    assert forall|k: K| m1.contains_key(k) <==> m2.contains_key(k) by {
        if has_key(t, key, k) {
            let j = choose|j: int| 0 <= j < t.len() && #[trigger] key(t[j]) == k;
            let j2 = if j < i { j } else { j + 1 };
            assert(t[j] == s[j2]);
            assert(key(s[j2]) == k);
            assert(has_key(s, key, k));
            assert(k != key(s[i]));
        }
        if has_key(s, key, k) && k != key(s[i]) {
            let j = choose|j: int| 0 <= j < s.len() && #[trigger] key(s[j]) == k;
            assert(j != i);
            let j2 = if j < i { j } else { j - 1 };
            assert(t[j2] == s[j]);
            assert(key(t[j2]) == k);
            assert(has_key(t, key, k));
        }
    }
    assert forall|k: K| m1.contains_key(k) implies m1[k] == m2[k] by {
        let j = key_index(t, key, k);
        lemma_index(t, key, val, j);
        let j2 = if j < i { j } else { j + 1 };
        assert(t[j] == s[j2]);
        lemma_index(s, key, val, j2);
    }
    assert(m1 =~= m2);
}

pub proof fn lemma_distinct<T, K>(s: Seq<T>, key: spec_fn(T) -> K, i: int, j: int)
    requires
        unique_keys(s, key),
        0 <= i < s.len(),
        0 <= j < s.len(),
        i != j,
    ensures
        key(s[i]) != key(s[j]),
{
}

} // verus!
