//! Association sequences: a `Seq` of `(key, value)` pairs whose keys are
//! distinct. The cookie jar, the response cache and the session table are all
//! modelled this way; the order of the pairs carries meaning where a store
//! needs one (recency for the cache, creation order for sessions).
use vstd::prelude::*;

verus! {

/// No key occurs twice.
pub open spec fn keys_unique<K, V>(s: Seq<(K, V)>) -> bool {
    forall|i: int, j: int| 0 <= i < s.len() && 0 <= j < s.len() && i != j ==> s[i].0 != s[j].0
}

/// The position of the last pair with key `k`, if any.
pub open spec fn find<K, V>(s: Seq<(K, V)>, k: K) -> Option<int>
    decreases s.len(),
{
    if s.len() == 0 {
        None
    } else if s.last().0 == k {
        Some(s.len() - 1)
    } else {
        find(s.drop_last(), k)
    }
}

/// The value stored under `k`, if any.
pub open spec fn lookup<K, V>(s: Seq<(K, V)>, k: K) -> Option<V> {
    match find(s, k) {
        Some(i) => Some(s[i].1),
        None => None,
    }
}

/// `s` without the pair stored under `k`.
pub open spec fn remove_key<K, V>(s: Seq<(K, V)>, k: K) -> Seq<(K, V)> {
    match find(s, k) {
        Some(i) => s.remove(i),
        None => s,
    }
}

/// `s` with the value under `k` replaced by `v`, in place; unchanged when `k` is absent.
pub open spec fn replace_value<K, V>(s: Seq<(K, V)>, k: K, v: V) -> Seq<(K, V)> {
    match find(s, k) {
        Some(i) => s.update(i, (k, v)),
        None => s,
    }
}

/// `s` with `k` bound to `v`: replaced in place when present, appended otherwise.
pub open spec fn upsert<K, V>(s: Seq<(K, V)>, k: K, v: V) -> Seq<(K, V)> {
    match find(s, k) {
        Some(i) => s.update(i, (k, v)),
        None => s.push((k, v)),
    }
}

pub proof fn lemma_find_bounds<K, V>(s: Seq<(K, V)>, k: K)
    ensures
        match find(s, k) {
            Some(i) => 0 <= i < s.len() && s[i].0 == k,
            None => forall|j: int| 0 <= j < s.len() ==> s[j].0 != k,
        },
    decreases s.len(),
{
    if s.len() > 0 && s.last().0 != k {
        lemma_find_bounds(s.drop_last(), k);
        if find(s, k) is None {
            assert forall|j: int| 0 <= j < s.len() implies s[j].0 != k by {
                if j < s.len() - 1 {
                    assert(s.drop_last()[j] == s[j]);
                }
            }
        }
    }
}

/// With distinct keys, the pair at `i` is the one found under its key.
pub proof fn lemma_find_index<K, V>(s: Seq<(K, V)>, i: int)
    requires
        keys_unique(s),
        0 <= i < s.len(),
    ensures
        find(s, s[i].0) == Some(i),
        lookup(s, s[i].0) == Some(s[i].1),
{
    lemma_find_bounds(s, s[i].0);
}

/// A key that no pair carries is not found.
pub proof fn lemma_find_absent<K, V>(s: Seq<(K, V)>, k: K)
    requires
        forall|j: int| 0 <= j < s.len() ==> s[j].0 != k,
    ensures
        find(s, k) is None,
        lookup(s, k) is None,
{
    lemma_find_bounds(s, k);
}

pub proof fn lemma_unique_remove<K, V>(s: Seq<(K, V)>, i: int)
    requires
        keys_unique(s),
        0 <= i < s.len(),
    ensures
        keys_unique(s.remove(i)),
        forall|j: int| 0 <= j < s.remove(i).len() ==> #[trigger] s.remove(i)[j].0 != s[i].0,
{
    let r = s.remove(i);
    assert forall|a: int, b: int| 0 <= a < r.len() && 0 <= b < r.len() && a != b implies r[a].0
        != r[b].0 by {
        let a0 = if a < i { a } else { a + 1 };
        let b0 = if b < i { b } else { b + 1 };
        assert(r[a] == s[a0] && r[b] == s[b0]);
    }
    assert forall|j: int| 0 <= j < r.len() implies #[trigger] r[j].0 != s[i].0 by {
        let j0 = if j < i { j } else { j + 1 };
        assert(r[j] == s[j0]);
    }
}

/// Removing the pair under `k` leaves the lookups of every other key as they were.
pub proof fn lemma_remove_key<K, V>(s: Seq<(K, V)>, k: K, other: K)
    requires
        keys_unique(s),
    ensures
        keys_unique(remove_key(s, k)),
        lookup(remove_key(s, k), k) is None,
        other != k ==> lookup(remove_key(s, k), other) == lookup(s, other),
        remove_key(remove_key(s, k), k) == remove_key(s, k),
{
    lemma_find_bounds(s, k);
    lemma_find_bounds(s, other);
    match find(s, k) {
        Some(i) => {
            let r = s.remove(i);
            lemma_unique_remove(s, i);
            lemma_find_absent(r, k);
            if other != k {
                lemma_find_bounds(r, other);
                match find(s, other) {
                    Some(j) => {
                        let j1 = if j < i { j } else { j - 1 };
                        assert(r[j1] == s[j]);
                        lemma_find_index(r, j1);
                    },
                    None => {
                        assert forall|j: int| 0 <= j < r.len() implies r[j].0 != other by {
                            let j0 = if j < i { j } else { j + 1 };
                            assert(r[j] == s[j0]);
                        }
                        lemma_find_absent(r, other);
                    },
                }
            }
        },
        None => {},
    }
}

/// Replacing the value under `k` keeps the keys, binds `k` to `v`, and leaves
/// every other key as it was.
pub proof fn lemma_replace_value<K, V>(s: Seq<(K, V)>, k: K, v: V, other: K)
    requires
        keys_unique(s),
    ensures
        keys_unique(replace_value(s, k, v)),
        replace_value(s, k, v).len() == s.len(),
        lookup(s, k) is Some ==> lookup(replace_value(s, k, v), k) == Some(v),
        lookup(s, k) is None ==> replace_value(s, k, v) == s,
        other != k ==> lookup(replace_value(s, k, v), other) == lookup(s, other),
{
    lemma_find_bounds(s, k);
    lemma_find_bounds(s, other);
    match find(s, k) {
        Some(i) => {
            let r = s.update(i, (k, v));
            assert(keys_unique(r)) by {
                assert forall|a: int, b: int|
                    0 <= a < r.len() && 0 <= b < r.len() && a != b implies r[a].0 != r[b].0 by {
                    assert(r[a].0 == s[a].0 && r[b].0 == s[b].0);
                }
            }
            lemma_find_index(r, i);
            if other != k {
                lemma_find_bounds(r, other);
                match find(s, other) {
                    Some(j) => {
                        lemma_find_index(r, j);
                    },
                    None => {
                        assert forall|j: int| 0 <= j < r.len() implies r[j].0 != other by {
                            assert(r[j].0 == s[j].0);
                        }
                        lemma_find_absent(r, other);
                    },
                }
            }
        },
        None => {},
    }
}

/// Binding `k` to `v` keeps the keys distinct, makes `v` the value under `k`,
/// and leaves every other key as it was.
pub proof fn lemma_upsert<K, V>(s: Seq<(K, V)>, k: K, v: V, other: K)
    requires
        keys_unique(s),
    ensures
        keys_unique(upsert(s, k, v)),
        lookup(upsert(s, k, v), k) == Some(v),
        other != k ==> lookup(upsert(s, k, v), other) == lookup(s, other),
{
    lemma_find_bounds(s, k);
    match find(s, k) {
        Some(i) => {
            lemma_replace_value(s, k, v, other);
        },
        None => {
            lemma_push_fresh(s, k, v, other);
        },
    }
}

/// Appending a pair under a key not yet present.
pub proof fn lemma_push_fresh<K, V>(s: Seq<(K, V)>, k: K, v: V, other: K)
    requires
        keys_unique(s),
        lookup(s, k) is None,
    ensures
        keys_unique(s.push((k, v))),
        lookup(s.push((k, v)), k) == Some(v),
        other != k ==> lookup(s.push((k, v)), other) == lookup(s, other),
{
    lemma_find_bounds(s, k);
    let r = s.push((k, v));
    assert(r.drop_last() =~= s);
    assert(r.last() == (k, v));
    if other != k {
        lemma_find_bounds(s, other);
        assert(find(r, other) == find(s, other));
        if let Some(i) = find(s, other) {
            assert(r[i] == s[i]);
        }
    }
    assert(keys_unique(r)) by {
        assert forall|a: int, b: int| 0 <= a < r.len() && 0 <= b < r.len() && a != b implies r[a].0
            != r[b].0 by {
            if a < s.len() && b < s.len() {
                assert(r[a] == s[a] && r[b] == s[b]);
            } else if a < s.len() {
                assert(r[a] == s[a]);
            } else {
                assert(r[b] == s[b]);
            }
        }
    }
}

} // verus!
