//! Sequences with unique keys, read as maps.
//!
//! The registry keeps its tables in vectors; each table is read as the map
//! from an entry's key to its value. These lemmas relate vector edits
//! (push, remove, update) to map edits (insert, remove).

use vstd::prelude::*;

verus! {

/// No two entries share a key.
pub open spec fn unique_keys<E, K>(s: Seq<E>, key: spec_fn(E) -> K) -> bool {
    forall|i: int, j: int| 0 <= i < s.len() && 0 <= j < s.len() && i != j ==> key(s[i]) != key(
        s[j],
    )
}

/// Whether some entry has key `k`.
pub open spec fn has_key<E, K>(s: Seq<E>, key: spec_fn(E) -> K, k: K) -> bool {
    exists|i: int| 0 <= i < s.len() && key(s[i]) == k
}

/// The position of an entry with key `k` (meaningful when there is one).
pub open spec fn key_index<E, K>(s: Seq<E>, key: spec_fn(E) -> K, k: K) -> int {
    choose|i: int| 0 <= i < s.len() && key(s[i]) == k
}

/// The table read as a map.
pub open spec fn key_map<E, K, V>(s: Seq<E>, key: spec_fn(E) -> K, val: spec_fn(E) -> V) -> Map<
    K,
    V,
> {
    Map::new(|k: K| has_key(s, key, k), |k: K| val(s[key_index(s, key, k)]))
}

pub proof fn lemma_key_map_index<E, K, V>(
    s: Seq<E>,
    key: spec_fn(E) -> K,
    val: spec_fn(E) -> V,
    i: int,
)
    requires
        unique_keys(s, key),
        0 <= i < s.len(),
    ensures
        key_index(s, key, key(s[i])) == i,
        key_map(s, key, val).contains_key(key(s[i])),
        key_map(s, key, val)[key(s[i])] == val(s[i]),
{
    assert(has_key(s, key, key(s[i])));
    let j = key_index(s, key, key(s[i]));
    assert(0 <= j < s.len() && key(s[j]) == key(s[i]));
}

pub proof fn lemma_key_map_lookup<E, K, V>(
    s: Seq<E>,
    key: spec_fn(E) -> K,
    val: spec_fn(E) -> V,
    k: K,
)
    requires
        unique_keys(s, key),
        key_map(s, key, val).contains_key(k),
    ensures
        0 <= key_index(s, key, k) < s.len(),
        key(s[key_index(s, key, k)]) == k,
        key_map(s, key, val)[k] == val(s[key_index(s, key, k)]),
{
}

pub proof fn lemma_key_map_empty<E, K, V>(s: Seq<E>, key: spec_fn(E) -> K, val: spec_fn(E) -> V)
    requires
        s.len() == 0,
    ensures
        unique_keys(s, key),
        key_map(s, key, val) == Map::<K, V>::empty(),
{
    assert(key_map(s, key, val) =~= Map::<K, V>::empty());
}

pub proof fn lemma_key_map_push<E, K, V>(
    s: Seq<E>,
    key: spec_fn(E) -> K,
    val: spec_fn(E) -> V,
    e: E,
)
    requires
        unique_keys(s, key),
        !has_key(s, key, key(e)),
    ensures
        unique_keys(s.push(e), key),
        key_map(s.push(e), key, val) == key_map(s, key, val).insert(key(e), val(e)),
{
    let t = s.push(e);
    assert forall|i: int, j: int|
        0 <= i < t.len() && 0 <= j < t.len() && i != j implies key(t[i]) != key(t[j]) by {
        if i < s.len() && j < s.len() {
            assert(t[i] == s[i] && t[j] == s[j]);
        } else if i < s.len() {
            assert(t[i] == s[i]);
        } else {
            assert(t[j] == s[j]);
        }
    }
    let m1 = key_map(t, key, val);
    let m2 = key_map(s, key, val).insert(key(e), val(e));
    assert forall|k: K| m1.contains_key(k) <==> m2.contains_key(k) by {
        if has_key(t, key, k) {
            let i = choose|i: int| 0 <= i < t.len() && key(t[i]) == k;
            if i < s.len() {
                assert(t[i] == s[i]);
                assert(has_key(s, key, k));
            }
        }
        if has_key(s, key, k) {
            let i = choose|i: int| 0 <= i < s.len() && key(s[i]) == k;
            assert(t[i] == s[i]);
        }
        if k == key(e) {
            assert(t[s.len() as int] == e);
        }
    }
    assert forall|k: K| m1.contains_key(k) implies m1[k] == m2[k] by {
        let i = key_index(t, key, k);
        if k == key(e) {
            lemma_key_map_index(t, key, val, s.len() as int);
        } else {
            assert(i < s.len()) by {
                if i == s.len() {
                    assert(t[i] == e);
                }
            }
            assert(t[i] == s[i]);
            lemma_key_map_index(s, key, val, i);
        }
    }
    assert(m1 =~= m2);
}

pub proof fn lemma_key_map_remove<E, K, V>(
    s: Seq<E>,
    key: spec_fn(E) -> K,
    val: spec_fn(E) -> V,
    i: int,
)
    requires
        unique_keys(s, key),
        0 <= i < s.len(),
    ensures
        unique_keys(s.remove(i), key),
        key_map(s.remove(i), key, val) == key_map(s, key, val).remove(key(s[i])),
{
    let t = s.remove(i);
    assert forall|a: int, b: int|
        0 <= a < t.len() && 0 <= b < t.len() && a != b implies key(t[a]) != key(t[b]) by {
        let a2 = if a < i {
            a
        } else {
            a + 1
        };
        let b2 = if b < i {
            b
        } else {
            b + 1
        };
        assert(t[a] == s[a2] && t[b] == s[b2]);
    }
    let m1 = key_map(t, key, val);
    let m2 = key_map(s, key, val).remove(key(s[i]));
    assert forall|k: K| m1.contains_key(k) <==> m2.contains_key(k) by {
        if has_key(t, key, k) {
            let a = choose|a: int| 0 <= a < t.len() && key(t[a]) == k;
            let a2 = if a < i {
                a
            } else {
                a + 1
            };
            assert(t[a] == s[a2]);
            assert(has_key(s, key, k));
        }
        if has_key(s, key, k) && k != key(s[i]) {
            let a = choose|a: int| 0 <= a < s.len() && key(s[a]) == k;
            if a < i {
                assert(t[a] == s[a]);
            } else {
                assert(t[a - 1] == s[a]);
            }
        }
    }
    assert forall|k: K| m1.contains_key(k) implies m1[k] == m2[k] by {
        let a = key_index(t, key, k);
        let a2 = if a < i {
            a
        } else {
            a + 1
        };
        assert(t[a] == s[a2]);
        lemma_key_map_index(t, key, val, a);
        lemma_key_map_index(s, key, val, a2);
    }
    assert(m1 =~= m2);
}

pub proof fn lemma_key_map_update<E, K, V>(
    s: Seq<E>,
    key: spec_fn(E) -> K,
    val: spec_fn(E) -> V,
    i: int,
    e: E,
)
    requires
        unique_keys(s, key),
        0 <= i < s.len(),
        key(e) == key(s[i]) || !has_key(s, key, key(e)),
    ensures
        unique_keys(s.update(i, e), key),
        key_map(s.update(i, e), key, val) == key_map(s, key, val).remove(key(s[i])).insert(
            key(e),
            val(e),
        ),
{
    let t = s.update(i, e);
    assert forall|a: int, b: int|
        0 <= a < t.len() && 0 <= b < t.len() && a != b implies key(t[a]) != key(t[b]) by {
        if a == i {
            assert(t[b] == s[b]);
        } else if b == i {
            assert(t[a] == s[a]);
        } else {
            assert(t[a] == s[a] && t[b] == s[b]);
        }
    }
    let m1 = key_map(t, key, val);
    let m2 = key_map(s, key, val).remove(key(s[i])).insert(key(e), val(e));
    assert forall|k: K| m1.contains_key(k) <==> m2.contains_key(k) by {
        if has_key(t, key, k) {
            let a = choose|a: int| 0 <= a < t.len() && key(t[a]) == k;
            if a != i {
                assert(t[a] == s[a]);
                assert(has_key(s, key, k));
            }
        }
        if has_key(s, key, k) && k != key(s[i]) {
            let a = choose|a: int| 0 <= a < s.len() && key(s[a]) == k;
            assert(a != i);
            assert(t[a] == s[a]);
        }
        if k == key(e) {
            assert(t[i] == e);
        }
    }
    assert forall|k: K| m1.contains_key(k) implies m1[k] == m2[k] by {
        let a = key_index(t, key, k);
        lemma_key_map_index(t, key, val, a);
        if a == i {
        } else {
            assert(t[a] == s[a]);
            lemma_key_map_index(s, key, val, a);
        }
    }
    assert(m1 =~= m2);
}

/// `s.to_set()` after removing one element of a sequence without repeats.
pub proof fn lemma_no_dup_remove<A>(s: Seq<A>, i: int)
    requires
        s.no_duplicates(),
        0 <= i < s.len(),
    ensures
        s.remove(i).no_duplicates(),
        s.remove(i).to_set() == s.to_set().remove(s[i]),
{
    let t = s.remove(i);
    assert forall|a: int, b: int| 0 <= a < t.len() && 0 <= b < t.len() && a != b implies t[a]
        != t[b] by {
        let a2 = if a < i {
            a
        } else {
            a + 1
        };
        let b2 = if b < i {
            b
        } else {
            b + 1
        };
        assert(t[a] == s[a2] && t[b] == s[b2]);
    }
    assert forall|x: A| t.to_set().contains(x) <==> s.to_set().remove(s[i]).contains(x) by {
        if t.to_set().contains(x) {
            let a = choose|a: int| 0 <= a < t.len() && t[a] == x;
            let a2 = if a < i {
                a
            } else {
                a + 1
            };
            assert(t[a] == s[a2]);
        }
        if s.to_set().remove(s[i]).contains(x) {
            let a = choose|a: int| 0 <= a < s.len() && s[a] == x;
            assert(a != i);
            if a < i {
                assert(t[a] == s[a]);
            } else {
                assert(t[a - 1] == s[a]);
            }
        }
    }
    assert(t.to_set() =~= s.to_set().remove(s[i]));
}

/// `s.to_set()` after pushing a new element.
pub proof fn lemma_no_dup_push<A>(s: Seq<A>, x: A)
    requires
        s.no_duplicates(),
        !s.contains(x),
    ensures
        s.push(x).no_duplicates(),
        s.push(x).to_set() == s.to_set().insert(x),
{
    let t = s.push(x);
    assert forall|a: int, b: int| 0 <= a < t.len() && 0 <= b < t.len() && a != b implies t[a]
        != t[b] by {
        if a < s.len() && b < s.len() {
            assert(t[a] == s[a] && t[b] == s[b]);
        } else if a < s.len() {
            assert(t[a] == s[a]);
        } else {
            assert(t[b] == s[b]);
        }
    }
    assert forall|y: A| t.to_set().contains(y) <==> s.to_set().insert(x).contains(y) by {
        if t.to_set().contains(y) {
            let a = choose|a: int| 0 <= a < t.len() && t[a] == y;
            if a < s.len() {
                assert(t[a] == s[a]);
            }
        }
        if s.to_set().contains(y) {
            let a = choose|a: int| 0 <= a < s.len() && s[a] == y;
            assert(t[a] == s[a]);
        }
        if y == x {
            assert(t[s.len() as int] == x);
        }
    }
    assert(t.to_set() =~= s.to_set().insert(x));
}

/// `s.to_set()` after replacing one element by a new one.
pub proof fn lemma_no_dup_update<A>(s: Seq<A>, i: int, x: A)
    requires
        s.no_duplicates(),
        0 <= i < s.len(),
        !s.contains(x),
    ensures
        s.update(i, x).no_duplicates(),
        s.update(i, x).to_set() == s.to_set().remove(s[i]).insert(x),
{
    let t = s.update(i, x);
    assert forall|a: int, b: int| 0 <= a < t.len() && 0 <= b < t.len() && a != b implies t[a]
        != t[b] by {
        if a == i {
            assert(t[b] == s[b]);
        } else if b == i {
            assert(t[a] == s[a]);
        } else {
            assert(t[a] == s[a] && t[b] == s[b]);
        }
    }
    assert forall|y: A| t.to_set().contains(y) <==> s.to_set().remove(s[i]).insert(x).contains(
        y,
    ) by {
        if t.to_set().contains(y) {
            let a = choose|a: int| 0 <= a < t.len() && t[a] == y;
            if a != i {
                assert(t[a] == s[a]);
            }
        }
        if s.to_set().contains(y) && y != s[i] {
            let a = choose|a: int| 0 <= a < s.len() && s[a] == y;
            assert(t[a] == s[a]);
        }
        if y == x {
            assert(t[i] == x);
        }
    }
    assert(t.to_set() =~= s.to_set().remove(s[i]).insert(x));
}

} // verus!
