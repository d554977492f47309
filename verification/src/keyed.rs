//! Vectors of records keyed by a `u64` id, each id once, read as maps; and
//! vectors of ids without repeats, read as sets.
use vstd::prelude::*;

verus! {

/// No two records share a key.
pub open spec fn distinct_keys<A>(s: Seq<A>, key: spec_fn(A) -> u64) -> bool {
    forall|i: int, j: int|
        #![trigger s[i], s[j]]
        0 <= i < s.len() && 0 <= j < s.len() && i != j ==> key(s[i]) != key(s[j])
}

/// Some record has key `k`.
pub open spec fn holds_key<A>(s: Seq<A>, key: spec_fn(A) -> u64, k: u64) -> bool {
    exists|i: int| #![trigger s[i]] 0 <= i < s.len() && key(s[i]) == k
}

/// The position of the record with key `k` (meaningful when [`holds_key`]).
pub open spec fn key_position<A>(s: Seq<A>, key: spec_fn(A) -> u64, k: u64) -> int {
    choose|i: int| #![trigger s[i]] 0 <= i < s.len() && key(s[i]) == k
}

/// The map from each key to the value of its record.
pub open spec fn keyed_map<A, V>(s: Seq<A>, key: spec_fn(A) -> u64, val: spec_fn(A) -> V) -> Map<u64, V> {
    Map::new(|k: u64| holds_key(s, key, k), |k: u64| val(s[key_position(s, key, k)]))
}

/// With distinct keys, the record at `i` is what the map holds for its key.
pub proof fn lemma_keyed_at<A, V>(s: Seq<A>, key: spec_fn(A) -> u64, val: spec_fn(A) -> V, i: int)
    requires
        distinct_keys(s, key),
        0 <= i < s.len(),
    ensures
        keyed_map(s, key, val).contains_key(key(s[i])),
        key_position(s, key, key(s[i])) == i,
        keyed_map(s, key, val)[key(s[i])] == val(s[i]),
{
    assert(holds_key(s, key, key(s[i])));
    let j = key_position(s, key, key(s[i]));
    assert(key(s[j]) == key(s[i]));
}

/// Replacing a record by one with the same key updates the map there.
pub proof fn lemma_keyed_update<A, V>(s: Seq<A>, key: spec_fn(A) -> u64, val: spec_fn(A) -> V, i: int, a: A)
    requires
        distinct_keys(s, key),
        0 <= i < s.len(),
        key(a) == key(s[i]),
    ensures
        distinct_keys(s.update(i, a), key),
        keyed_map(s.update(i, a), key, val) == keyed_map(s, key, val).insert(key(a), val(a)),
{
    let t = s.update(i, a);
    assert forall|p: int, q: int|
        #![trigger t[p], t[q]]
        0 <= p < t.len() && 0 <= q < t.len() && p != q implies key(t[p]) != key(t[q]) by {
        assert(key(t[p]) == key(s[p]));
        assert(key(t[q]) == key(s[q]));
    }
    assert forall|k: u64| holds_key(t, key, k) <==> holds_key(s, key, k) by {
        if holds_key(s, key, k) {
            let j = key_position(s, key, k);
            assert(key(t[j]) == key(s[j]));
        }
        if holds_key(t, key, k) {
            let j = key_position(t, key, k);
            assert(key(t[j]) == key(s[j]));
        }
    }
    assert forall|k: u64| #[trigger] holds_key(t, key, k) implies keyed_map(t, key, val)[k]
        == keyed_map(s, key, val).insert(key(a), val(a))[k] by {
        let j = key_position(t, key, k);
        lemma_keyed_at(t, key, val, j);
        if j != i {
            lemma_keyed_at(s, key, val, j);
        }
    }
    assert(keyed_map(t, key, val) =~= keyed_map(s, key, val).insert(key(a), val(a)));
}

/// Appending a record with a new key inserts it into the map.
pub proof fn lemma_keyed_push<A, V>(s: Seq<A>, key: spec_fn(A) -> u64, val: spec_fn(A) -> V, a: A)
    requires
        distinct_keys(s, key),
        !holds_key(s, key, key(a)),
    ensures
        distinct_keys(s.push(a), key),
        keyed_map(s.push(a), key, val) == keyed_map(s, key, val).insert(key(a), val(a)),
{
    let t = s.push(a);
    assert forall|p: int, q: int|
        #![trigger t[p], t[q]]
        0 <= p < t.len() && 0 <= q < t.len() && p != q implies key(t[p]) != key(t[q]) by {
        if p < s.len() {
            assert(t[p] == s[p]);
        }
        if q < s.len() {
            assert(t[q] == s[q]);
        }
    }
    assert forall|k: u64| holds_key(t, key, k) <==> (holds_key(s, key, k) || k == key(a)) by {
        if holds_key(s, key, k) {
            let j = key_position(s, key, k);
            assert(t[j] == s[j]);
        }
        if k == key(a) {
            assert(t[s.len() as int] == a);
        }
        if holds_key(t, key, k) {
            let j = key_position(t, key, k);
            if j < s.len() {
                assert(t[j] == s[j]);
            }
        }
    }
    assert forall|k: u64| #[trigger] holds_key(t, key, k) implies keyed_map(t, key, val)[k]
        == keyed_map(s, key, val).insert(key(a), val(a))[k] by {
        let j = key_position(t, key, k);
        lemma_keyed_at(t, key, val, j);
        if j < s.len() {
            assert(t[j] == s[j]);
            lemma_keyed_at(s, key, val, j);
        }
    }
    assert(keyed_map(t, key, val) =~= keyed_map(s, key, val).insert(key(a), val(a)));
}

/// Removing a record removes its key from the map.
pub proof fn lemma_keyed_remove<A, V>(s: Seq<A>, key: spec_fn(A) -> u64, val: spec_fn(A) -> V, i: int)
    requires
        distinct_keys(s, key),
        0 <= i < s.len(),
    ensures
        distinct_keys(s.remove(i), key),
        keyed_map(s.remove(i), key, val) == keyed_map(s, key, val).remove(key(s[i])),
{
    let t = s.remove(i);
    let gone = key(s[i]);
    assert forall|p: int, q: int|
        #![trigger t[p], t[q]]
        0 <= p < t.len() && 0 <= q < t.len() && p != q implies key(t[p]) != key(t[q]) by {
        let op = if p < i { p } else { p + 1 };
        let oq = if q < i { q } else { q + 1 };
        assert(t[p] == s[op]);
        assert(t[q] == s[oq]);
    }
    assert forall|k: u64| holds_key(t, key, k) <==> (holds_key(s, key, k) && k != gone) by {
        if holds_key(s, key, k) && k != gone {
            let j = key_position(s, key, k);
            if j < i {
                assert(t[j] == s[j]);
            } else {
                assert(j != i);
                assert(t[j - 1] == s[j]);
            }
        }
        if holds_key(t, key, k) {
            let j = key_position(t, key, k);
            let oj = if j < i { j } else { j + 1 };
            assert(t[j] == s[oj]);
            assert(oj != i);
        }
    }
    assert forall|k: u64| #[trigger] holds_key(t, key, k) implies keyed_map(t, key, val)[k]
        == keyed_map(s, key, val).remove(gone)[k] by {
        let j = key_position(t, key, k);
        lemma_keyed_at(t, key, val, j);
        let oj = if j < i { j } else { j + 1 };
        assert(t[j] == s[oj]);
        lemma_keyed_at(s, key, val, oj);
    }
    assert(keyed_map(t, key, val) =~= keyed_map(s, key, val).remove(gone));
}

/// Adds `x` to a vector without repeats, unless it is there; says whether
/// it was added.
pub fn insert_id(v: &mut Vec<u64>, x: u64) -> (added: bool)
    requires
        old(v)@.no_duplicates(),
    ensures
        final(v)@.no_duplicates(),
        final(v)@.to_set() == old(v)@.to_set().insert(x),
        added == !old(v)@.contains(x),
        added ==> final(v)@ == old(v)@.push(x),
        !added ==> final(v)@ == old(v)@,
{
    let mut i: usize = 0;
    while i < v.len()
        invariant
            v@ == old(v)@,
            v@.no_duplicates(),
            i <= v@.len(),
            forall|k: int| 0 <= k < i ==> v@[k] != x,
        decreases v.len() - i,
    {
        if v[i] == x {
            assert(v@[i as int] == x);
            assert(v@.contains(x));
            assert(v@.to_set() =~= v@.to_set().insert(x));
            return false;
        }
        i += 1;
    }
    let ghost before = v@;
    v.push(x);
    assert forall|p: int, q: int| 0 <= p < v@.len() && 0 <= q < v@.len() && p != q implies v@[p] != v@[q] by {
        if p < before.len() && q < before.len() {
            assert(v@[p] == before[p] && v@[q] == before[q]);
        } else if p < before.len() {
            assert(v@[p] == before[p]);
        } else {
            assert(v@[q] == before[q]);
        }
    }
    assert forall|a: u64| v@.contains(a) <==> (before.contains(a) || a == x) by {
        if before.contains(a) {
            let k = choose|k: int| 0 <= k < before.len() && before[k] == a;
            assert(v@[k] == a);
        }
        if a == x {
            assert(v@[before.len() as int] == x);
        }
        if v@.contains(a) {
            let k = choose|k: int| 0 <= k < v@.len() && v@[k] == a;
            if k < before.len() {
                assert(before[k] == a);
            }
        }
    }
    assert forall|a: u64| #[trigger] v@.to_set().contains(a) <==> before.to_set().insert(x).contains(a) by {
        assert(v@.contains(a) <==> (before.contains(a) || a == x));
    }
    assert(v@.to_set() =~= before.to_set().insert(x));
    true
}

/// Takes `x` out of a vector without repeats; says whether it was there.
pub fn remove_id(v: &mut Vec<u64>, x: u64) -> (removed: bool)
    requires
        old(v)@.no_duplicates(),
    ensures
        final(v)@.no_duplicates(),
        final(v)@.to_set() == old(v)@.to_set().remove(x),
        removed == old(v)@.contains(x),
{
    let mut i: usize = 0;
    while i < v.len()
        invariant
            v@ == old(v)@,
            v@.no_duplicates(),
            i <= v@.len(),
            forall|k: int| 0 <= k < i ==> v@[k] != x,
        decreases v.len() - i,
    {
        if v[i] == x {
            let ghost before = v@;
            assert(before[i as int] == x);
            assert(before.contains(x));
            v.remove(i);
            assert forall|p: int, q: int| 0 <= p < v@.len() && 0 <= q < v@.len() && p != q implies v@[p] != v@[q] by {
                let op = if p < i { p } else { p + 1 };
                let oq = if q < i { q } else { q + 1 };
                assert(v@[p] == before[op] && v@[q] == before[oq]);
            }
            assert forall|a: u64| v@.contains(a) <==> (before.contains(a) && a != x) by {
                if before.contains(a) && a != x {
                    let k = choose|k: int| 0 <= k < before.len() && before[k] == a;
                    if k < i {
                        assert(v@[k] == a);
                    } else {
                        assert(k != i);
                        assert(v@[k - 1] == a);
                    }
                }
                if v@.contains(a) {
                    let k = choose|k: int| 0 <= k < v@.len() && v@[k] == a;
                    let ok = if k < i { k } else { k + 1 };
                    assert(before[ok] == a);
                    assert(ok != i);
                }
            }
            assert(v@.to_set() =~= before.to_set().remove(x));
            return true;
        }
        i += 1;
    }
    assert(!v@.contains(x));
    assert(v@.to_set() =~= v@.to_set().remove(x));
    false
}

} // verus!
