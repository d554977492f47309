//! Association lists keyed by strings: a sequence of `(key, value)` pairs
//! with distinct keys, read as a map.
use vstd::prelude::*;

verus! {

/// No key occurs twice.
pub open spec fn unique_keys<V>(s: Seq<(Seq<char>, V)>) -> bool {
    forall|i: int, j: int| 0 <= i < s.len() && 0 <= j < s.len() && i != j ==> #[trigger] s[i].0 != #[trigger] s[j].0
}

pub open spec fn has_key<V>(s: Seq<(Seq<char>, V)>, k: Seq<char>) -> bool {
    exists|i: int| 0 <= i < s.len() && #[trigger] s[i].0 == k
}

/// The index that holds `k` (meaningful when [`has_key`]).
pub open spec fn index_of_key<V>(s: Seq<(Seq<char>, V)>, k: Seq<char>) -> int {
    choose|i: int| 0 <= i < s.len() && #[trigger] s[i].0 == k
}

/// The map that the list stands for.
pub open spec fn assoc_map<V>(s: Seq<(Seq<char>, V)>) -> Map<Seq<char>, V> {
    Map::new(|k: Seq<char>| has_key(s, k), |k: Seq<char>| s[index_of_key(s, k)].1)
}

/// With distinct keys, the entry at `i` is what the map holds for its key.
pub proof fn lemma_assoc_at<V>(s: Seq<(Seq<char>, V)>, i: int)
    requires
        unique_keys(s),
        0 <= i < s.len(),
    ensures
        assoc_map(s).contains_key(s[i].0),
        index_of_key(s, s[i].0) == i,
        assoc_map(s)[s[i].0] == s[i].1,
{
    assert(has_key(s, s[i].0));
    let j = index_of_key(s, s[i].0);
    assert(s[j].0 == s[i].0);
}

/// Appending a pair with a new key inserts it into the map.
pub proof fn lemma_assoc_push<V>(s: Seq<(Seq<char>, V)>, k: Seq<char>, v: V)
    requires
        unique_keys(s),
        !has_key(s, k),
    ensures
        unique_keys(s.push((k, v))),
        assoc_map(s.push((k, v))) == assoc_map(s).insert(k, v),
{
    let t = s.push((k, v));
    assert forall|i: int, j: int| 0 <= i < t.len() && 0 <= j < t.len() && i != j implies #[trigger] t[i].0 != #[trigger] t[j].0 by {
        if i < s.len() && j < s.len() {
            assert(t[i] == s[i] && t[j] == s[j]);
        } else if i < s.len() {
            assert(t[i] == s[i]);
        } else {
            assert(t[j] == s[j]);
        }
    }
    assert forall|q: Seq<char>| has_key(t, q) <==> (has_key(s, q) || q == k) by {
        if has_key(s, q) {
            let i = index_of_key(s, q);
            assert(t[i] == s[i]);
        }
        if q == k {
            assert(t[s.len() as int].0 == k);
        }
        if has_key(t, q) {
            let i = index_of_key(t, q);
            if i < s.len() {
                assert(t[i] == s[i]);
            }
        }
    }
    assert forall|q: Seq<char>| has_key(t, q) implies assoc_map(t)[q] == assoc_map(s).insert(k, v)[q] by {
        if q == k {
            lemma_assoc_at(t, s.len() as int);
        } else {
            let i = index_of_key(s, q);
            assert(t[i] == s[i]);
            lemma_assoc_at(t, i);
            lemma_assoc_at(s, i);
        }
    }
    assert(assoc_map(t) =~= assoc_map(s).insert(k, v));
}

/// Replacing the value at `i` updates the map at that key.
pub proof fn lemma_assoc_update<V>(s: Seq<(Seq<char>, V)>, i: int, v: V)
    requires
        unique_keys(s),
        0 <= i < s.len(),
    ensures
        unique_keys(s.update(i, (s[i].0, v))),
        assoc_map(s.update(i, (s[i].0, v))) == assoc_map(s).insert(s[i].0, v),
{
    let k = s[i].0;
    let t = s.update(i, (k, v));
    assert forall|a: int, b: int| 0 <= a < t.len() && 0 <= b < t.len() && a != b implies #[trigger] t[a].0 != #[trigger] t[b].0 by {
        assert(t[a].0 == s[a].0 && t[b].0 == s[b].0);
    }
    assert forall|q: Seq<char>| has_key(t, q) <==> has_key(s, q) by {
        if has_key(s, q) {
            let j = index_of_key(s, q);
            assert(t[j].0 == s[j].0);
        }
        if has_key(t, q) {
            let j = index_of_key(t, q);
            assert(t[j].0 == s[j].0);
        }
    }
    lemma_assoc_at(s, i);
    assert forall|q: Seq<char>| has_key(t, q) implies assoc_map(t)[q] == assoc_map(s).insert(k, v)[q] by {
        let j = index_of_key(s, q);
        assert(t[j].0 == s[j].0);
        lemma_assoc_at(t, j);
        lemma_assoc_at(s, j);
        if j == i {
        } else {
            assert(t[j] == s[j]);
        }
    }
    assert(assoc_map(t) =~= assoc_map(s).insert(k, v));
}

} // verus!
