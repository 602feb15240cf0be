//! Association lists: sequences of key/value pairs with pairwise different
//! keys, read as finite maps.
use vstd::prelude::*;

verus! {

/// No key occurs at two positions.
pub open spec fn distinct_keys<K, V>(s: Seq<(K, V)>) -> bool {
    forall|i: int, j: int| 0 <= i < j < s.len() ==> (#[trigger] s[i]).0 != (#[trigger] s[j]).0
}

/// Some position holds the key `k`.
pub open spec fn has_key<K, V>(s: Seq<(K, V)>, k: K) -> bool {
    exists|i: int| 0 <= i < s.len() && (#[trigger] s[i]).0 == k
}

/// A position that holds the key `k`, where there is one.
pub open spec fn index_of<K, V>(s: Seq<(K, V)>, k: K) -> int {
    choose|i: int| 0 <= i < s.len() && (#[trigger] s[i]).0 == k
}

/// The map that sends each key of the list to the value stored beside it.
pub open spec fn as_map<K, V>(s: Seq<(K, V)>) -> Map<K, V> {
    Map::new(|k: K| has_key(s, k), |k: K| s[index_of(s, k)].1)
}

/// With distinct keys, the map holds at each key exactly the value of the
/// position that holds the key.
pub proof fn lemma_at<K, V>(s: Seq<(K, V)>, i: int)
    requires
        distinct_keys(s),
        0 <= i < s.len(),
    ensures
        has_key(s, s[i].0),
        as_map(s).contains_key(s[i].0),
        as_map(s)[s[i].0] == s[i].1,
{
    let k = s[i].0;
    assert(has_key(s, k));
    let j = index_of(s, k);
    assert(0 <= j < s.len() && s[j].0 == k);
    if j < i {
        assert(s[j].0 != s[i].0);
    } else if i < j {
        assert(s[i].0 != s[j].0);
    }
}

/// Appending a pair with a fresh key is `insert` on the map.
pub proof fn lemma_push<K, V>(s: Seq<(K, V)>, k: K, v: V)
    requires
        distinct_keys(s),
        !has_key(s, k),
    ensures
        distinct_keys(s.push((k, v))),
        as_map(s.push((k, v))) == as_map(s).insert(k, v),
{
    let t = s.push((k, v));
    assert forall|i: int, j: int| 0 <= i < j < t.len() implies (#[trigger] t[i]).0 != (#[trigger] t[j]).0 by {
        if j < s.len() {
            assert(s[i].0 != s[j].0);
        } else {
            assert(t[i] == s[i]);
        }
    }
    assert forall|q: K| #[trigger] as_map(t).contains_key(q) <==> as_map(s).insert(k, v).contains_key(q) by {
        if has_key(t, q) {
            let i = index_of(t, q);
            if i < s.len() {
                assert(s[i].0 == q);
            }
        }
        if has_key(s, q) {
            let i = index_of(s, q);
            assert(t[i].0 == q);
        }
        if q == k {
            assert(t[s.len() as int].0 == q);
        }
    }
    assert forall|q: K| #[trigger] as_map(t).contains_key(q) implies as_map(t)[q] == as_map(s).insert(k, v)[q] by {
        if q == k {
            lemma_at(t, s.len() as int);
        } else {
            let i = index_of(s, q);
            assert(t[i] == s[i]);
            lemma_at(t, i);
            lemma_at(s, i);
        }
    }
    assert(as_map(t) =~= as_map(s).insert(k, v));
}

/// Replacing the value at one position is `insert` at that position's key.
pub proof fn lemma_update<K, V>(s: Seq<(K, V)>, i: int, v: V)
    requires
        distinct_keys(s),
        0 <= i < s.len(),
    ensures
        distinct_keys(s.update(i, (s[i].0, v))),
        as_map(s.update(i, (s[i].0, v))) == as_map(s).insert(s[i].0, v),
{
    let k = s[i].0;
    let t = s.update(i, (k, v));
    assert forall|a: int, b: int| 0 <= a < b < t.len() implies (#[trigger] t[a]).0 != (#[trigger] t[b]).0 by {
        assert(t[a].0 == s[a].0 && t[b].0 == s[b].0);
        assert(s[a].0 != s[b].0);
    }
    assert forall|q: K| #[trigger] as_map(t).contains_key(q) <==> as_map(s).insert(k, v).contains_key(q) by {
        if has_key(t, q) {
            let j = index_of(t, q);
            assert(s[j].0 == q);
        }
        if has_key(s, q) {
            let j = index_of(s, q);
            assert(t[j].0 == q);
        }
        if q == k {
            assert(t[i].0 == q);
        }
    }
    assert forall|q: K| #[trigger] as_map(t).contains_key(q) implies as_map(t)[q] == as_map(s).insert(k, v)[q] by {
        if q == k {
            lemma_at(t, i);
        } else {
            let j = index_of(s, q);
            assert(t[j] == s[j]);
            lemma_at(t, j);
            lemma_at(s, j);
        }
    }
    assert(as_map(t) =~= as_map(s).insert(k, v));
}

/// Deleting one position is `remove` of that position's key.
pub proof fn lemma_remove<K, V>(s: Seq<(K, V)>, i: int)
    requires
        distinct_keys(s),
        0 <= i < s.len(),
    ensures
        distinct_keys(s.remove(i)),
        as_map(s.remove(i)) == as_map(s).remove(s[i].0),
{
    let k = s[i].0;
    let t = s.remove(i);
    assert forall|a: int| 0 <= a < t.len() implies #[trigger] t[a] == s[if a < i { a } else { a + 1 }] by {}
    assert forall|a: int, b: int| 0 <= a < b < t.len() implies (#[trigger] t[a]).0 != (#[trigger] t[b]).0 by {
        let a2 = if a < i { a } else { a + 1 };
        let b2 = if b < i { b } else { b + 1 };
        assert(t[a] == s[a2] && t[b] == s[b2]);
        assert(s[a2].0 != s[b2].0);
    }
    assert forall|q: K| #[trigger] as_map(t).contains_key(q) <==> as_map(s).remove(k).contains_key(q) by {
        if has_key(t, q) {
            let j = index_of(t, q);
            let j2 = if j < i { j } else { j + 1 };
            assert(t[j] == s[j2]);
            assert(s[j2].0 == q);
            if q == k {
                if j2 < i {
                    assert(s[j2].0 != s[i].0);
                } else {
                    assert(s[i].0 != s[j2].0);
                }
            }
        }
        if has_key(s, q) && q != k {
            let j = index_of(s, q);
            let j2 = if j < i { j } else { j - 1 };
            assert(t[j2] == s[j]);
            assert(t[j2].0 == q);
        }
    }
    assert forall|q: K| #[trigger] as_map(t).contains_key(q) implies as_map(t)[q] == as_map(s).remove(k)[q] by {
        let j = index_of(s, q);
        let j2 = if j < i { j } else { j - 1 };
        assert(t[j2] == s[j]);
        lemma_at(t, j2);
        lemma_at(s, j);
    }
    assert(as_map(t) =~= as_map(s).remove(k));
}

/// The empty list is the empty map.
pub proof fn lemma_empty<K, V>()
    ensures
        distinct_keys(Seq::<(K, V)>::empty()),
        as_map(Seq::<(K, V)>::empty()) == Map::<K, V>::empty(),
{
    assert(as_map(Seq::<(K, V)>::empty()) =~= Map::<K, V>::empty());
}

} // verus!
