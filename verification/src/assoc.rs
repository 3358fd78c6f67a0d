//! Association lists: sequences of key/value pairs read as finite maps.
//!
//! Both a section (key -> value) and a whole document (section name -> section)
//! are kept as ordered lists of pairs with distinct keys. The order is what a
//! writer walks; the map is what lookups see.
use vstd::prelude::*;

verus! {

/// Index of the last pair whose key is `k`, or -1 when there is none.
pub open spec fn find_key<K, V>(s: Seq<(K, V)>, k: K) -> int
    decreases s.len(),
{
    if s.len() == 0 {
        -1
    } else if s.last().0 == k {
        s.len() - 1
    } else {
        find_key(s.drop_last(), k)
    }
}

/// No key occurs twice.
pub open spec fn unique_keys<K, V>(s: Seq<(K, V)>) -> bool {
    forall|i: int, j: int| 0 <= i < j < s.len() ==> s[i].0 != s[j].0
}

/// The map that a list of pairs denotes (a later pair wins over an earlier one).
pub open spec fn assoc_map<K, V>(s: Seq<(K, V)>) -> Map<K, V>
    decreases s.len(),
{
    if s.len() == 0 {
        Map::empty()
    } else {
        assoc_map(s.drop_last()).insert(s.last().0, s.last().1)
    }
}

/// Sets `k` to `v`: the pair of `k` keeps its place, or a new pair goes last.
pub open spec fn assoc_set<K, V>(s: Seq<(K, V)>, k: K, v: V) -> Seq<(K, V)> {
    let i = find_key(s, k);
    if i >= 0 {
        s.update(i, (k, v))
    } else {
        s.push((k, v))
    }
}

/// Drops the pair of `k`, if there is one; the others keep their order.
pub open spec fn assoc_remove<K, V>(s: Seq<(K, V)>, k: K) -> Seq<(K, V)> {
    let i = find_key(s, k);
    if i >= 0 {
        s.remove(i)
    } else {
        s
    }
}

/// Makes sure `k` has a pair, adding `(k, v)` last when it has none.
pub open spec fn assoc_touch<K, V>(s: Seq<(K, V)>, k: K, v: V) -> Seq<(K, V)> {
    if find_key(s, k) >= 0 {
        s
    } else {
        s.push((k, v))
    }
}

pub proof fn lemma_find_key<K, V>(s: Seq<(K, V)>, k: K)
    ensures
        -1 <= find_key(s, k) < s.len(),
        find_key(s, k) >= 0 ==> s[find_key(s, k)].0 == k,
        find_key(s, k) == -1 <==> (forall|i: int| 0 <= i < s.len() ==> s[i].0 != k),
        unique_keys(s) ==> forall|i: int| 0 <= i < s.len() && s[i].0 == k ==> find_key(s, k) == i,
    decreases s.len(),
{
    if s.len() > 0 {
        lemma_find_key(s.drop_last(), k);
        if s.last().0 != k {
            assert forall|i: int| 0 <= i < s.len() - 1 implies s.drop_last()[i] == s[i] by {}
        }
    }
}

/// Two lists with the same keys in the same places find every key at the same index.
pub proof fn lemma_find_key_same_keys<K, V, W>(s: Seq<(K, V)>, t: Seq<(K, W)>, k: K)
    requires
        s.len() == t.len(),
        forall|i: int| 0 <= i < s.len() ==> #[trigger] s[i].0 == t[i].0,
    ensures
        find_key(s, k) == find_key(t, k),
        unique_keys(s) ==> unique_keys(t),
    decreases s.len(),
{
    if s.len() > 0 {
        let s2 = s.drop_last();
        let t2 = t.drop_last();
        assert forall|i: int| 0 <= i < s2.len() implies #[trigger] s2[i].0 == t2[i].0 by {
            assert(s2[i] == s[i]);
            assert(t2[i] == t[i]);
        }
        lemma_find_key_same_keys(s2, t2, k);
    }
    if unique_keys(s) {
        assert forall|i: int, j: int| 0 <= i < j < t.len() implies t[i].0 != t[j].0 by {
            assert(s[i].0 == t[i].0);
            assert(s[j].0 == t[j].0);
        }
    }
}

pub proof fn lemma_assoc_map<K, V>(s: Seq<(K, V)>)
    ensures
        assoc_map(s).dom().finite(),
        forall|k: K| #[trigger] assoc_map(s).dom().contains(k) <==> find_key(s, k) >= 0,
        forall|k: K| find_key(s, k) >= 0 ==> #[trigger] assoc_map(s)[k] == s[find_key(s, k)].1,
        unique_keys(s) ==> assoc_map(s).len() == s.len(),
    decreases s.len(),
{
    if s.len() > 0 {
        let t = s.drop_last();
        lemma_assoc_map(t);
        assert forall|k: K| #[trigger] assoc_map(s).dom().contains(k) <==> find_key(s, k) >= 0 by {
            lemma_find_key(t, k);
        }
        assert forall|k: K| find_key(s, k) >= 0 implies #[trigger] assoc_map(s)[k] == s[find_key(
            s,
            k,
        )].1 by {
            lemma_find_key(t, k);
            if s.last().0 != k {
                assert(s[find_key(s, k)] == t[find_key(t, k)]);
            }
        }
        if unique_keys(s) {
            assert(unique_keys(t));
            lemma_find_key(t, s.last().0);
            assert(!assoc_map(t).dom().contains(s.last().0));
        }
    }
}

/// The key of every pair is in the map, and its value is the pair's.
pub proof fn lemma_assoc_index<K, V>(s: Seq<(K, V)>, i: int)
    requires
        unique_keys(s),
        0 <= i < s.len(),
    ensures
        assoc_map(s).dom().contains(s[i].0),
        assoc_map(s)[s[i].0] == s[i].1,
        find_key(s, s[i].0) == i,
{
    lemma_find_key(s, s[i].0);
    lemma_assoc_map(s);
}

pub proof fn lemma_assoc_set<K, V>(s: Seq<(K, V)>, k: K, v: V)
    ensures
        unique_keys(s) ==> unique_keys(assoc_set(s, k, v)),
        assoc_map(assoc_set(s, k, v)) == assoc_map(s).insert(k, v),
        find_key(assoc_set(s, k, v), k) >= 0,
        assoc_set(s, k, v).len() == s.len() + (if find_key(s, k) >= 0 { 0int } else { 1int }),
{
    let t = assoc_set(s, k, v);
    lemma_find_key(s, k);
    let i = find_key(s, k);
    if i >= 0 {
        assert forall|j: int| 0 <= j < s.len() implies #[trigger] s[j].0 == t[j].0 by {}
        assert forall|k2: K| find_key(s, k2) == find_key(t, k2) by {
            lemma_find_key_same_keys(s, t, k2);
        }
        lemma_find_key_same_keys(s, t, k);
        lemma_assoc_map(s);
        lemma_assoc_map(t);
        assert forall|k2: K| #[trigger] assoc_map(t).dom().contains(k2) implies assoc_map(t)[k2]
            == assoc_map(s).insert(k, v)[k2] by {
            lemma_find_key(s, k2);
        }
        assert(assoc_map(t) =~= assoc_map(s).insert(k, v));
    } else {
        assert(t.drop_last() =~= s);
        if unique_keys(s) {
            assert(unique_keys(t));
        }
        lemma_find_key(t, k);
        assert(t[s.len() as int].0 == k);
    }
}

pub proof fn lemma_assoc_remove<K, V>(s: Seq<(K, V)>, k: K)
    requires
        unique_keys(s),
    ensures
        unique_keys(assoc_remove(s, k)),
        assoc_map(assoc_remove(s, k)) == assoc_map(s).remove(k),
{
    let t = assoc_remove(s, k);
    lemma_find_key(s, k);
    let i = find_key(s, k);
    lemma_assoc_map(s);
    lemma_assoc_map(t);
    if i >= 0 {
        assert forall|a: int, b: int| 0 <= a < b < t.len() implies t[a].0 != t[b].0 by {
            let a2 = if a < i { a } else { a + 1 };
            let b2 = if b < i { b } else { b + 1 };
            assert(t[a] == s[a2]);
            assert(t[b] == s[b2]);
        }
        assert forall|k2: K| #[trigger] assoc_map(t).dom().contains(k2) <==> assoc_map(s).remove(
            k,
        ).dom().contains(k2) by {
            lemma_find_key(s, k2);
            lemma_find_key(t, k2);
            if find_key(t, k2) >= 0 {
                let j = find_key(t, k2);
                let j2 = if j < i { j } else { j + 1 };
                assert(t[j] == s[j2]);
            }
            if k2 != k && find_key(s, k2) >= 0 {
                let j = find_key(s, k2);
                let j2 = if j < i { j } else { j - 1 };
                assert(t[j2] == s[j]);
            }
        }
        assert forall|k2: K| #[trigger] assoc_map(t).dom().contains(k2) implies assoc_map(t)[k2]
            == assoc_map(s).remove(k)[k2] by {
            lemma_find_key(s, k2);
            lemma_find_key(t, k2);
            let j = find_key(t, k2);
            let j2 = if j < i { j } else { j + 1 };
            assert(t[j] == s[j2]);
        }
    }
    assert(assoc_map(t) =~= assoc_map(s).remove(k));
}

} // verus!
