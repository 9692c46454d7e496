//! Association lists: finite maps kept as sequences of `(key, value)` pairs with
//! distinct keys, and the facts that relate them to `Map`.
use vstd::prelude::*;

verus! {

/// No key occurs twice.
pub open spec fn keys_unique<K, V>(s: Seq<(K, V)>) -> bool {
    forall|i: int, j: int| 0 <= i < j < s.len() ==> (#[trigger] s[i]).0 != (#[trigger] s[j]).0
}

/// Some entry carries key `k`.
pub open spec fn has_key<K, V>(s: Seq<(K, V)>, k: K) -> bool {
    exists|i: int| 0 <= i < s.len() && (#[trigger] s[i]).0 == k
}

/// The map that an association list denotes.
pub open spec fn to_map<K, V>(s: Seq<(K, V)>) -> Map<K, V> {
    Map::new(
        |k: K| has_key(s, k),
        |k: K| s[choose|i: int| 0 <= i < s.len() && (#[trigger] s[i]).0 == k].1,
    )
}

/// The entry at `i` is what the map holds for its key.
pub proof fn lemma_to_map_index<K, V>(s: Seq<(K, V)>, i: int)
    requires
        keys_unique(s),
        0 <= i < s.len(),
    ensures
        to_map(s).contains_key(s[i].0),
        to_map(s)[s[i].0] == s[i].1,
{
    let k = s[i].0;
    assert(has_key(s, k));
    let j = choose|j: int| 0 <= j < s.len() && (#[trigger] s[j]).0 == k;
    if j != i {
        if j < i {
            assert(s[j].0 != s[i].0);
        } else {
            assert(s[i].0 != s[j].0);
        }
    }
}

/// Appending an entry with a fresh key inserts it into the map.
pub proof fn lemma_to_map_push<K, V>(s: Seq<(K, V)>, k: K, v: V)
    requires
        keys_unique(s),
        !has_key(s, k),
    ensures
        keys_unique(s.push((k, v))),
        to_map(s.push((k, v))) == to_map(s).insert(k, v),
{
    let t = s.push((k, v));
    assert forall|i: int, j: int| 0 <= i < j < t.len() implies (#[trigger] t[i]).0 != (#[trigger] t[j]).0 by {
        if j == s.len() {
            assert(t[i] == s[i]);
        } else {
            assert(t[i] == s[i] && t[j] == s[j]);
        }
    }
    assert forall|q: K| #[trigger] has_key(t, q) == (has_key(s, q) || q == k) by {
        if has_key(s, q) {
            let i = choose|i: int| 0 <= i < s.len() && (#[trigger] s[i]).0 == q;
            assert(t[i] == s[i]);
        }
        if q == k {
            assert(t[s.len() as int].0 == k);
        }
        if has_key(t, q) && q != k {
            let i = choose|i: int| 0 <= i < t.len() && (#[trigger] t[i]).0 == q;
            assert(i < s.len());
            assert(s[i] == t[i]);
        }
    }
    assert forall|q: K| #[trigger] to_map(t).contains_key(q) implies to_map(t)[q] == to_map(s).insert(k, v)[q] by {
        let i = choose|i: int| 0 <= i < t.len() && (#[trigger] t[i]).0 == q;
        lemma_to_map_index(t, i);
        if i < s.len() {
            assert(t[i] == s[i]);
            lemma_to_map_index(s, i);
        }
    }
    assert(to_map(t) =~= to_map(s).insert(k, v));
}

/// Replacing the value of the entry at `i` updates the map at its key.
pub proof fn lemma_to_map_update<K, V>(s: Seq<(K, V)>, i: int, v: V)
    requires
        keys_unique(s),
        0 <= i < s.len(),
    ensures
        keys_unique(s.update(i, (s[i].0, v))),
        to_map(s.update(i, (s[i].0, v))) == to_map(s).insert(s[i].0, v),
{
    let k = s[i].0;
    let t = s.update(i, (k, v));
    assert forall|a: int, b: int| 0 <= a < b < t.len() implies (#[trigger] t[a]).0 != (#[trigger] t[b]).0 by {
        assert(t[a].0 == s[a].0 && t[b].0 == s[b].0);
    }
    assert forall|q: K| #[trigger] has_key(t, q) == has_key(s, q) by {
        if has_key(s, q) {
            let j = choose|j: int| 0 <= j < s.len() && (#[trigger] s[j]).0 == q;
            assert(t[j].0 == q);
        }
        if has_key(t, q) {
            let j = choose|j: int| 0 <= j < t.len() && (#[trigger] t[j]).0 == q;
            assert(s[j].0 == q);
        }
    }
    lemma_to_map_index(s, i);
    assert forall|q: K| #[trigger] to_map(t).contains_key(q) implies to_map(t)[q] == to_map(s).insert(k, v)[q] by {
        let j = choose|j: int| 0 <= j < t.len() && (#[trigger] t[j]).0 == q;
        lemma_to_map_index(t, j);
        if j != i {
            assert(t[j] == s[j]);
            lemma_to_map_index(s, j);
        }
    }
    assert(to_map(t) =~= to_map(s).insert(k, v));
}

/// Removing the entry at `i` removes its key from the map.
pub proof fn lemma_to_map_remove<K, V>(s: Seq<(K, V)>, i: int)
    requires
        keys_unique(s),
        0 <= i < s.len(),
    ensures
        keys_unique(s.remove(i)),
        to_map(s.remove(i)) == to_map(s).remove(s[i].0),
{
    let k = s[i].0;
    let t = s.remove(i);
    assert forall|a: int, b: int| 0 <= a < b < t.len() implies (#[trigger] t[a]).0 != (#[trigger] t[b]).0 by {
        let a2 = if a < i { a } else { a + 1 };
        let b2 = if b < i { b } else { b + 1 };
        assert(t[a] == s[a2] && t[b] == s[b2]);
    }
    assert forall|q: K| #[trigger] has_key(t, q) == (has_key(s, q) && q != k) by {
        if has_key(s, q) && q != k {
            let j = choose|j: int| 0 <= j < s.len() && (#[trigger] s[j]).0 == q;
            assert(j != i);
            if j < i {
                assert(t[j] == s[j]);
            } else {
                assert(t[j - 1] == s[j]);
            }
        }
        if has_key(t, q) {
            let j = choose|j: int| 0 <= j < t.len() && (#[trigger] t[j]).0 == q;
            let j2 = if j < i { j } else { j + 1 };
            assert(t[j] == s[j2]);
            if q == k {
                assert(s[j2].0 == s[i].0);
            }
        }
    }
    assert forall|q: K| #[trigger] to_map(t).contains_key(q) implies to_map(t)[q] == to_map(s).remove(k)[q] by {
        let j = choose|j: int| 0 <= j < t.len() && (#[trigger] t[j]).0 == q;
        lemma_to_map_index(t, j);
        let j2 = if j < i { j } else { j + 1 };
        assert(t[j] == s[j2]);
        lemma_to_map_index(s, j2);
    }
    assert(to_map(t) =~= to_map(s).remove(k));
}

/// An association list with distinct keys has as many entries as its map.
pub proof fn lemma_entries_len<K, V>(s: Seq<(K, V)>)
    requires
        keys_unique(s),
    ensures
        to_map(s).len() == s.len(),
        to_map(s).dom().finite(),
    decreases s.len(),
{
    if s.len() == 0 {
        assert(to_map(s).dom() =~= Set::<K>::empty());
    } else {
        let t = s.drop_last();
        assert(keys_unique(t)) by {
            assert forall|i: int, j: int| 0 <= i < j < t.len() implies (#[trigger] t[i]).0 != (#[trigger] t[j]).0 by {
                assert(t[i] == s[i] && t[j] == s[j]);
            }
        }
        lemma_entries_len(t);
        assert(!has_key(t, s.last().0)) by {
            if has_key(t, s.last().0) {
                let q = choose|q: int| 0 <= q < t.len() && (#[trigger] t[q]).0 == s.last().0;
                assert(s[q].0 != s[s.len() - 1].0);
            }
        }
        lemma_to_map_push(t, s.last().0, s.last().1);
        assert(t.push(s.last()) == s);
    }
}

/// Sum of `f` over the values of an association list.
pub open spec fn seq_sum<K, V>(s: Seq<(K, V)>, f: spec_fn(V) -> int) -> int
    decreases s.len(),
{
    if s.len() == 0 {
        0
    } else {
        seq_sum(s.drop_last(), f) + f(s.last().1)
    }
}

/// Some association list with distinct keys that denotes `m` (exists when `m` is finite).
pub open spec fn enumeration<K, V>(m: Map<K, V>) -> Seq<(K, V)> {
    choose|s: Seq<(K, V)>| keys_unique(s) && to_map(s) == m
}

/// Sum of `f` over the values of a finite map.
pub open spec fn map_sum<K, V>(m: Map<K, V>, f: spec_fn(V) -> int) -> int {
    seq_sum(enumeration(m), f)
}

/// Removing the entry at `i` takes its term out of the sum.
pub proof fn lemma_seq_sum_remove<K, V>(s: Seq<(K, V)>, i: int, f: spec_fn(V) -> int)
    requires
        0 <= i < s.len(),
    ensures
        seq_sum(s, f) == seq_sum(s.remove(i), f) + f(s[i].1),
    decreases s.len(),
{
    if i == s.len() - 1 {
        assert(s.remove(i) =~= s.drop_last());
    } else {
        let d = s.drop_last();
        lemma_seq_sum_remove(d, i, f);
        assert(s.remove(i).drop_last() =~= d.remove(i));
        assert(s.remove(i).last() == s.last());
    }
}

/// Two association lists with distinct keys for the same map have the same sum.
pub proof fn lemma_seq_sum_same_map<K, V>(s1: Seq<(K, V)>, s2: Seq<(K, V)>, f: spec_fn(V) -> int)
    requires
        keys_unique(s1),
        keys_unique(s2),
        to_map(s1) == to_map(s2),
    ensures
        seq_sum(s1, f) == seq_sum(s2, f),
    decreases s1.len(),
{
    if s1.len() == 0 {
        if s2.len() > 0 {
            lemma_to_map_index(s2, 0);
        }
    } else {
        let last = s1.len() - 1;
        lemma_to_map_index(s1, last);
        let k = s1[last].0;
        assert(has_key(s2, k));
        let j = choose|j: int| 0 <= j < s2.len() && (#[trigger] s2[j]).0 == k;
        lemma_to_map_index(s2, j);
        lemma_to_map_remove(s1, last);
        lemma_to_map_remove(s2, j);
        assert(s1.remove(last) =~= s1.drop_last());
        lemma_seq_sum_same_map(s1.remove(last), s2.remove(j), f);
        lemma_seq_sum_remove(s2, j, f);
    }
}

/// Setting key `k` to `v` in the map of an association list with distinct
/// keys changes the sum by the new term minus the replaced one (if any); the
/// result is an association list for the new map.
pub proof fn lemma_seq_sum_insert<K, V>(s: Seq<(K, V)>, k: K, v: V, f: spec_fn(V) -> int) -> (t: Seq<(K, V)>)
    requires
        keys_unique(s),
    ensures
        keys_unique(t),
        to_map(t) == to_map(s).insert(k, v),
        seq_sum(t, f) == seq_sum(s, f) - (if to_map(s).contains_key(k) { f(to_map(s)[k]) } else { 0 }) + f(v),
{
    if has_key(s, k) {
        let i = choose|i: int| 0 <= i < s.len() && (#[trigger] s[i]).0 == k;
        let t = s.update(i, (k, v));
        lemma_to_map_update(s, i, v);
        lemma_to_map_index(s, i);
        lemma_seq_sum_remove(s, i, f);
        lemma_seq_sum_remove(t, i, f);
        assert(t.remove(i) =~= s.remove(i));
        t
    } else {
        lemma_to_map_push(s, k, v);
        let t = s.push((k, v));
        assert(t.drop_last() =~= s);
        t
    }
}

/// The sum over a map equals the sum over any of its association lists.
pub proof fn lemma_map_sum<K, V>(s: Seq<(K, V)>, f: spec_fn(V) -> int)
    requires
        keys_unique(s),
    ensures
        map_sum(to_map(s), f) == seq_sum(s, f),
{
    let e = enumeration(to_map(s));
    assert(keys_unique(e) && to_map(e) == to_map(s));
    lemma_seq_sum_same_map(e, s, f);
}

/// The map an association list denotes when later entries override earlier ones.
pub open spec fn last_wins<K, V>(s: Seq<(K, V)>) -> Map<K, V>
    decreases s.len(),
{
    if s.len() == 0 {
        Map::empty()
    } else {
        last_wins(s.drop_last()).insert(s.last().0, s.last().1)
    }
}

/// With distinct keys, overriding makes no difference.
pub proof fn lemma_last_wins_unique<K, V>(s: Seq<(K, V)>)
    requires
        keys_unique(s),
    ensures
        last_wins(s) == to_map(s),
    decreases s.len(),
{
    if s.len() == 0 {
        assert(to_map(s) =~= Map::<K, V>::empty());
    } else {
        let d = s.drop_last();
        assert(keys_unique(d));
        lemma_last_wins_unique(d);
        assert(!has_key(d, s.last().0)) by {
            if has_key(d, s.last().0) {
                let i = choose|i: int| 0 <= i < d.len() && (#[trigger] d[i]).0 == s.last().0;
                assert(s[i].0 != s[s.len() - 1].0);
            }
        }
        lemma_to_map_push(d, s.last().0, s.last().1);
        assert(d.push(s.last()) =~= s);
    }
}

/// A prefix sum of non-negative terms is at most the whole sum.
pub proof fn lemma_seq_sum_prefix<K, V>(s: Seq<(K, V)>, j: int, f: spec_fn(V) -> int)
    requires
        0 <= j <= s.len(),
        forall|v: V| #[trigger] f(v) >= 0,
    ensures
        seq_sum(s.take(j), f) <= seq_sum(s, f),
    decreases s.len() - j,
{
    if j < s.len() {
        lemma_seq_sum_prefix(s, j + 1, f);
        assert(s.take(j + 1).drop_last() =~= s.take(j));
    } else {
        assert(s.take(j) =~= s);
    }
}

} // verus!
