//! Lookups in vectors of `(key, value)` pairs keyed by hashes or strings.
use vstd::prelude::*;
use crate::maps::{has_key, keys_unique, lemma_to_map_index, lemma_to_map_push, lemma_to_map_remove, lemma_to_map_update, to_map};
use crate::strings::str_eq;

verus! {

/// Abstract entries of a hash-keyed list.
pub open spec fn hentries<T: View>(v: Seq<([u8; 32], T)>) -> Seq<(Seq<u8>, T::V)> {
    v.map_values(|e: ([u8; 32], T)| (e.0@, e.1@))
}

/// Abstract entries of a string-keyed list.
pub open spec fn sentries<T: View>(v: Seq<(String, T)>) -> Seq<(Seq<char>, T::V)> {
    v.map_values(|e: (String, T)| (e.0@, e.1@))
}

/// The byte sequences of a list of hashes.
pub open spec fn hash_views(hs: Seq<[u8; 32]>) -> Seq<Seq<u8>> {
    hs.map_values(|h: [u8; 32]| h@)
}

/// Equality of two hashes.
pub fn hash_eq(a: &[u8; 32], b: &[u8; 32]) -> (r: bool)
    ensures
        r == (a@ == b@),
{
    let mut i: usize = 0;
    while i < 32
        invariant
            i <= 32,
            a@.len() == 32,
            b@.len() == 32,
            forall|k: int| 0 <= k < i ==> a@[k] == b@[k],
        decreases 32 - i,
    {
        if a[i] != b[i] {
            return false;
        }
        i = i + 1;
    }
    proof {
        assert(a@ =~= b@);
    }
    true
}

/// Strict lexicographic order on byte strings.
pub open spec fn bytes_lt(a: Seq<u8>, b: Seq<u8>) -> bool
    decreases a.len(),
{
    if a.len() == 0 {
        b.len() > 0
    } else if b.len() == 0 {
        false
    } else if a[0] < b[0] {
        true
    } else if a[0] > b[0] {
        false
    } else {
        bytes_lt(a.drop_first(), b.drop_first())
    }
}

/// `a` sorts strictly before `b` (the order of `[u8; 32]` in Rust).
pub fn hash_lt(a: &[u8; 32], b: &[u8; 32]) -> (r: bool)
    ensures
        r == bytes_lt(a@, b@),
{
    let mut i: usize = 0;
    proof {
        assert(a@.skip(0) =~= a@);
        assert(b@.skip(0) =~= b@);
    }
    while i < 32
        invariant
            i <= 32,
            a@.len() == 32,
            b@.len() == 32,
            bytes_lt(a@, b@) == bytes_lt(a@.skip(i as int), b@.skip(i as int)),
        decreases 32 - i,
    {
        proof {
            assert(a@.skip(i as int).drop_first() =~= a@.skip(i + 1));
            assert(b@.skip(i as int).drop_first() =~= b@.skip(i + 1));
        }
        if a[i] < b[i] {
            return true;
        }
        if a[i] > b[i] {
            return false;
        }
        i = i + 1;
    }
    proof {
        assert(a@.skip(32).len() == 0);
    }
    false
}

/// `bytes_lt` is irreflexive and asymmetric, and any two distinct byte strings are comparable.
pub proof fn lemma_bytes_lt_total(a: Seq<u8>, b: Seq<u8>)
    ensures
        !bytes_lt(a, a),
        bytes_lt(a, b) ==> !bytes_lt(b, a),
        a != b ==> bytes_lt(a, b) || bytes_lt(b, a),
    decreases a.len(),
{
    if a.len() > 0 && b.len() > 0 {
        lemma_bytes_lt_total(a.drop_first(), b.drop_first());
        lemma_bytes_lt_total(a.drop_first(), a.drop_first());
        if a[0] == b[0] && a.drop_first() == b.drop_first() && a.len() == b.len() {
            assert forall|k: int| 0 <= k < a.len() implies a[k] == b[k] by {
                if k > 0 {
                    assert(a[k] == a.drop_first()[k - 1]);
                    assert(b[k] == b.drop_first()[k - 1]);
                }
            }
            assert(a =~= b);
        }
    } else if a.len() > 0 {
        lemma_bytes_lt_total(a.drop_first(), a.drop_first());
    } else if b.len() == 0 {
        assert(a =~= b);
    }
}

/// `bytes_lt` is transitive.
pub proof fn lemma_bytes_lt_trans(a: Seq<u8>, b: Seq<u8>, c: Seq<u8>)
    requires
        bytes_lt(a, b),
        bytes_lt(b, c),
    ensures
        bytes_lt(a, c),
    decreases a.len(),
{
    if a.len() > 0 && b.len() > 0 && c.len() > 0 {
        if a[0] == b[0] && b[0] == c[0] {
            lemma_bytes_lt_trans(a.drop_first(), b.drop_first(), c.drop_first());
        }
    }
}

/// Position of the entry keyed by `h`.
pub fn hfind<T: View>(v: &Vec<([u8; 32], T)>, h: &[u8; 32]) -> (r: Option<usize>)
    ensures
        match r {
            Some(i) => i < v@.len() && v@[i as int].0@ == h@,
            None => !has_key(hentries(v@), h@),
        },
{
    let mut i: usize = 0;
    while i < v.len()
        invariant
            i <= v@.len(),
            forall|k: int| 0 <= k < i ==> (#[trigger] v@[k]).0@ != h@,
        decreases v@.len() - i,
    {
        if hash_eq(&v[i].0, h) {
            return Some(i);
        }
        i = i + 1;
    }
    proof {
        let e = hentries(v@);
        if has_key(e, h@) {
            let k = choose|k: int| 0 <= k < e.len() && (#[trigger] e[k]).0 == h@;
            assert(e[k].0 == v@[k].0@);
        }
    }
    None
}

/// Position of the entry keyed by `s`.
pub fn sfind<T: View>(v: &Vec<(String, T)>, s: &str) -> (r: Option<usize>)
    ensures
        match r {
            Some(i) => i < v@.len() && v@[i as int].0@ == s@,
            None => !has_key(sentries(v@), s@),
        },
{
    let mut i: usize = 0;
    while i < v.len()
        invariant
            i <= v@.len(),
            forall|k: int| 0 <= k < i ==> (#[trigger] v@[k]).0@ != s@,
        decreases v@.len() - i,
    {
        if str_eq(v[i].0.as_str(), s) {
            return Some(i);
        }
        i = i + 1;
    }
    proof {
        let e = sentries(v@);
        if has_key(e, s@) {
            let k = choose|k: int| 0 <= k < e.len() && (#[trigger] e[k]).0 == s@;
            assert(e[k].0 == v@[k].0@);
        }
    }
    None
}

/// Removes the entry keyed by `h`, if any, and returns its value.
pub fn hremove<T: View>(v: &mut Vec<([u8; 32], T)>, h: &[u8; 32]) -> (r: Option<T>)
    requires
        keys_unique(hentries(old(v)@)),
    ensures
        keys_unique(hentries(final(v)@)),
        to_map(hentries(final(v)@)) == to_map(hentries(old(v)@)).remove(h@),
        match r {
            Some(x) => to_map(hentries(old(v)@)).contains_key(h@) && to_map(hentries(old(v)@))[h@] == x@,
            None => !to_map(hentries(old(v)@)).contains_key(h@),
        },
{
    match hfind(v, h) {
        Some(i) => {
            let ghost e = hentries(v@);
            proof {
                lemma_to_map_index(e, i as int);
            }
            let (_, x) = v.remove(i);
            proof {
                assert(hentries(v@) =~= e.remove(i as int));
                lemma_to_map_remove(e, i as int);
            }
            Some(x)
        },
        None => {
            proof {
                assert(to_map(hentries(v@)).remove(h@) =~= to_map(hentries(v@)));
            }
            None
        },
    }
}

/// Sets the value of key `h`, adding the entry if absent.
pub fn hset<T: View>(v: &mut Vec<([u8; 32], T)>, h: &[u8; 32], x: T)
    requires
        keys_unique(hentries(old(v)@)),
    ensures
        keys_unique(hentries(final(v)@)),
        to_map(hentries(final(v)@)) == to_map(hentries(old(v)@)).insert(h@, x@),
        forall|i: int| 0 <= i < old(v)@.len() ==> (#[trigger] final(v)@[i]).0@ == old(v)@[i].0@,
        has_key(hentries(old(v)@), h@) ==> final(v)@.len() == old(v)@.len(),
        !has_key(hentries(old(v)@), h@) ==> final(v)@.len() == old(v)@.len() + 1 && final(v)@[old(v)@.len() as int].0@ == h@,
{
    let ghost xv = x@;
    match hfind(v, h) {
        Some(i) => {
            let ghost e = hentries(v@);
            let k: [u8; 32] = v[i].0;
            v.set(i, (k, x));
            proof {
                assert(hentries(v@) =~= e.update(i as int, (e[i as int].0, xv)));
                lemma_to_map_update(e, i as int, xv);
            }
        },
        None => {
            let ghost e = hentries(v@);
            let k: [u8; 32] = *h;
            v.push((k, x));
            proof {
                assert(hentries(v@) =~= e.push((h@, xv)));
                lemma_to_map_push(e, h@, xv);
            }
        },
    }
}

/// Sets the value of key `s`, adding the entry if absent.
pub fn sset<T: View>(v: &mut Vec<(String, T)>, s: &str, x: T)
    requires
        keys_unique(sentries(old(v)@)),
    ensures
        keys_unique(sentries(final(v)@)),
        to_map(sentries(final(v)@)) == to_map(sentries(old(v)@)).insert(s@, x@),
{
    let ghost xv = x@;
    match sfind(v, s) {
        Some(i) => {
            let ghost e = sentries(v@);
            let k = v[i].0.clone();
            v.set(i, (k, x));
            proof {
                assert(sentries(v@) =~= e.update(i as int, (e[i as int].0, xv)));
                lemma_to_map_update(e, i as int, xv);
            }
        },
        None => {
            let ghost e = sentries(v@);
            v.push((s.to_owned(), x));
            proof {
                assert(sentries(v@) =~= e.push((s@, xv)));
                lemma_to_map_push(e, s@, xv);
            }
        },
    }
}

/// The entry at `i` is the map's value for its key.
pub proof fn lemma_hentry<T: View>(v: Seq<([u8; 32], T)>, i: int)
    requires
        keys_unique(hentries(v)),
        0 <= i < v.len(),
    ensures
        to_map(hentries(v)).contains_key(v[i].0@),
        to_map(hentries(v))[v[i].0@] == v[i].1@,
{
    lemma_to_map_index(hentries(v), i);
}

/// The entry at `i` is the map's value for its key.
pub proof fn lemma_sentry<T: View>(v: Seq<(String, T)>, i: int)
    requires
        keys_unique(sentries(v)),
        0 <= i < v.len(),
    ensures
        to_map(sentries(v)).contains_key(v[i].0@),
        to_map(sentries(v))[v[i].0@] == v[i].1@,
{
    lemma_to_map_index(sentries(v), i);
}

} // verus!
