//! Small helpers over hashes.
use vstd::prelude::*;
use crate::crypto::{sha512_256, sha512_256_digest};
use crate::encoding::push_bytes;
use crate::keyed::{bytes_lt, hash_eq, hash_lt, hash_views, lemma_bytes_lt_total, lemma_bytes_lt_trans};

verus! {

broadcast use vstd::seq_lib::group_to_multiset_ensures;

/// The hashes are in non-decreasing byte order.
pub open spec fn sorted_hashes(s: Seq<Seq<u8>>) -> bool {
    forall|i: int, j: int| 0 <= i < j < s.len() ==> !bytes_lt(s[j], s[i])
}

/// The concatenation of the hashes, in order.
pub open spec fn concat_hashes(s: Seq<Seq<u8>>) -> Seq<u8>
    decreases s.len(),
{
    if s.len() == 0 {
        Seq::empty()
    } else {
        concat_hashes(s.drop_last()) + s.last()
    }
}

/// A digest of a set of hashes that does not depend on their order: the
/// SHA-512/256 of the hashes sorted and concatenated.
pub fn hash_set_hash(hashes: &[[u8; 32]]) -> (h: [u8; 32])
    ensures
        exists|s: Seq<Seq<u8>>| #![trigger concat_hashes(s)]
            s.to_multiset() == hash_views(hashes@).to_multiset() && sorted_hashes(s)
            && h@ == sha512_256_digest(concat_hashes(s)),
{
    let mut rest: Vec<[u8; 32]> = Vec::new();
    let mut k: usize = 0;
    while k < hashes.len()
        invariant
            k <= hashes@.len(),
            rest@ == hashes@.subrange(0, k as int),
        decreases hashes@.len() - k,
    {
        rest.push(hashes[k]);
        proof {
            assert(hashes@.subrange(0, k + 1) =~= hashes@.subrange(0, k as int).push(hashes@[k as int]));
        }
        k = k + 1;
    }
    proof {
        assert(rest@ =~= hashes@);
    }
    let mut sorted: Vec<[u8; 32]> = Vec::new();
    let mut data: Vec<u8> = Vec::new();
    while rest.len() > 0
        invariant
            hash_views(sorted@).to_multiset().add(hash_views(rest@).to_multiset()) == hash_views(hashes@).to_multiset(),
            sorted_hashes(hash_views(sorted@)),
            forall|i: int, j: int| 0 <= i < sorted@.len() && 0 <= j < rest@.len() ==> !bytes_lt(
                (#[trigger] rest@[j])@,
                (#[trigger] sorted@[i])@,
            ),
            data@ == concat_hashes(hash_views(sorted@)),
        decreases rest@.len(),
    {
        let mut best: usize = 0;
        let mut q: usize = 1;
        proof {
            lemma_bytes_lt_total(rest@[0]@, rest@[0]@);
        }
        while q < rest.len()
            invariant
                1 <= q <= rest@.len(),
                best < rest@.len(),
                forall|j: int| 0 <= j < q ==> !bytes_lt((#[trigger] rest@[j])@, rest@[best as int]@),
            decreases rest@.len() - q,
        {
            if hash_lt(&rest[q], &rest[best]) {
                proof {
                    assert forall|j: int| 0 <= j < q + 1 implies !bytes_lt((#[trigger] rest@[j])@, rest@[q as int]@) by {
                        lemma_bytes_lt_total(rest@[j]@, rest@[best as int]@);
                        lemma_bytes_lt_total(rest@[q as int]@, rest@[best as int]@);
                        lemma_bytes_lt_total(rest@[q as int]@, rest@[q as int]@);
                        if bytes_lt(rest@[j]@, rest@[q as int]@) {
                            lemma_bytes_lt_trans(rest@[j]@, rest@[q as int]@, rest@[best as int]@);
                        }
                    }
                }
                best = q;
            }
            q = q + 1;
        }
        let ghost r0 = rest@;
        let ghost s0 = sorted@;
        let m = rest.remove(best);
        push_bytes(&mut data, &m);
        sorted.push(m);
        proof {
            assert(rest@ =~= r0.remove(best as int));
            assert(hash_views(rest@) =~= hash_views(r0).remove(best as int));
            assert(hash_views(sorted@) =~= hash_views(s0).push(m@));
            assert(hash_views(sorted@).drop_last() =~= hash_views(s0));
            assert(hash_views(r0)[best as int] == m@);
            assert(hash_views(sorted@).to_multiset().add(hash_views(rest@).to_multiset())
                =~= hash_views(s0).to_multiset().add(hash_views(r0).to_multiset()));
            assert forall|i: int, j: int| 0 <= i < j < hash_views(sorted@).len() implies !bytes_lt(
                hash_views(sorted@)[j],
                hash_views(sorted@)[i],
            ) by {
                if j == s0.len() {
                    assert(r0[best as int] == m);
                }
            }
            assert forall|i: int, j: int| 0 <= i < sorted@.len() && 0 <= j < rest@.len() implies !bytes_lt(
                (#[trigger] rest@[j])@,
                (#[trigger] sorted@[i])@,
            ) by {
                let jj = if j < best { j } else { j + 1 };
                assert(rest@[j] == r0[jj]);
            }
        }
    }
    proof {
        assert(hash_views(rest@).to_multiset() =~= vstd::multiset::Multiset::empty());
        assert(hash_views(sorted@).to_multiset().add(vstd::multiset::Multiset::empty()) =~= hash_views(sorted@).to_multiset());
    }
    sha512_256(data.as_slice())
}

/// How many entries of `a` also occur in `b` (an entry repeated in `a` counts
/// each time).
pub fn intersection_count(a: &[[u8; 32]], b: &[[u8; 32]]) -> (n: usize)
    ensures
        n == hash_views(a@).filter(|h: Seq<u8>| hash_views(b@).contains(h)).len(),
{
    let ghost av = hash_views(a@);
    let ghost bv = hash_views(b@);
    let ghost f = |h: Seq<u8>| bv.contains(h);
    let mut n: usize = 0;
    let mut i: usize = 0;
    while i < a.len()
        invariant
            av == hash_views(a@),
            bv == hash_views(b@),
            f == (|h: Seq<u8>| bv.contains(h)),
            i <= a@.len(),
            n == av.take(i as int).filter(f).len(),
            n <= i,
        decreases a@.len() - i,
    {
        let mut found = false;
        let mut j: usize = 0;
        while j < b.len() && !found
            invariant
                bv == hash_views(b@),
                i < a@.len(),
                j <= b@.len(),
                found ==> bv.contains(a@[i as int]@),
                !found ==> forall|k: int| 0 <= k < j ==> b@[k]@ != a@[i as int]@,
            decreases b@.len() - j + (if found { 0int } else { 1int }),
        {
            if hash_eq(&a[i], &b[j]) {
                proof {
                    assert(bv[j as int] == a@[i as int]@);
                }
                found = true;
            } else {
                j = j + 1;
            }
        }
        proof {
            let t1 = av.take(i + 1);
            assert(t1.drop_last() =~= av.take(i as int));
            assert(t1.last() == a@[i as int]@);
            t1.filter_lemma(f);
            reveal(Seq::filter);
            if !found {
                assert(!bv.contains(a@[i as int]@)) by {
                    if bv.contains(a@[i as int]@) {
                        let k = choose|k: int| 0 <= k < bv.len() && bv[k] == a@[i as int]@;
                        assert(b@[k]@ == a@[i as int]@);
                    }
                }
            }
        }
        if found {
            n = n + 1;
        }
        i = i + 1;
    }
    proof {
        assert(av.take(a@.len() as int) =~= av);
    }
    n
}

/// Two byte-ordered lists with the same elements (with multiplicity) are equal.
proof fn lemma_sorted_unique(s: Seq<Seq<u8>>, t: Seq<Seq<u8>>)
    requires
        s.to_multiset() == t.to_multiset(),
        sorted_hashes(s),
        sorted_hashes(t),
    ensures
        s == t,
    decreases s.len(),
{
    if s.len() == 0 {
        assert(s.len() == s.to_multiset().len());
        assert(t.len() == t.to_multiset().len());
        assert(t =~= s);
    } else {
        assert(s.len() == s.to_multiset().len());
        assert(t.len() == t.to_multiset().len());
        let a = s[0];
        let b = t[0];
        assert(s.contains(a));
        assert(t.to_multiset().count(a) > 0);
        assert(t.contains(a));
        let ja = choose|j: int| 0 <= j < t.len() && t[j] == a;
        assert(!bytes_lt(a, b)) by {
            lemma_bytes_lt_total(b, b);
            if ja > 0 {
                assert(!bytes_lt(t[ja], t[0]));
            }
        }
        assert(t.contains(b));
        assert(s.to_multiset().count(b) > 0);
        assert(s.contains(b));
        let jb = choose|j: int| 0 <= j < s.len() && s[j] == b;
        assert(!bytes_lt(b, a)) by {
            lemma_bytes_lt_total(a, a);
            if jb > 0 {
                assert(!bytes_lt(s[jb], s[0]));
            }
        }
        lemma_bytes_lt_total(a, b);
        assert(a == b);
        let s1 = s.remove(0);
        let t1 = t.remove(0);
        assert(s1 =~= s.drop_first());
        assert(t1 =~= t.drop_first());
        assert(s1.to_multiset() =~= s.to_multiset().remove(a));
        assert(t1.to_multiset() =~= t.to_multiset().remove(b));
        assert(sorted_hashes(s1)) by {
            assert forall|i: int, j: int| 0 <= i < j < s1.len() implies !bytes_lt(s1[j], s1[i]) by {
                assert(s1[i] == s[i + 1] && s1[j] == s[j + 1]);
            }
        }
        assert(sorted_hashes(t1)) by {
            assert forall|i: int, j: int| 0 <= i < j < t1.len() implies !bytes_lt(t1[j], t1[i]) by {
                assert(t1[i] == t[i + 1] && t1[j] == t[j + 1]);
            }
        }
        lemma_sorted_unique(s1, t1);
        assert forall|k: int| 0 <= k < s.len() implies s[k] == t[k] by {
            if k > 0 {
                assert(s[k] == s1[k - 1] && t[k] == t1[k - 1]);
            }
        }
        assert(s =~= t);
    }
}

/// The set hash does not depend on the order of its input: for two inputs with
/// the same hashes (with multiplicity), the sorted lists that `hash_set_hash`
/// digests are equal, and so are the digests.
pub proof fn law_set_hash_order_independent(a: Seq<Seq<u8>>, b: Seq<Seq<u8>>, sa: Seq<Seq<u8>>, sb: Seq<Seq<u8>>)
    requires
        a.to_multiset() == b.to_multiset(),
        sa.to_multiset() == a.to_multiset(),
        sorted_hashes(sa),
        sb.to_multiset() == b.to_multiset(),
        sorted_hashes(sb),
    ensures
        sa == sb,
        sha512_256_digest(concat_hashes(sa)) == sha512_256_digest(concat_hashes(sb)),
{
    lemma_sorted_unique(sa, sb);
}

} // verus!
