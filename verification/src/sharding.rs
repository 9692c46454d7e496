//! Account-based sharding: every address belongs to one shard, fixed by a
//! hash of the address; a node processes a chosen subset of the shards.
use vstd::prelude::*;
use crate::config::N_SHARDS;
use crate::crypto::{sha512_256, sha512_256_digest};
use crate::transaction::{Transaction, encode_utf8_chars};

verus! {

/// Little-endian value of the first four bytes of `b`.
pub open spec fn le_u32(b: Seq<u8>) -> int {
    b[0] + 256 * b[1] + 65536 * b[2] + 16777216 * b[3]
}

/// The shard of an address: the first four bytes of its SHA-512/256 digest,
/// read little-endian, modulo `N_SHARDS`.
pub open spec fn shard_of(addr: Seq<char>) -> u32 {
    (le_u32(sha512_256_digest(encode_utf8_chars(addr))) % (N_SHARDS as int)) as u32
}

/// Whether a node processing `shards` (`None`: all of them) handles the
/// transactions of `sender`.
pub open spec fn processes_sender(shards: Option<Set<u32>>, sender: Seq<char>) -> bool {
    match shards {
        None => true,
        Some(s) => s.contains(shard_of(sender)),
    }
}

/// The shard an address belongs to (always below `N_SHARDS`).
pub fn shard_of_address(addr: &str) -> (s: u32)
    ensures
        s == shard_of(addr@),
        s < N_SHARDS,
{
    let h = sha512_256(addr.as_bytes());
    let first: u64 = h[0] as u64 + 256 * (h[1] as u64) + 65536 * (h[2] as u64) + 16777216 * (h[3] as u64);
    (first % (N_SHARDS as u64)) as u32
}

/// Sender and receiver live in the same shard.
pub fn is_intra_shard(tx: &Transaction) -> (b: bool)
    ensures
        b == (shard_of(tx.sender@) == shard_of(tx.receiver@)),
{
    shard_of_address(tx.sender.as_str()) == shard_of_address(tx.receiver.as_str())
}

/// `(sender's shard, receiver's shard)`.
pub fn shards_of(tx: &Transaction) -> (r: (u32, u32))
    ensures
        r == (shard_of(tx.sender@), shard_of(tx.receiver@)),
{
    (shard_of_address(tx.sender.as_str()), shard_of_address(tx.receiver.as_str()))
}

/// The set of shards a node processes: all of them (legacy mode) or a subset.
#[derive(Debug)]
pub struct ShardSet {
    shards: Option<Vec<u32>>,
}

impl View for ShardSet {
    /// `None` means every shard; `Some(s)` means exactly the shards in `s`.
    type V = Option<Set<u32>>;

    closed spec fn view(&self) -> Option<Set<u32>> {
        match self.shards {
            None => None,
            Some(v) => Some(v@.to_set()),
        }
    }
}

impl ShardSet {
    /// Well-formed: the listed shards hold no duplicates.
    pub closed spec fn wf(&self) -> bool {
        match self.shards {
            None => true,
            Some(v) => v@.no_duplicates(),
        }
    }

    /// Legacy mode: every shard is processed.
    pub fn all() -> (s: Self)
        ensures
            s.wf(),
            s@ == None::<Set<u32>>,
    {
        ShardSet { shards: None }
    }

    /// Only the listed shards are processed.
    pub fn only(shard_ids: &[u32]) -> (s: Self)
        ensures
            s.wf(),
            s@ == Some(shard_ids@.to_set()),
    {
        let mut v: Vec<u32> = Vec::new();
        let mut i: usize = 0;
        while i < shard_ids.len()
            invariant
                i <= shard_ids@.len(),
                v@.no_duplicates(),
                v@.to_set() == shard_ids@.subrange(0, i as int).to_set(),
            decreases shard_ids@.len() - i,
        {
            let x = shard_ids[i];
            let present = vec_contains_u32(&v, x);
            proof {
                assert(shard_ids@.subrange(0, i + 1) == shard_ids@.subrange(0, i as int).push(x));
                shard_ids@.subrange(0, i as int).lemma_push_to_set_commute(x);
            }
            if !present {
                proof {
                    v@.lemma_push_to_set_commute(x);
                }
                v.push(x);
            } else {
                proof {
                    assert(v@.to_set().contains(x));
                    assert(v@.to_set().insert(x) =~= v@.to_set());
                }
            }
            i = i + 1;
        }
        proof {
            assert(shard_ids@.subrange(0, shard_ids@.len() as int) == shard_ids@);
        }
        ShardSet { shards: Some(v) }
    }

    /// Whether this node processes `shard_id`.
    pub fn contains(&self, shard_id: u32) -> (b: bool)
        ensures
            b == match self@ {
                None => true,
                Some(s) => s.contains(shard_id),
            },
    {
        match &self.shards {
            None => true,
            Some(v) => vec_contains_u32(v, shard_id),
        }
    }

    /// Whether this node processes a transaction: its sender's shard is ours.
    pub fn processes_tx(&self, tx: &Transaction) -> (b: bool)
        ensures
            b == processes_sender(self@, tx.sender@),
    {
        let from_shard = shard_of_address(tx.sender.as_str());
        self.contains(from_shard)
    }

    /// Whether sharding is active (only a subset is processed).
    pub fn is_sharded(&self) -> (b: bool)
        ensures
            b == (self@ is Some),
    {
        self.shards.is_some()
    }

    /// The processed shards in increasing order, or `None` in legacy mode.
    pub fn list(&self) -> (r: Option<Vec<u32>>)
        requires
            self.wf(),
        ensures
            match (r, self@) {
                (None, None) => true,
                (Some(v), Some(s)) => v@.to_set() == s && forall|a: int, b: int|
                    0 <= a < b < v@.len() ==> #[trigger] v@[a] < #[trigger] v@[b],
                _ => false,
            },
    {
        match &self.shards {
            None => None,
            Some(src) => {
                let mut out: Vec<u32> = Vec::new();
                let mut i: usize = 0;
                while i < src.len()
                    invariant
                        i <= src@.len(),
                        src@.no_duplicates(),
                        out@.to_set() == src@.subrange(0, i as int).to_set(),
                        forall|a: int, b: int| 0 <= a < b < out@.len() ==> #[trigger] out@[a] < #[trigger] out@[b],
                    decreases src@.len() - i,
                {
                    let x = src[i];
                    proof {
                        assert(src@.subrange(0, i + 1) == src@.subrange(0, i as int).push(x));
                        src@.subrange(0, i as int).lemma_push_to_set_commute(x);
                        assert(!src@.subrange(0, i as int).contains(x)) by {
                            if src@.subrange(0, i as int).contains(x) {
                                let k = choose|k: int| 0 <= k < i && src@.subrange(0, i as int)[k] == x;
                                assert(src@[k] == src@[i as int]);
                            }
                        }
                        assert(!out@.to_set().contains(x));
                        assert(!out@.contains(x));
                    }
                    let mut pos: usize = 0;
                    while pos < out.len() && out[pos] < x
                        invariant
                            pos <= out@.len(),
                            forall|k: int| 0 <= k < pos ==> #[trigger] out@[k] < x,
                        decreases out@.len() - pos,
                    {
                        pos = pos + 1;
                    }
                    let ghost old_out = out@;
                    proof {
                        if pos < out@.len() {
                            assert(out@[pos as int] != x);
                        }
                    }
                    out.insert(pos, x);
                    proof {
                        assert(out@ == old_out.insert(pos as int, x));
                        assert forall|a: int, b: int| 0 <= a < b < out@.len() implies #[trigger] out@[a] < #[trigger] out@[b] by {
                            if b < pos {
                                assert(out@[a] == old_out[a] && out@[b] == old_out[b]);
                            } else if b == pos {
                                assert(out@[a] == old_out[a]);
                            } else if a < pos {
                                assert(out@[a] == old_out[a] && out@[b] == old_out[b - 1]);
                                if pos < old_out.len() {
                                    assert(old_out[pos as int] > x);
                                    if b - 1 > pos {
                                        assert(old_out[pos as int] < old_out[b - 1]);
                                    }
                                }
                            } else if a == pos {
                                assert(out@[b] == old_out[b - 1]);
                                assert(old_out[pos as int] > x);
                                if b - 1 > pos {
                                    assert(old_out[pos as int] < old_out[b - 1]);
                                }
                            } else {
                                assert(out@[a] == old_out[a - 1] && out@[b] == old_out[b - 1]);
                            }
                        }
                        assert(out@.to_set() =~= old_out.to_set().insert(x)) by {
                            assert forall|y: u32| out@.to_set().contains(y) <==> old_out.to_set().insert(x).contains(y) by {
                                if out@.contains(y) {
                                    let k = choose|k: int| 0 <= k < out@.len() && out@[k] == y;
                                    if k < pos {
                                        assert(old_out[k] == y);
                                    } else if k > pos {
                                        assert(old_out[k - 1] == y);
                                    }
                                }
                                if old_out.contains(y) {
                                    let k = choose|k: int| 0 <= k < old_out.len() && old_out[k] == y;
                                    if k < pos {
                                        assert(out@[k] == y);
                                    } else {
                                        assert(out@[k + 1] == y);
                                    }
                                }
                                if y == x {
                                    assert(out@[pos as int] == x);
                                }
                            }
                        }
                    }
                    i = i + 1;
                }
                proof {
                    assert(src@.subrange(0, src@.len() as int) == src@);
                }
                Some(out)
            },
        }
    }
}

impl Default for ShardSet {
    fn default() -> (s: Self)
        ensures
            s@ == None::<Set<u32>>,
    {
        Self::all()
    }
}

/// Linear membership test.
pub fn vec_contains_u32(v: &Vec<u32>, x: u32) -> (b: bool)
    ensures
        b == v@.contains(x),
        b == v@.to_set().contains(x),
{
    let mut i: usize = 0;
    while i < v.len()
        invariant
            i <= v@.len(),
            forall|k: int| 0 <= k < i ==> v@[k] != x,
        decreases v@.len() - i,
    {
        if v[i] == x {
            return true;
        }
        i = i + 1;
    }
    false
}

} // verus!
