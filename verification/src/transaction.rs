//! Signed transfers between accounts, identified by their SHA-512/256 hash.
use vstd::prelude::*;
use crate::config::DEFAULT_TX_FEE_MILLI;
use crate::crypto::{ed25519_seed_key, ed25519_seed_public_key, ed25519_seed_signature, ed25519_batch_accepts, ed25519_key_decodes, ed25519_public_key_is_valid, ed25519_verify_batch, ed25519_sign, ed25519_verifies, ed25519_verify, now_unix_secs, random_u64, sha512_256, sha512_256_digest};
use crate::cross_shard::TxKind;
use crate::hex::{append_decimal, dec_chars};
use crate::encoding::{debug_bytes, dec, push_bytes, push_debug_bytes, push_decimal, push_str_bytes};

verus! {

/// A 32-byte SHA-512/256 digest.
pub type Hash = [u8; 32];

/// Length in bytes of an Ed25519 public key.
pub const ED25519_PUBLIC_KEY_LEN: usize = 32;

/// Length in bytes of an Ed25519 signature.
pub const ED25519_SIGNATURE_LEN: usize = 64;

/// A 32-byte Ed25519 public key.
pub type PublicKey = [u8; 32];

/// A transfer of `amount` milliANGP (plus `fee`) from `sender` to `receiver`.
#[derive(Debug)]
pub struct Transaction {
    pub sender: String,
    pub receiver: String,
    pub amount: u64,
    pub fee: u64,
    pub nonce: u64,
    pub timestamp: u64,
    pub parents: Vec<Hash>,
    pub signature: Option<Vec<u8>>,
    pub public_key: Option<PublicKey>,
    pub hash: Hash,
    pub kind: TxKind,
}

/// The mathematical content of a transaction.
pub struct TxView {
    pub sender: Seq<char>,
    pub receiver: Seq<char>,
    pub amount: u64,
    pub fee: u64,
    pub nonce: u64,
    pub timestamp: u64,
    pub parents: Seq<Seq<u8>>,
    pub signature: Option<Seq<u8>>,
    pub public_key: Option<Seq<u8>>,
    pub hash: Seq<u8>,
    pub kind: TxKind,
}

impl View for Transaction {
    type V = TxView;

    open spec fn view(&self) -> TxView {
        TxView {
            sender: self.sender@,
            receiver: self.receiver@,
            amount: self.amount,
            fee: self.fee,
            nonce: self.nonce,
            timestamp: self.timestamp,
            parents: self.parents.deep_view(),
            signature: match self.signature {
                Some(s) => Some(s@),
                None => None,
            },
            public_key: match self.public_key {
                Some(k) => Some(k@),
                None => None,
            },
            hash: self.hash@,
            kind: self.kind,
        }
    }
}

/// The views of a sequence of transactions.
pub open spec fn tx_views(s: Seq<Transaction>) -> Seq<TxView> {
    s.map_values(|t: Transaction| t@)
}

/// ASCII bytes of the `|` separator.
pub open spec fn bar() -> Seq<u8> {
    seq![124u8]
}

/// `{:?}` of a list of hashes: `[[..], [..]]`.
pub open spec fn debug_hash_list(hs: Seq<Seq<u8>>) -> Seq<u8> {
    seq![91u8] + debug_hash_items(hs) + seq![93u8]
}

/// The comma-separated entries of `debug_hash_list`.
pub open spec fn debug_hash_items(hs: Seq<Seq<u8>>) -> Seq<u8>
    decreases hs.len(),
{
    if hs.len() == 0 {
        Seq::empty()
    } else if hs.len() == 1 {
        debug_bytes(hs[0])
    } else {
        debug_hash_items(hs.drop_last()) + seq![44u8, 32u8] + debug_bytes(hs.last())
    }
}

/// `{:?}` of a transaction kind.
pub open spec fn debug_kind(k: TxKind) -> Seq<u8> {
    match k {
        TxKind::Normal => seq![78u8, 111, 114, 109, 97, 108],
        TxKind::Lock => seq![76u8, 111, 99, 107],
        TxKind::Commit { receipt_hash } => seq![
            67u8, 111, 109, 109, 105, 116, 32, 123, 32, 114, 101, 99, 101, 105, 112, 116, 95,
            104, 97, 115, 104, 58, 32,
        ] + debug_bytes(receipt_hash@) + seq![32u8, 125],
        TxKind::Refund { receipt_hash } => seq![
            82u8, 101, 102, 117, 110, 100, 32, 123, 32, 114, 101, 99, 101, 105, 112, 116, 95,
            104, 97, 115, 104, 58, 32,
        ] + debug_bytes(receipt_hash@) + seq![32u8, 125],
    }
}

/// The bytes hashed to identify a transaction:
/// `sender|receiver|amount|fee|nonce|timestamp|{parents:?}|{kind:?}`.
pub open spec fn tx_preimage(t: TxView) -> Seq<u8> {
    encode_utf8_chars(t.sender) + bar() + encode_utf8_chars(t.receiver) + bar() + dec(t.amount as nat)
        + bar() + dec(t.fee as nat) + bar() + dec(t.nonce as nat) + bar() + dec(t.timestamp as nat)
        + bar() + debug_hash_list(t.parents) + bar() + debug_kind(t.kind)
}

/// The canonical hash of a transaction's content (signature, key and stored hash excluded).
pub open spec fn tx_digest(t: TxView) -> Seq<u8> {
    sha512_256_digest(tx_preimage(t))
}

/// UTF-8 encoding of a character sequence.
pub open spec fn encode_utf8_chars(s: Seq<char>) -> Seq<u8> {
    vstd::utf8::encode_utf8(s)
}

/// The signature fields are present, well sized, and the key decodes.
pub open spec fn sig_fields_ok(t: TxView) -> bool {
    &&& t.signature is Some
    &&& t.signature->0.len() == 64
    &&& t.public_key is Some
    &&& ed25519_key_decodes(t.public_key->0)
}

/// The transaction carries a valid Ed25519 signature of its digest.
pub open spec fn sig_valid(t: TxView) -> bool {
    &&& sig_fields_ok(t)
    &&& ed25519_verifies(t.public_key->0, tx_digest(t), t.signature->0)
}

/// `amount + fee`, saturating at `u64::MAX`.
pub open spec fn total_cost_spec(t: TxView) -> u64 {
    if t.amount + t.fee > u64::MAX {
        u64::MAX
    } else {
        (t.amount + t.fee) as u64
    }
}

/// Number of signatures handed to the batch verifier at once.
pub const BATCH_CHUNK_SIZE: usize = 1000;

/// Positions (in order) of the transactions whose signature fields are usable.
pub open spec fn ok_indices(txs: Seq<TxView>) -> Seq<int>
    decreases txs.len(),
{
    if txs.len() == 0 {
        Seq::empty()
    } else {
        let p = ok_indices(txs.drop_last());
        if sig_fields_ok(txs.last()) {
            p.push(txs.len() - 1)
        } else {
            p
        }
    }
}

/// The `c`-th chunk of `idx`, `BATCH_CHUNK_SIZE` entries long (the last may be shorter).
pub open spec fn chunk_of(idx: Seq<int>, c: int) -> Seq<int> {
    let lo = c * BATCH_CHUNK_SIZE;
    let hi = if lo + BATCH_CHUNK_SIZE <= idx.len() { lo + BATCH_CHUNK_SIZE } else { idx.len() as int };
    idx.subrange(lo, hi)
}

/// Whether the batch verifier accepts chunk `c` of the usable signatures of `txs`.
pub open spec fn chunk_accepts(txs: Seq<TxView>, c: int) -> bool {
    let ch = chunk_of(ok_indices(txs), c);
    ed25519_batch_accepts(
        ch.map_values(|i: int| tx_digest(txs[i])),
        ch.map_values(|i: int| txs[i].signature->0),
        ch.map_values(|i: int| txs[i].public_key->0),
    )
}

/// The verdict of `verify_batch` for the transaction at position `i`: its signature
/// fields are usable, and either its whole chunk passes batch verification or its
/// own signature verifies.
pub open spec fn batch_verdict(txs: Seq<TxView>, i: int) -> bool {
    &&& sig_fields_ok(txs[i])
    &&& (chunk_accepts(txs, ok_indices(txs.take(i)).len() as int / BATCH_CHUNK_SIZE as int) || sig_valid(txs[i]))
}

proof fn lemma_ok_indices_prefix(txs: Seq<TxView>, i: int)
    requires
        0 <= i <= txs.len(),
    ensures
        ok_indices(txs.take(i)).len() <= ok_indices(txs).len(),
        ok_indices(txs.take(i)) == ok_indices(txs).take(ok_indices(txs.take(i)).len() as int),
        i < txs.len() && sig_fields_ok(txs[i]) ==> ok_indices(txs.take(i)).len() < ok_indices(txs).len(),
        i < txs.len() && sig_fields_ok(txs[i]) ==> ok_indices(txs)[ok_indices(txs.take(i)).len() as int] == i,
        forall|k: int| 0 <= k < ok_indices(txs).len() ==> 0 <= #[trigger] ok_indices(txs)[k] < txs.len()
            && sig_fields_ok(txs[ok_indices(txs)[k]]),
        forall|k1: int, k2: int| 0 <= k1 < k2 < ok_indices(txs).len() ==> #[trigger] ok_indices(txs)[k1] < #[trigger] ok_indices(txs)[k2],
    decreases txs.len(),
{
    if txs.len() > 0 {
        let d = txs.drop_last();
        if i == txs.len() {
            assert(txs.take(i) == txs);
            lemma_ok_indices_prefix(d, 0);
        } else {
            assert(txs.take(i) == d.take(i));
            lemma_ok_indices_prefix(d, i);
            if i == d.len() {
                assert(d.take(i) == d);
                assert(txs[i] == txs.last());
            } else {
                assert(txs[i] == d[i]);
            }
        }
        let p = ok_indices(d);
        assert forall|k: int| 0 <= k < ok_indices(txs).len() implies 0 <= #[trigger] ok_indices(txs)[k] < txs.len()
            && sig_fields_ok(txs[ok_indices(txs)[k]]) by {
            if k < p.len() {
                assert(ok_indices(txs)[k] == p[k]);
                assert(txs[p[k]] == d[p[k]]);
            }
        }
        assert forall|k1: int, k2: int| 0 <= k1 < k2 < ok_indices(txs).len() implies #[trigger] ok_indices(txs)[k1] < #[trigger] ok_indices(txs)[k2] by {
            if k2 < p.len() {
                assert(ok_indices(txs)[k1] == p[k1]);
                assert(ok_indices(txs)[k2] == p[k2]);
            } else {
                assert(ok_indices(txs)[k1] == p[k1]);
            }
        }
    } else {
        assert(txs.take(i) == txs);
    }
}

/// The position of a usable signature among the usable ones is its rank.
proof fn lemma_rank_of_ok_index(txs: Seq<TxView>, k: int)
    requires
        0 <= k < ok_indices(txs).len(),
    ensures
        ok_indices(txs.take(ok_indices(txs)[k])).len() == k,
{
    let i = ok_indices(txs)[k];
    lemma_ok_indices_prefix(txs, txs.len() as int);
    lemma_ok_indices_prefix(txs, i);
    let l = ok_indices(txs.take(i)).len() as int;
    let oi = ok_indices(txs);
    assert(oi[l] == i);
    if l < k {
        assert(oi[l] < oi[k]);
    } else if l > k {
        assert(oi[k] < oi[l]);
    }
}

/// A fresh copy of a list of hashes.
pub fn copy_hashes(v: &Vec<Hash>) -> (r: Vec<Hash>)
    ensures
        r@ == v@,
        r.deep_view() == v.deep_view(),
{
    let mut r: Vec<Hash> = Vec::new();
    let mut i: usize = 0;
    while i < v.len()
        invariant
            i <= v@.len(),
            r@ == v@.subrange(0, i as int),
        decreases v@.len() - i,
    {
        let h: Hash = v[i];
        r.push(h);
        proof {
            assert(v@.subrange(0, i + 1) == v@.subrange(0, i as int).push(v@[i as int]));
        }
        i = i + 1;
    }
    proof {
        assert(v@.subrange(0, v@.len() as int) == v@);
        assert(r.deep_view() =~= v.deep_view());
    }
    r
}

/// A fresh copy of a byte vector.
pub fn copy_bytes(v: &Vec<u8>) -> (r: Vec<u8>)
    ensures
        r@ == v@,
{
    let mut r: Vec<u8> = Vec::new();
    push_bytes(&mut r, v.as_slice());
    r
}

/// Appends `{:?}` of a hash list to `dst`.
pub fn push_debug_hash_list(dst: &mut Vec<u8>, hs: &Vec<Hash>)
    ensures
        final(dst)@ == old(dst)@ + debug_hash_list(hs.deep_view()),
{
    dst.push(91u8);
    let ghost start = dst@;
    let ghost hv = hs.deep_view();
    let mut i: usize = 0;
    while i < hs.len()
        invariant
            i <= hs@.len(),
            hv == hs.deep_view(),
            hv.len() == hs@.len(),
            dst@ == start + debug_hash_items(hv.subrange(0, i as int)),
            start == old(dst)@ + seq![91u8],
        decreases hs@.len() - i,
    {
        if i > 0 {
            dst.push(44u8);
            dst.push(32u8);
        }
        let h: Hash = hs[i];
        push_debug_bytes(dst, &h);
        proof {
            assert(hv[i as int] == h@);
            let s = hv.subrange(0, i + 1);
            assert(s.drop_last() == hv.subrange(0, i as int));
            assert(s.last() == h@);
            if i == 0 {
                assert(s.len() == 1);
                assert(s[0] == h@);
            }
        }
        i = i + 1;
    }
    dst.push(93u8);
    proof {
        assert(hv.subrange(0, hv.len() as int) == hv);
    }
}

/// Appends `{:?}` of a transaction kind to `dst`.
pub fn push_debug_kind(dst: &mut Vec<u8>, k: &TxKind)
    ensures
        final(dst)@ == old(dst)@ + debug_kind(*k),
{
    match k {
        TxKind::Normal => {
            push_bytes(dst, &[78u8, 111, 114, 109, 97, 108]);
        },
        TxKind::Lock => {
            push_bytes(dst, &[76u8, 111, 99, 107]);
        },
        TxKind::Commit { receipt_hash } => {
            push_bytes(dst, &[67u8, 111, 109, 109, 105, 116, 32, 123, 32, 114, 101, 99, 101, 105, 112, 116, 95,
                104, 97, 115, 104, 58, 32]);
            push_debug_bytes(dst, receipt_hash);
            push_bytes(dst, &[32u8, 125]);
        },
        TxKind::Refund { receipt_hash } => {
            push_bytes(dst, &[82u8, 101, 102, 117, 110, 100, 32, 123, 32, 114, 101, 99, 101, 105, 112, 116, 95,
                104, 97, 115, 104, 58, 32]);
            push_debug_bytes(dst, receipt_hash);
            push_bytes(dst, &[32u8, 125]);
        },
    }
}

impl Transaction {
    /// The bytes hashed by `compute_hash`.
    pub fn preimage(&self) -> (p: Vec<u8>)
        ensures
            p@ == tx_preimage(self@),
    {
        let mut p: Vec<u8> = Vec::new();
        push_str_bytes(&mut p, self.sender.as_str());
        p.push(124u8);
        push_str_bytes(&mut p, self.receiver.as_str());
        p.push(124u8);
        push_decimal(&mut p, self.amount);
        p.push(124u8);
        push_decimal(&mut p, self.fee);
        p.push(124u8);
        push_decimal(&mut p, self.nonce);
        p.push(124u8);
        push_decimal(&mut p, self.timestamp);
        p.push(124u8);
        push_debug_hash_list(&mut p, &self.parents);
        p.push(124u8);
        push_debug_kind(&mut p, &self.kind);
        proof {
            assert(p@ =~= tx_preimage(self@));
        }
        p
    }

    /// Canonical SHA-512/256 hash of the transaction content.
    pub fn compute_hash(&self) -> (h: Hash)
        ensures
            h@ == tx_digest(self@),
    {
        let p = self.preimage();
        sha512_256(p.as_slice())
    }
    /// A transaction of the given kind, stamped with the current clock and hashed.
    pub fn new_with_kind(
        sender: String,
        receiver: String,
        amount: u64,
        nonce: u64,
        fee: u64,
        parents: Vec<Hash>,
        kind: TxKind,
    ) -> (tx: Self)
        ensures
            tx@.sender == sender@,
            tx@.receiver == receiver@,
            tx.amount == amount,
            tx.fee == fee,
            tx.nonce == nonce,
            tx@.parents == parents.deep_view(),
            tx.signature is None,
            tx.public_key is None,
            tx.kind == kind,
            tx@.hash == tx_digest(tx@),
    {
        let timestamp = now_unix_secs();
        let mut tx = Transaction {
            sender,
            receiver,
            amount,
            fee,
            nonce,
            timestamp,
            parents,
            signature: None,
            public_key: None,
            hash: [0u8; 32],
            kind,
        };
        tx.hash = tx.compute_hash();
        tx
    }

    /// An ordinary (intra-shard) transaction with the given fee.
    pub fn new_with_fee(
        sender: String,
        receiver: String,
        amount: u64,
        nonce: u64,
        fee: u64,
        parents: Vec<Hash>,
    ) -> (tx: Self)
        ensures
            tx@.sender == sender@,
            tx@.receiver == receiver@,
            tx.amount == amount,
            tx.fee == fee,
            tx.nonce == nonce,
            tx@.parents == parents.deep_view(),
            tx.signature is None,
            tx.public_key is None,
            tx.kind == TxKind::Normal,
            tx@.hash == tx_digest(tx@),
    {
        Self::new_with_kind(sender, receiver, amount, nonce, fee, parents, TxKind::Normal)
    }

    /// An ordinary transaction with the default fee.
    pub fn new_with_nonce(sender: String, receiver: String, amount: u64, nonce: u64, parents: Vec<Hash>) -> (tx: Self)
        ensures
            tx@.sender == sender@,
            tx@.receiver == receiver@,
            tx.amount == amount,
            tx.fee == DEFAULT_TX_FEE_MILLI,
            tx.nonce == nonce,
            tx@.parents == parents.deep_view(),
            tx.signature is None,
            tx.public_key is None,
            tx.kind == TxKind::Normal,
            tx@.hash == tx_digest(tx@),
    {
        Self::new_with_fee(sender, receiver, amount, nonce, DEFAULT_TX_FEE_MILLI, parents)
    }

    /// An ordinary transaction with a random nonce and the default fee.
    pub fn new(sender: String, receiver: String, amount: u64, parents: Vec<Hash>) -> (tx: Self)
        ensures
            tx@.sender == sender@,
            tx@.receiver == receiver@,
            tx.amount == amount,
            tx.fee == DEFAULT_TX_FEE_MILLI,
            tx@.parents == parents.deep_view(),
            tx.signature is None,
            tx.public_key is None,
            tx.kind == TxKind::Normal,
            tx@.hash == tx_digest(tx@),
    {
        let nonce = random_u64();
        Self::new_with_fee(sender, receiver, amount, nonce, DEFAULT_TX_FEE_MILLI, parents)
    }

    /// Signs the transaction's digest and records the signature and public key.
    pub fn sign(&mut self, signing_key: &ed25519_dalek::SigningKey)
        ensures
            final(self)@ == (TxView {
                signature: final(self)@.signature,
                public_key: final(self)@.public_key,
                ..old(self)@
            }),
            sig_valid(final(self)@),
            forall|seed: Seq<u8>| #[trigger] ed25519_seed_key(seed) == *signing_key
                ==> final(self)@.public_key == Some(ed25519_seed_public_key(seed))
                && final(self)@.signature == Some(ed25519_seed_signature(seed, tx_digest(old(self)@))),
    {
        let msg = self.compute_hash();
        let (sig, pk) = ed25519_sign(signing_key, &msg);
        let mut sig_bytes: Vec<u8> = Vec::new();
        push_bytes(&mut sig_bytes, &sig);
        self.signature = Some(sig_bytes);
        self.public_key = Some(pk);
        proof {
            assert(tx_digest(self@) == tx_digest(old(self)@)) by {
                assert(tx_preimage(self@) == tx_preimage(old(self)@));
            }
        }
    }

    /// Checks the Ed25519 signature against a freshly computed digest.
    pub fn verify_signature(&self) -> (ok: bool)
        ensures
            ok == sig_valid(self@),
    {
        match (&self.signature, &self.public_key) {
            (Some(sig_bytes), Some(pub_key)) => {
                if sig_bytes.len() != ED25519_SIGNATURE_LEN {
                    return false;
                }
                let msg = self.compute_hash();
                ed25519_verify(pub_key, &msg, sig_bytes.as_slice())
            },
            _ => false,
        }
    }

    /// The public key the transaction was signed with, if any.
    pub fn public_key_bytes(&self) -> (k: Option<PublicKey>)
        ensures
            k == self.public_key,
    {
        self.public_key
    }

    /// `amount + fee`, saturating.
    pub fn total_cost(&self) -> (c: u64)
        ensures
            c == total_cost_spec(self@),
    {
        self.amount.saturating_add(self.fee)
    }

    /// Verifies many signatures at once. Transactions whose signature fields are
    /// unusable get `false`; the others are handed to the batch verifier in chunks
    /// of `BATCH_CHUNK_SIZE`; a chunk that the batch verifier rejects is checked
    /// signature by signature.
    pub fn verify_batch(txs: &[&Transaction]) -> (results: Vec<bool>)
        ensures
            results@.len() == txs@.len(),
            forall|i: int| 0 <= i < txs@.len() ==> #[trigger] results@[i] == batch_verdict(
                txs@.map_values(|t: &Transaction| t@),
                i,
            ),
    {
        let ghost tv = txs@.map_values(|t: &Transaction| t@);
        let n = txs.len();
        let mut results: Vec<bool> = Vec::new();
        if n == 0 {
            return results;
        }
        let mut messages: Vec<Vec<u8>> = Vec::new();
        let mut signatures: Vec<Vec<u8>> = Vec::new();
        let mut pubkeys: Vec<[u8; 32]> = Vec::new();
        let mut indices: Vec<usize> = Vec::new();
        let mut i: usize = 0;
        while i < n
            invariant
                n == txs@.len(),
                tv == txs@.map_values(|t: &Transaction| t@),
                i <= n,
                results@.len() == i,
                forall|j: int| 0 <= j < i ==> !#[trigger] results@[j],
                indices@.len() == ok_indices(tv.take(i as int)).len(),
                forall|k: int| 0 <= k < indices@.len() ==> #[trigger] indices@[k] as int == ok_indices(tv.take(i as int))[k],
                messages@.len() == indices@.len(),
                signatures@.len() == indices@.len(),
                pubkeys@.len() == indices@.len(),
                forall|k: int| 0 <= k < indices@.len() ==> (#[trigger] indices@[k] as int) < i,
                forall|k: int| 0 <= k < indices@.len() ==> #[trigger] messages@[k]@ == tx_digest(tv[indices@[k] as int]),
                forall|k: int| 0 <= k < indices@.len() ==> #[trigger] signatures@[k]@ == tv[indices@[k] as int].signature->0,
                forall|k: int| 0 <= k < indices@.len() ==> #[trigger] pubkeys@[k]@ == tv[indices@[k] as int].public_key->0,
                forall|k: int| 0 <= k < indices@.len() ==> (#[trigger] signatures@[k])@.len() == 64,
                forall|k: int| 0 <= k < indices@.len() ==> ed25519_key_decodes((#[trigger] pubkeys@[k])@),
            decreases n - i,
        {
            results.push(false);
            let tx: &Transaction = txs[i];
            proof {
                assert(tv[i as int] == tx@);
                assert(tv.take(i + 1).drop_last() == tv.take(i as int));
                assert(tv.take(i + 1).last() == tx@);
            }
            match (&tx.signature, &tx.public_key) {
                (Some(sig_bytes), Some(pk)) => {
                    if sig_bytes.len() == ED25519_SIGNATURE_LEN && ed25519_public_key_is_valid(pk) {
                        let h = tx.compute_hash();
                        let mut m: Vec<u8> = Vec::new();
                        push_bytes(&mut m, h.as_slice());
                        assert(m@ == tx_digest(tv[i as int]));
                        messages.push(m);
                        signatures.push(copy_bytes(sig_bytes));
                        pubkeys.push(*pk);
                        indices.push(i);
                    }
                },
                _ => {},
            }
            i = i + 1;
        }
        proof {
            assert(tv.take(n as int) == tv);
            lemma_ok_indices_prefix(tv, n as int);
        }
        let total = indices.len();
        let mut start: usize = 0;
        let ghost oi = ok_indices(tv);
        while start < total
            invariant
                n == txs@.len(),
                n == tv.len(),
                tv == txs@.map_values(|t: &Transaction| t@),
                oi == ok_indices(tv),
                total == indices@.len(),
                total == oi.len(),
                start <= total,
                start % BATCH_CHUNK_SIZE == 0 || start == total,
                results@.len() == n,
                forall|k: int| 0 <= k < total ==> #[trigger] indices@[k] as int == oi[k],
                messages@.len() == total,
                signatures@.len() == total,
                pubkeys@.len() == total,
                forall|k: int| 0 <= k < total ==> 0 <= (#[trigger] indices@[k] as int) < n,
                forall|k: int| 0 <= k < total ==> #[trigger] messages@[k]@ == tx_digest(tv[indices@[k] as int]),
                forall|k: int| 0 <= k < total ==> #[trigger] signatures@[k]@ == tv[indices@[k] as int].signature->0,
                forall|k: int| 0 <= k < total ==> #[trigger] pubkeys@[k]@ == tv[indices@[k] as int].public_key->0,
                forall|k: int| 0 <= k < total ==> (#[trigger] signatures@[k])@.len() == 64,
                forall|k: int| 0 <= k < total ==> ed25519_key_decodes((#[trigger] pubkeys@[k])@),
                forall|j: int| 0 <= j < n ==> #[trigger] results@[j] == if sig_fields_ok(tv[j])
                    && ok_indices(tv.take(j)).len() < start {
                    batch_verdict(tv, j)
                } else {
                    false
                },
            decreases total - start,
        {
            let end: usize = if total - start > BATCH_CHUNK_SIZE { start + BATCH_CHUNK_SIZE } else { total };
            let ghost c: int = start as int / BATCH_CHUNK_SIZE as int;
            let ghost ch = chunk_of(oi, c);
            assert(ch == oi.subrange(start as int, end as int));
            let mut cm: Vec<Vec<u8>> = Vec::new();
            let mut cs: Vec<Vec<u8>> = Vec::new();
            let mut ck: Vec<[u8; 32]> = Vec::new();
            let mut j: usize = start;
            while j < end
                invariant
                    start <= j <= end <= total,
                    total == indices@.len(),
                    messages@.len() == total,
                    signatures@.len() == total,
                    pubkeys@.len() == total,
                    cm@.len() == j - start,
                    cs@.len() == j - start,
                    ck@.len() == j - start,
                    forall|k: int| 0 <= k < j - start ==> (#[trigger] cm@[k])@ == messages@[start + k]@,
                    forall|k: int| 0 <= k < j - start ==> (#[trigger] cs@[k])@ == signatures@[start + k]@,
                    forall|k: int| 0 <= k < j - start ==> (#[trigger] ck@[k])@ == pubkeys@[start + k]@,
                decreases end - j,
            {
                cm.push(copy_bytes(&messages[j]));
                cs.push(copy_bytes(&signatures[j]));
                ck.push(pubkeys[j]);
                j = j + 1;
            }
            proof {
                assert forall|k: int| 0 <= k < cm@.len() implies #[trigger] cm.deep_view()[k] == ch.map_values(|i: int| tx_digest(tv[i]))[k] by {
                    assert(ch[k] == oi[start + k]);
                    assert(indices@[start + k] as int == oi[start + k]);
                    assert(cm@[k].deep_view() =~= cm@[k]@);
                }
                assert forall|k: int| 0 <= k < cs@.len() implies #[trigger] cs.deep_view()[k] == ch.map_values(|i: int| tv[i].signature->0)[k] by {
                    assert(ch[k] == oi[start + k]);
                    assert(indices@[start + k] as int == oi[start + k]);
                    assert(cs@[k].deep_view() =~= cs@[k]@);
                }
                assert forall|k: int| 0 <= k < ck@.len() implies #[trigger] ck.deep_view()[k] == ch.map_values(|i: int| tv[i].public_key->0)[k] by {
                    assert(ch[k] == oi[start + k]);
                    assert(indices@[start + k] as int == oi[start + k]);
                    assert(ck@[k].deep_view() =~= ck@[k]@);
                }
                assert(cm.deep_view() =~= ch.map_values(|i: int| tx_digest(tv[i])));
                assert(cs.deep_view() =~= ch.map_values(|i: int| tv[i].signature->0));
                assert(ck.deep_view() =~= ch.map_values(|i: int| tv[i].public_key->0));
            }
            let batch_ok = ed25519_verify_batch(&cm, &cs, &ck);
            assert(batch_ok == chunk_accepts(tv, c));
            let ghost before = results@;
            let mut j: usize = start;
            while j < end
                invariant
                    start <= j <= end <= total,
                    end <= start + BATCH_CHUNK_SIZE,
                    end == total || end == start + BATCH_CHUNK_SIZE,
                    start % BATCH_CHUNK_SIZE == 0,
                    c == start as int / BATCH_CHUNK_SIZE as int,
                    batch_ok == chunk_accepts(tv, c),
                    n == tv.len(),
                    oi == ok_indices(tv),
                    total == oi.len(),
                    total == indices@.len(),
                    results@.len() == n,
                    forall|k: int| 0 <= k < total ==> #[trigger] indices@[k] as int == oi[k],
                    messages@.len() == total,
                    signatures@.len() == total,
                    pubkeys@.len() == total,
                    forall|k: int| 0 <= k < total ==> 0 <= (#[trigger] indices@[k] as int) < n,
                    forall|k: int| 0 <= k < total ==> #[trigger] messages@[k]@ == tx_digest(tv[indices@[k] as int]),
                    forall|k: int| 0 <= k < total ==> #[trigger] signatures@[k]@ == tv[indices@[k] as int].signature->0,
                    forall|k: int| 0 <= k < total ==> #[trigger] pubkeys@[k]@ == tv[indices@[k] as int].public_key->0,
                    forall|k: int| 0 <= k < total ==> (#[trigger] signatures@[k])@.len() == 64,
                    forall|k: int| 0 <= k < total ==> ed25519_key_decodes((#[trigger] pubkeys@[k])@),
                    forall|i: int| 0 <= i < n ==> #[trigger] results@[i] == if sig_fields_ok(tv[i])
                        && ok_indices(tv.take(i)).len() < j {
                        batch_verdict(tv, i)
                    } else {
                        false
                    },
                decreases end - j,
            {
                let orig = indices[j];
                proof {
                    lemma_ok_indices_prefix(tv, tv.len() as int);
                    lemma_rank_of_ok_index(tv, j as int);
                    assert(ok_indices(tv.take(orig as int)).len() == j);
                    assert((j as int) / (BATCH_CHUNK_SIZE as int) == c);
                }
                let v = if batch_ok {
                    true
                } else {
                    ed25519_verify(&pubkeys[j], messages[j].as_slice(), signatures[j].as_slice())
                };
                results.set(orig, v);
                proof {
                    assert forall|i: int| 0 <= i < n implies #[trigger] results@[i] == if sig_fields_ok(tv[i])
                        && ok_indices(tv.take(i)).len() < j + 1 {
                        batch_verdict(tv, i)
                    } else {
                        false
                    } by {
                        if i != orig && sig_fields_ok(tv[i]) && ok_indices(tv.take(i)).len() == j {
                            lemma_ok_indices_prefix(tv, i);
                            assert(oi[j as int] == i);
                        }
                    }
                }
                j = j + 1;
            }
            start = end;
        }
        proof {
            assert forall|i: int| 0 <= i < n implies #[trigger] results@[i] == batch_verdict(tv, i) by {
                if sig_fields_ok(tv[i]) {
                    lemma_ok_indices_prefix(tv, i);
                    lemma_ok_indices_prefix(tv, n as int);
                }
            }
        }
        results
    }

    /// One line describing the transfer: parties, amount, fee, nonce and the
    /// first four bytes of the hash.
    pub fn to_display_string(&self) -> (s: String)
        ensures
            s@ == display_spec(self@),
    {
        let mut s = String::from_str("Tx(");
        s.append(self.sender.as_str());
        s.append(" -> ");
        s.append(self.receiver.as_str());
        s.append(": ");
        append_decimal(&mut s, self.amount);
        s.append(" milliANGP (fee=");
        append_decimal(&mut s, self.fee);
        s.append("), nonce=");
        append_decimal(&mut s, self.nonce);
        s.append(", hash=[");
        append_decimal(&mut s, self.hash[0] as u64);
        s.append(", ");
        append_decimal(&mut s, self.hash[1] as u64);
        s.append(", ");
        append_decimal(&mut s, self.hash[2] as u64);
        s.append(", ");
        append_decimal(&mut s, self.hash[3] as u64);
        s.append("])");
        s
    }

    /// A deep copy of the transaction.
    pub fn duplicate(&self) -> (r: Self)
        ensures
            r@ == self@,
    {
        let signature = match &self.signature {
            Some(s) => Some(copy_bytes(s)),
            None => None,
        };
        Transaction {
            sender: self.sender.clone(),
            receiver: self.receiver.clone(),
            amount: self.amount,
            fee: self.fee,
            nonce: self.nonce,
            timestamp: self.timestamp,
            parents: copy_hashes(&self.parents),
            signature,
            public_key: self.public_key,
            hash: self.hash,
            kind: self.kind,
        }
    }
}

/// The one-line description of a transaction: `Tx(sender -> receiver: amount
/// milliANGP (fee=fee), nonce=nonce, hash=[b0, b1, b2, b3])`.
pub open spec fn display_spec(t: TxView) -> Seq<char> {
    "Tx("@ + t.sender + " -> "@ + t.receiver + ": "@ + dec_chars(t.amount as nat) + " milliANGP (fee="@
        + dec_chars(t.fee as nat) + "), nonce="@ + dec_chars(t.nonce as nat) + ", hash=["@
        + dec_chars(t.hash[0] as nat) + ", "@ + dec_chars(t.hash[1] as nat) + ", "@
        + dec_chars(t.hash[2] as nat) + ", "@ + dec_chars(t.hash[3] as nat) + "])"@
}

/// Lower-case hex rendering of bytes.
pub fn hex_encode(bytes: &[u8]) -> (s: String)
    ensures
        s@ == crate::hex::hex_of(bytes@),
{
    crate::hex::encode(bytes)
}

} // verus!
