//! Cross-shard transfers: a lock in the sender's shard produces a receipt that
//! a commit in the receiver's shard consumes, or that expires and is refunded.
use vstd::prelude::*;
use crate::config::{CROSS_SHARD_RECEIPT_EXPIRY, N_SHARDS};
use crate::crypto::{sha512_256, sha512_256_digest};
use crate::encoding::{dec, push_decimal, push_str_bytes};
use crate::hex::{hex_ascii, push_hex_ascii};
use crate::keyed::{hash_eq, hentries, hfind, hset, lemma_hentry};
use crate::maps::{has_key, keys_unique, lemma_map_sum, lemma_seq_sum_prefix, map_sum, seq_sum, to_map};
use crate::sharding::{shard_of, shard_of_address};
use crate::transaction::{bar, encode_utf8_chars, Transaction};

verus! {

/// The role a transaction plays in a (possibly cross-shard) transfer.
#[derive(Clone, Copy, Debug)]
pub enum TxKind {
    /// An ordinary transfer inside one shard.
    Normal,
    /// Phase one of a cross-shard transfer, in the sender's shard.
    Lock,
    /// Phase two, in the receiver's shard: consumes the receipt.
    Commit { receipt_hash: [u8; 32] },
    /// Returns the funds of a receipt that expired unconsumed.
    Refund { receipt_hash: [u8; 32] },
}

impl Default for TxKind {
    fn default() -> (k: Self)
        ensures
            k == TxKind::Normal,
    {
        TxKind::Normal
    }
}

/// Proof that a sender was debited in its shard; the receiver's shard consumes
/// it to credit the receiver.
#[derive(Clone, Debug)]
pub struct CrossShardReceipt {
    /// Hash of the lock transaction that produced the receipt.
    pub source_tx_hash: [u8; 32],
    pub sender: String,
    pub receiver: String,
    /// Amount to credit (without the fee).
    pub amount: u64,
    pub from_shard: u32,
    pub to_shard: u32,
    /// Step at which the receipt was produced (for expiry).
    pub created_at_step: u64,
    /// Unique per receipt (against replay).
    pub receipt_nonce: u64,
}

/// The mathematical content of a receipt.
pub struct ReceiptView {
    pub source_tx_hash: Seq<u8>,
    pub sender: Seq<char>,
    pub receiver: Seq<char>,
    pub amount: u64,
    pub from_shard: u32,
    pub to_shard: u32,
    pub created_at_step: u64,
    pub receipt_nonce: u64,
}

impl View for CrossShardReceipt {
    type V = ReceiptView;

    open spec fn view(&self) -> ReceiptView {
        ReceiptView {
            source_tx_hash: self.source_tx_hash@,
            sender: self.sender@,
            receiver: self.receiver@,
            amount: self.amount,
            from_shard: self.from_shard,
            to_shard: self.to_shard,
            created_at_step: self.created_at_step,
            receipt_nonce: self.receipt_nonce,
        }
    }
}

/// The bytes hashed to identify a receipt: the hex of the source hash, then
/// sender, receiver, amount, shards, step and nonce, separated by `|`.
pub open spec fn receipt_preimage(r: ReceiptView) -> Seq<u8> {
    hex_ascii(r.source_tx_hash) + bar() + encode_utf8_chars(r.sender) + bar() + encode_utf8_chars(r.receiver) + bar()
        + dec(r.amount as nat) + bar() + dec(r.from_shard as nat) + bar() + dec(r.to_shard as nat) + bar()
        + dec(r.created_at_step as nat) + bar() + dec(r.receipt_nonce as nat)
}

/// The canonical hash of a receipt.
pub open spec fn receipt_digest(r: ReceiptView) -> Seq<u8> {
    sha512_256_digest(receipt_preimage(r))
}

/// Whether a receipt made at step `created` has expired at step `now`.
pub open spec fn expired_at(created: u64, now: u64) -> bool {
    now > created + CROSS_SHARD_RECEIPT_EXPIRY
}

impl CrossShardReceipt {
    /// The receipt of a lock transaction finalized at `step`.
    pub fn from_tx(tx: &Transaction, step: u64) -> (r: Self)
        ensures
            r.source_tx_hash == tx.hash,
            r.sender@ == tx.sender@,
            r.receiver@ == tx.receiver@,
            r.amount == tx.amount,
            r.from_shard == shard_of(tx.sender@),
            r.to_shard == shard_of(tx.receiver@),
            r.created_at_step == step,
            r.receipt_nonce == tx.nonce,
    {
        CrossShardReceipt {
            source_tx_hash: tx.hash,
            sender: tx.sender.clone(),
            receiver: tx.receiver.clone(),
            amount: tx.amount,
            from_shard: shard_of_address(tx.sender.as_str()),
            to_shard: shard_of_address(tx.receiver.as_str()),
            created_at_step: step,
            receipt_nonce: tx.nonce,
        }
    }

    /// A copy of the receipt.
    pub fn duplicate(&self) -> (r: Self)
        ensures
            r@ == self@,
    {
        CrossShardReceipt {
            source_tx_hash: self.source_tx_hash,
            sender: self.sender.clone(),
            receiver: self.receiver.clone(),
            amount: self.amount,
            from_shard: self.from_shard,
            to_shard: self.to_shard,
            created_at_step: self.created_at_step,
            receipt_nonce: self.receipt_nonce,
        }
    }

    /// The bytes `receipt_hash` digests.
    pub fn preimage(&self) -> (p: Vec<u8>)
        ensures
            p@ == receipt_preimage(self@),
    {
        let mut p: Vec<u8> = Vec::new();
        push_hex_ascii(&mut p, &self.source_tx_hash);
        p.push(124u8);
        push_str_bytes(&mut p, self.sender.as_str());
        p.push(124u8);
        push_str_bytes(&mut p, self.receiver.as_str());
        p.push(124u8);
        push_decimal(&mut p, self.amount);
        p.push(124u8);
        push_decimal(&mut p, self.from_shard as u64);
        p.push(124u8);
        push_decimal(&mut p, self.to_shard as u64);
        p.push(124u8);
        push_decimal(&mut p, self.created_at_step);
        p.push(124u8);
        push_decimal(&mut p, self.receipt_nonce);
        proof {
            assert(p@ =~= receipt_preimage(self@));
        }
        p
    }

    /// The canonical SHA-512/256 hash of the receipt (for dedup and lookup).
    pub fn receipt_hash(&self) -> (h: [u8; 32])
        ensures
            h@ == receipt_digest(self@),
    {
        let p = self.preimage();
        sha512_256(p.as_slice())
    }

    /// Whether the receipt has expired at `current_step`: more than
    /// `CROSS_SHARD_RECEIPT_EXPIRY` steps after it was made.
    pub fn is_expired(&self, current_step: u64) -> (b: bool)
        ensures
            b == expired_at(self.created_at_step, current_step),
    {
        current_step > self.created_at_step && current_step - self.created_at_step > CROSS_SHARD_RECEIPT_EXPIRY
    }

    /// Whether the receipt is consistent: its shards are those of its addresses,
    /// they differ, and both are valid shard ids.
    pub fn is_valid(&self) -> (b: bool)
        ensures
            b == (self.from_shard == shard_of(self.sender@) && self.to_shard == shard_of(self.receiver@)
                && self.from_shard != self.to_shard && self.from_shard < N_SHARDS && self.to_shard < N_SHARDS),
    {
        let expected_from = shard_of_address(self.sender.as_str());
        let expected_to = shard_of_address(self.receiver.as_str());
        self.from_shard == expected_from && self.to_shard == expected_to && self.from_shard != self.to_shard
            && self.from_shard < N_SHARDS && self.to_shard < N_SHARDS
    }
}

/// Where a receipt stands.
#[derive(Clone, Copy, Debug, PartialEq, Eq, Structural)]
pub enum ReceiptStatus {
    /// Waiting to be consumed.
    Pending,
    /// Consumed by a commit.
    Consumed,
    /// Expired; a refund was issued.
    Expired,
}

impl View for ReceiptStatus {
    type V = ReceiptStatus;

    open spec fn view(&self) -> ReceiptStatus {
        *self
    }
}

/// A receipt table: receipts with their status, by receipt hash.
pub type ReceiptTable = Map<Seq<u8>, (ReceiptView, ReceiptStatus)>;

/// Whether the table holds a pending receipt under `h`.
pub open spec fn pending_at(m: ReceiptTable, h: Seq<u8>) -> bool {
    m.contains_key(h) && m[h].1 == ReceiptStatus::Pending
}

/// Whether the table holds a consumed receipt under `h`.
pub open spec fn consumed_at(m: ReceiptTable, h: Seq<u8>) -> bool {
    m.contains_key(h) && m[h].1 == ReceiptStatus::Consumed
}

/// What `consume(h)` returns and leaves behind, for incoming and outgoing
/// tables `inc` and `out`: a pending incoming receipt is consumed first, else a
/// pending outgoing one; otherwise nothing changes.
pub open spec fn consume_spec(inc: ReceiptTable, out: ReceiptTable, h: Seq<u8>) -> (Option<ReceiptView>, ReceiptTable, ReceiptTable) {
    if pending_at(inc, h) {
        (Some(inc[h].0), inc.insert(h, (inc[h].0, ReceiptStatus::Consumed)), out)
    } else if pending_at(out, h) {
        (Some(out[h].0), inc, out.insert(h, (out[h].0, ReceiptStatus::Consumed)))
    } else {
        (None, inc, out)
    }
}

/// The incoming table after registering `r`, which is kept only when its hash is new.
pub open spec fn register_incoming_spec(inc: ReceiptTable, r: ReceiptView) -> ReceiptTable {
    if inc.contains_key(receipt_digest(r)) {
        inc
    } else {
        inc.insert(receipt_digest(r), (r, ReceiptStatus::Pending))
    }
}

/// An entry after the expiry sweep at step `now`.
pub open spec fn expire_entry(e: (ReceiptView, ReceiptStatus), now: u64) -> (ReceiptView, ReceiptStatus) {
    if e.1 == ReceiptStatus::Pending && expired_at(e.0.created_at_step, now) {
        (e.0, ReceiptStatus::Expired)
    } else {
        e
    }
}

/// 1 for a pending entry, 0 otherwise.
pub open spec fn pending_one() -> spec_fn((ReceiptView, ReceiptStatus)) -> int {
    |e: (ReceiptView, ReceiptStatus)| if e.1 == ReceiptStatus::Pending { 1int } else { 0int }
}

/// Receipts this node produced (waiting for the destination shard) and
/// receipts it received (waiting for a commit here).
pub struct CrossShardManager {
    outgoing: Vec<([u8; 32], (CrossShardReceipt, ReceiptStatus))>,
    incoming: Vec<([u8; 32], (CrossShardReceipt, ReceiptStatus))>,
}

impl CrossShardManager {
    /// The outgoing receipts.
    pub closed spec fn out(&self) -> ReceiptTable {
        to_map(hentries(self.outgoing@))
    }

    /// The incoming receipts.
    pub closed spec fn inc(&self) -> ReceiptTable {
        to_map(hentries(self.incoming@))
    }

    /// Keys are unique and every receipt is stored under its own hash.
    pub closed spec fn wf(&self) -> bool {
        &&& keys_unique(hentries(self.outgoing@))
        &&& keys_unique(hentries(self.incoming@))
        &&& forall|h: Seq<u8>| #[trigger] self.out().contains_key(h) ==> h == receipt_digest(self.out()[h].0)
        &&& forall|h: Seq<u8>| #[trigger] self.inc().contains_key(h) ==> h == receipt_digest(self.inc()[h].0)
    }

    /// No receipts.
    pub fn new() -> (m: Self)
        ensures
            m.wf(),
            m.out() == ReceiptTable::empty(),
            m.inc() == ReceiptTable::empty(),
    {
        let m = CrossShardManager { outgoing: Vec::new(), incoming: Vec::new() };
        proof {
            assert(m.out() =~= ReceiptTable::empty());
            assert(m.inc() =~= ReceiptTable::empty());
        }
        m
    }

    /// Records a receipt produced here (after its lock was finalized), as pending.
    pub fn register_outgoing(&mut self, receipt: CrossShardReceipt)
        requires
            old(self).wf(),
        ensures
            final(self).wf(),
            final(self).out() == old(self).out().insert(receipt_digest(receipt@), (receipt@, ReceiptStatus::Pending)),
            final(self).inc() == old(self).inc(),
    {
        let h = receipt.receipt_hash();
        hset(&mut self.outgoing, &h, (receipt, ReceiptStatus::Pending));
        proof {
            assert(self.inc() == old(self).inc());
            assert forall|k: Seq<u8>| #[trigger] self.inc().contains_key(k) implies k == receipt_digest(self.inc()[k].0) by {
                assert(old(self).inc().contains_key(k));
            }
            assert forall|k: Seq<u8>| #[trigger] self.out().contains_key(k) implies k == receipt_digest(self.out()[k].0) by {
                if k != h@ {
                    assert(old(self).out().contains_key(k));
                }
            }
        }
    }

    /// Records a receipt received from another shard, as pending; a receipt
    /// already known is left as it is.
    pub fn register_incoming(&mut self, receipt: CrossShardReceipt)
        requires
            old(self).wf(),
        ensures
            final(self).wf(),
            final(self).inc() == register_incoming_spec(old(self).inc(), receipt@),
            final(self).out() == old(self).out(),
            forall|k: Seq<u8>| #[trigger] old(self).inc().contains_key(k)
                ==> final(self).inc().contains_key(k) && final(self).inc()[k] == old(self).inc()[k],
            final(self).inc().contains_key(receipt_digest(receipt@)),
    {
        let h = receipt.receipt_hash();
        match hfind(&self.incoming, &h) {
            Some(i) => {
                proof {
                    lemma_hentry(self.incoming@, i as int);
                }
            },
            None => {
                hset(&mut self.incoming, &h, (receipt, ReceiptStatus::Pending));
                proof {
                    assert forall|k: Seq<u8>| #[trigger] self.out().contains_key(k) implies k == receipt_digest(self.out()[k].0) by {
                        assert(old(self).out().contains_key(k));
                    }
                    assert forall|k: Seq<u8>| #[trigger] self.inc().contains_key(k) implies k == receipt_digest(self.inc()[k].0) by {
                        if k != h@ {
                            assert(old(self).inc().contains_key(k));
                        }
                    }
                }
            },
        }
    }

    /// Consumes the pending receipt with this hash (incoming first, then
    /// outgoing), returning it; `None` when there is none.
    pub fn consume(&mut self, receipt_hash: &[u8; 32]) -> (r: Option<CrossShardReceipt>)
        requires
            old(self).wf(),
        ensures
            final(self).wf(),
            (match r {
                Some(x) => Some(x@),
                None => None,
            }, final(self).inc(), final(self).out()) == consume_spec(old(self).inc(), old(self).out(), receipt_hash@),
            r is Some ==> (old(self).inc().contains_key(receipt_hash@) && old(self).inc()[receipt_hash@].1 == ReceiptStatus::Pending)
                || (old(self).out().contains_key(receipt_hash@) && old(self).out()[receipt_hash@].1 == ReceiptStatus::Pending),
            final(self).inc().dom() == old(self).inc().dom(),
            final(self).out().dom() == old(self).out().dom(),
            forall|k: Seq<u8>| #[trigger] old(self).inc().contains_key(k) && old(self).inc()[k].1 != ReceiptStatus::Pending
                ==> final(self).inc()[k] == old(self).inc()[k],
            forall|k: Seq<u8>| #[trigger] old(self).out().contains_key(k) && old(self).out()[k].1 != ReceiptStatus::Pending
                ==> final(self).out()[k] == old(self).out()[k],
    {
        match hfind(&self.incoming, receipt_hash) {
            Some(i) => {
                proof {
                    lemma_hentry(self.incoming@, i as int);
                }
                if self.incoming[i].1.1 == ReceiptStatus::Pending {
                    let rec = self.incoming[i].1.0.duplicate();
                    let kept = self.incoming[i].1.0.duplicate();
                    hset(&mut self.incoming, receipt_hash, (kept, ReceiptStatus::Consumed));
                    proof {
                        assert forall|k: Seq<u8>| #[trigger] self.out().contains_key(k) implies k == receipt_digest(self.out()[k].0) by {
                            assert(old(self).out().contains_key(k));
                        }
                        assert forall|k: Seq<u8>| #[trigger] self.inc().contains_key(k) implies k == receipt_digest(self.inc()[k].0) by {
                            assert(old(self).inc().contains_key(k));
                        }
                    }
                    return Some(rec);
                }
            },
            None => {},
        }
        match hfind(&self.outgoing, receipt_hash) {
            Some(i) => {
                proof {
                    lemma_hentry(self.outgoing@, i as int);
                }
                if self.outgoing[i].1.1 == ReceiptStatus::Pending {
                    let rec = self.outgoing[i].1.0.duplicate();
                    let kept = self.outgoing[i].1.0.duplicate();
                    hset(&mut self.outgoing, receipt_hash, (kept, ReceiptStatus::Consumed));
                    proof {
                        assert forall|k: Seq<u8>| #[trigger] self.inc().contains_key(k) implies k == receipt_digest(self.inc()[k].0) by {
                            assert(old(self).inc().contains_key(k));
                        }
                        assert forall|k: Seq<u8>| #[trigger] self.out().contains_key(k) implies k == receipt_digest(self.out()[k].0) by {
                            assert(old(self).out().contains_key(k));
                        }
                    }
                    return Some(rec);
                }
            },
            None => {},
        }
        None
    }

    /// Marks every pending outgoing receipt that has expired at `current_step`
    /// as expired and returns those receipts (each once, in unspecified order).
    pub fn expired_receipts(&mut self, current_step: u64) -> (r: Vec<CrossShardReceipt>)
        requires
            old(self).wf(),
        ensures
            final(self).wf(),
            final(self).out() == old(self).out().map_values(|e: (ReceiptView, ReceiptStatus)| expire_entry(e, current_step)),
            final(self).inc() == old(self).inc(),
            forall|i: int| 0 <= i < r@.len() ==> pending_at(old(self).out(), receipt_digest(#[trigger] r@[i]@))
                && old(self).out()[receipt_digest(r@[i]@)].0 == r@[i]@
                && expired_at(r@[i]@.created_at_step, current_step),
            forall|h: Seq<u8>| #[trigger] pending_at(old(self).out(), h) && expired_at(old(self).out()[h].0.created_at_step, current_step)
                ==> exists|i: int| 0 <= i < r@.len() && r@[i]@ == old(self).out()[h].0,
            forall|i: int, j: int| 0 <= i < j < r@.len() ==> (#[trigger] r@[i])@ != (#[trigger] r@[j])@,
    {
        let ghost o = self.outgoing@;
        let ghost om = self.out();
        let mut r: Vec<CrossShardReceipt> = Vec::new();
        let ghost mut idx: Seq<int> = Seq::empty();
        let mut k: usize = 0;
        while k < self.outgoing.len()
            invariant
                keys_unique(hentries(o)),
                om == to_map(hentries(o)),
                forall|h: Seq<u8>| #[trigger] om.contains_key(h) ==> h == receipt_digest(om[h].0),
                self.outgoing@.len() == o.len(),
                k <= o.len(),
                forall|q: int| 0 <= q < o.len() ==> (#[trigger] self.outgoing@[q]).0 == o[q].0,
                forall|q: int| 0 <= q < k ==> (#[trigger] self.outgoing@[q]).1@ == expire_entry(o[q].1@, current_step),
                forall|q: int| k <= q < o.len() ==> (#[trigger] self.outgoing@[q]).1@ == o[q].1@,
                self.incoming == old(self).incoming,
                idx.len() == r@.len(),
                forall|i: int| 0 <= i < idx.len() ==> 0 <= #[trigger] idx[i] < k && r@[i]@ == o[idx[i]].1.0@
                    && o[idx[i]].1.1 == ReceiptStatus::Pending && expired_at(o[idx[i]].1.0.created_at_step, current_step),
                forall|i: int, j: int| 0 <= i < j < idx.len() ==> #[trigger] idx[i] < #[trigger] idx[j],
                forall|q: int| 0 <= q < k && #[trigger] o[q].1.1 == ReceiptStatus::Pending && expired_at(o[q].1.0.created_at_step, current_step)
                    ==> exists|i: int| 0 <= i < idx.len() && idx[i] == q,
            decreases o.len() - k,
        {
            let ghost idx0 = idx;
            proof {
                assert(self.outgoing@[k as int].1@ == o[k as int].1@);
            }
            if self.outgoing[k].1.1 == ReceiptStatus::Pending && self.outgoing[k].1.0.is_expired(current_step) {
                let key: [u8; 32] = self.outgoing[k].0;
                let rec = self.outgoing[k].1.0.duplicate();
                let kept = self.outgoing[k].1.0.duplicate();
                self.outgoing.set(k, (key, (kept, ReceiptStatus::Expired)));
                r.push(rec);
                proof {
                    idx = idx.push(k as int);
                    assert(idx[idx.len() - 1] == k);
                }
            }
            proof {
                assert forall|q: int| 0 <= q < k + 1 && #[trigger] o[q].1.1 == ReceiptStatus::Pending
                    && expired_at(o[q].1.0.created_at_step, current_step) implies exists|i: int| 0 <= i < idx.len() && idx[i] == q by {
                    if q < k {
                        let i = choose|i: int| 0 <= i < idx0.len() && idx0[i] == q;
                        assert(idx[i] == q);
                    } else {
                        assert(idx[idx.len() - 1] == k);
                    }
                }
            }
            k = k + 1;
        }
        proof {
            let he = hentries(self.outgoing@);
            assert forall|a: int, b: int| 0 <= a < b < he.len() implies (#[trigger] he[a]).0 != (#[trigger] he[b]).0 by {
                assert(hentries(o)[a].0 != hentries(o)[b].0);
            }
            assert forall|h: Seq<u8>| #[trigger] self.out().contains_key(h) <==> om.contains_key(h) by {
                if self.out().contains_key(h) {
                    let q = choose|q: int| 0 <= q < he.len() && (#[trigger] he[q]).0 == h;
                    assert(hentries(o)[q].0 == h);
                }
                if om.contains_key(h) {
                    let q = choose|q: int| 0 <= q < hentries(o).len() && (#[trigger] hentries(o)[q]).0 == h;
                    assert(he[q].0 == h);
                }
            }
            assert forall|h: Seq<u8>| #[trigger] self.out().contains_key(h) implies self.out()[h] == expire_entry(om[h], current_step) by {
                let q = choose|q: int| 0 <= q < he.len() && (#[trigger] he[q]).0 == h;
                lemma_hentry(self.outgoing@, q);
                lemma_hentry(o, q);
            }
            assert(self.out() =~= om.map_values(|e: (ReceiptView, ReceiptStatus)| expire_entry(e, current_step)));
            assert forall|i: int| 0 <= i < r@.len() implies pending_at(om, receipt_digest(#[trigger] r@[i]@))
                && om[receipt_digest(r@[i]@)].0 == r@[i]@ && expired_at(r@[i]@.created_at_step, current_step) by {
                lemma_hentry(o, idx[i]);
            }
            assert forall|h: Seq<u8>| #[trigger] pending_at(om, h) && expired_at(om[h].0.created_at_step, current_step)
                implies exists|i: int| 0 <= i < r@.len() && r@[i]@ == om[h].0 by {
                let q = choose|q: int| 0 <= q < hentries(o).len() && (#[trigger] hentries(o)[q]).0 == h;
                lemma_hentry(o, q);
                let i = choose|i: int| 0 <= i < idx.len() && idx[i] == q;
                assert(r@[i]@ == om[h].0);
            }
            assert forall|i: int, j: int| 0 <= i < j < r@.len() implies (#[trigger] r@[i])@ != (#[trigger] r@[j])@ by {
                lemma_hentry(o, idx[i]);
                lemma_hentry(o, idx[j]);
                assert(hentries(o)[idx[i]].0 != hentries(o)[idx[j]].0);
            }
            assert forall|k: Seq<u8>| #[trigger] self.inc().contains_key(k) implies k == receipt_digest(self.inc()[k].0) by {
                assert(old(self).inc().contains_key(k));
            }
            assert forall|k: Seq<u8>| #[trigger] self.out().contains_key(k) implies k == receipt_digest(self.out()[k].0) by {
                assert(om.contains_key(k));
            }
        }
        r
    }

    /// Whether the receipt with this hash was consumed (incoming or outgoing).
    pub fn is_consumed(&self, receipt_hash: &[u8; 32]) -> (b: bool)
        requires
            self.wf(),
        ensures
            b == (consumed_at(self.inc(), receipt_hash@) || consumed_at(self.out(), receipt_hash@)),
    {
        let in_consumed = match hfind(&self.incoming, receipt_hash) {
            Some(i) => {
                proof {
                    lemma_hentry(self.incoming@, i as int);
                }
                self.incoming[i].1.1 == ReceiptStatus::Consumed
            },
            None => false,
        };
        let out_consumed = match hfind(&self.outgoing, receipt_hash) {
            Some(i) => {
                proof {
                    lemma_hentry(self.outgoing@, i as int);
                }
                self.outgoing[i].1.1 == ReceiptStatus::Consumed
            },
            None => false,
        };
        in_consumed || out_consumed
    }

    /// Whether an incoming receipt with this hash is pending (so a commit may use it).
    pub fn is_pending_incoming(&self, receipt_hash: &[u8; 32]) -> (b: bool)
        requires
            self.wf(),
        ensures
            b == pending_at(self.inc(), receipt_hash@),
    {
        match hfind(&self.incoming, receipt_hash) {
            Some(i) => {
                proof {
                    lemma_hentry(self.incoming@, i as int);
                }
                self.incoming[i].1.1 == ReceiptStatus::Pending
            },
            None => false,
        }
    }

    /// `(pending outgoing, pending incoming)` receipt counts.
    pub fn pending_count(&self) -> (r: (usize, usize))
        requires
            self.wf(),
        ensures
            r.0 == map_sum(self.out(), pending_one()),
            r.1 == map_sum(self.inc(), pending_one()),
    {
        (count_pending(&self.outgoing), count_pending(&self.incoming))
    }
}

impl Default for CrossShardManager {
    fn default() -> (m: Self)
        ensures
            m.wf(),
            m.out() == ReceiptTable::empty(),
            m.inc() == ReceiptTable::empty(),
    {
        Self::new()
    }
}

/// Number of pending entries of a receipt table.
fn count_pending(v: &Vec<([u8; 32], (CrossShardReceipt, ReceiptStatus))>) -> (n: usize)
    requires
        keys_unique(hentries(v@)),
    ensures
        n == map_sum(to_map(hentries(v@)), pending_one()),
{
    let ghost he = hentries(v@);
    let mut n: usize = 0;
    let mut k: usize = 0;
    while k < v.len()
        invariant
            he == hentries(v@),
            k <= v@.len(),
            n == seq_sum(he.take(k as int), pending_one()),
            n <= k,
        decreases v@.len() - k,
    {
        proof {
            assert(he.take(k + 1).drop_last() =~= he.take(k as int));
            assert(he.take(k + 1).last() == he[k as int]);
        }
        if v[k].1.1 == ReceiptStatus::Pending {
            n = n + 1;
        }
        k = k + 1;
    }
    proof {
        assert(he.take(v@.len() as int) =~= he);
        lemma_map_sum(he, pending_one());
    }
    n
}

/// A consumed receipt cannot be consumed again: once `consume(h)` returned a
/// receipt, a second `consume(h)` returns nothing, provided the receipt was not
/// pending in both tables at once.
pub proof fn law_consume_once(inc: ReceiptTable, out: ReceiptTable, h: Seq<u8>)
    requires
        consume_spec(inc, out, h).0 is Some,
        !(pending_at(inc, h) && pending_at(out, h)),
    ensures
        consume_spec(consume_spec(inc, out, h).1, consume_spec(inc, out, h).2, h).0 is None,
{
}

/// Registering the same incoming receipt twice is the same as registering it once.
pub proof fn law_register_incoming_idempotent(inc: ReceiptTable, r: ReceiptView)
    ensures
        register_incoming_spec(register_incoming_spec(inc, r), r) == register_incoming_spec(inc, r),
{
}

/// Only a pending receipt is ever consumed: when `consume(h)` returns a
/// receipt, a receipt under `h` was pending in the incoming or the outgoing
/// table, and it is that receipt; no receipt leaves or enters either table; and
/// every receipt that was consumed or expired (refunded) before keeps its
/// status, so an expired receipt can never also be committed.
pub proof fn law_consume_takes_only_pending(inc: ReceiptTable, out: ReceiptTable, h: Seq<u8>)
    ensures
        consume_spec(inc, out, h).0 matches Some(x) ==> (inc.contains_key(h) && inc[h].1 == ReceiptStatus::Pending && x == inc[h].0)
            || (out.contains_key(h) && out[h].1 == ReceiptStatus::Pending && x == out[h].0),
        consume_spec(inc, out, h).0 is None ==> consume_spec(inc, out, h).1 == inc && consume_spec(inc, out, h).2 == out,
        consume_spec(inc, out, h).1.dom() == inc.dom(),
        consume_spec(inc, out, h).2.dom() == out.dom(),
        forall|k: Seq<u8>| #[trigger] inc.contains_key(k) && inc[k].1 != ReceiptStatus::Pending
            ==> consume_spec(inc, out, h).1[k] == inc[k],
        forall|k: Seq<u8>| #[trigger] out.contains_key(k) && out[k].1 != ReceiptStatus::Pending
            ==> consume_spec(inc, out, h).2[k] == out[k],
        (inc.contains_key(h) && inc[h].1 == ReceiptStatus::Pending) || (out.contains_key(h) && out[h].1 == ReceiptStatus::Pending)
            ==> consume_spec(inc, out, h).0 is Some,
{
    let r = consume_spec(inc, out, h);
    if pending_at(inc, h) {
        assert(r.1.dom() =~= inc.dom());
    } else if pending_at(out, h) {
        assert(r.2.dom() =~= out.dom());
    }
}

/// Registering an incoming receipt never changes a receipt already known under
/// any hash (its status included): a receipt gossiped again after it was
/// consumed stays consumed. A receipt with a new hash is added as pending.
pub proof fn law_register_incoming_keeps_known(inc: ReceiptTable, r: ReceiptView)
    ensures
        forall|k: Seq<u8>| #[trigger] inc.contains_key(k)
            ==> register_incoming_spec(inc, r).contains_key(k) && register_incoming_spec(inc, r)[k] == inc[k],
        !inc.contains_key(receipt_digest(r)) ==> register_incoming_spec(inc, r)
            == inc.insert(receipt_digest(r), (r, ReceiptStatus::Pending)),
{
}

/// A receipt is committed at most once however often it is gossiped: after
/// `consume(h)` took the incoming receipt `r` (with `h` its hash, and no
/// outgoing receipt pending under `h`), registering `r` again and consuming
/// `h` again returns nothing.
pub proof fn law_consumed_receipt_not_revived(inc: ReceiptTable, out: ReceiptTable, r: ReceiptView)
    requires
        inc.contains_key(receipt_digest(r)),
        inc[receipt_digest(r)].1 == ReceiptStatus::Pending,
        !(out.contains_key(receipt_digest(r)) && out[receipt_digest(r)].1 == ReceiptStatus::Pending),
    ensures
        ({
            let h = receipt_digest(r);
            let first = consume_spec(inc, out, h);
            &&& first.0 is Some
            &&& consume_spec(register_incoming_spec(first.1, r), first.2, h).0 is None
        }),
{
    let h = receipt_digest(r);
    law_consume_takes_only_pending(inc, out, h);
    let first = consume_spec(inc, out, h);
    law_register_incoming_keeps_known(first.1, r);
    law_consume_takes_only_pending(register_incoming_spec(first.1, r), first.2, h);
}

} // verus!
