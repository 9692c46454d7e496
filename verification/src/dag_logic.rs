//! A node's transaction logic: admission of new transactions (signature,
//! double-spend and balance checks) into the pool, and batch finalization of
//! the transactions the network approved into the ledger and the balances.
use vstd::prelude::*;
use crate::config::{FINALIZATION_INTERVAL, PREDICTIVE_MOMENTUM_HISTORY};
use crate::keyed::{hash_views, hentries, hfind, hremove, hset, lemma_hentry, sentries};
use crate::ledger::{batch_added, batch_model, entries_of, tips_of, Ledger, LedgerModel};
use crate::crypto::{ed25519_seed_key, ed25519_seed_public_key, ed25519_seed_signature, random_u64};
use crate::maps::{has_key, keys_unique, last_wins, to_map};
use crate::mempool::{accepts_spec, add_spec, history_of, known_nonce, record_spec, remove_spec, trim_history, Mempool, MempoolModel};
use crate::snapshot::SnapshotResponse;
use crate::state::{apply_tx_spec, balance_entries, balance_of, credit, StateManager};
use crate::transaction::{batch_verdict, sig_valid, total_cost_spec, tx_digest, tx_views, Transaction, TxView};
use crate::cross_shard::TxKind;
use crate::sharding::{processes_sender, ShardSet};

verus! {

/// Number of tips a locally submitted transaction approves.
pub const SUBMIT_PARENTS: usize = 3;

/// How many times a transaction may fail the balance check at finalization
/// before it is evicted from the pool.
pub const MAX_FINALIZE_RETRIES: u32 = 3;

/// Whether `t` is neither a replay nor a double spend: its nonce is not among
/// the sender's remembered or finalized nonces, it is above the sender's last
/// nonce in the pool and in the ledger, and its hash is not pending.
pub open spec fn double_spend_free(l: LedgerModel, m: MempoolModel, t: TxView) -> bool {
    &&& !known_nonce(m.histories, t.sender, t.nonce)
    &&& !l.nonces.contains((t.sender, t.nonce))
    &&& !(m.last.contains_key(t.sender) && t.nonce <= m.last[t.sender])
    &&& !(l.last.contains_key(t.sender) && t.nonce <= l.last[t.sender])
    &&& !m.pending.contains_key(t.hash)
}

/// The nonce that a new transaction of `sender` takes: one above the highest
/// nonce of `sender` known to the pool or finalized (0 when there is none).
pub open spec fn next_nonce_spec(l: LedgerModel, m: MempoolModel, sender: Seq<char>) -> int {
    let a: u64 = if m.last.contains_key(sender) { m.last[sender] } else { 0 };
    let b: u64 = if l.last.contains_key(sender) { l.last[sender] } else { 0 };
    (if a >= b { a } else { b }) + 1
}

/// The pool after offering `txs` in order, where `valid[i]` says whether the
/// signature of `txs[i]` was accepted: a transaction goes in when its signature
/// is valid, it is double-spend free against the pool at that point, and the
/// pool accepts it.
pub open spec fn admit_all(l: LedgerModel, m: MempoolModel, txs: Seq<TxView>, valid: Seq<bool>) -> MempoolModel
    decreases txs.len(),
{
    if txs.len() == 0 {
        m
    } else {
        let m0 = admit_all(l, m, txs.drop_last(), valid.drop_last());
        if valid.last() && double_spend_free(l, m0, txs.last()) {
            add_spec(m0, txs.last())
        } else {
            m0
        }
    }
}

/// How many of `txs` `admit_all` lets in.
pub open spec fn admitted(l: LedgerModel, m: MempoolModel, txs: Seq<TxView>, valid: Seq<bool>) -> nat
    decreases txs.len(),
{
    if txs.len() == 0 {
        0
    } else {
        let m0 = admit_all(l, m, txs.drop_last(), valid.drop_last());
        admitted(l, m, txs.drop_last(), valid.drop_last()) + if valid.last() && double_spend_free(l, m0, txs.last())
            && accepts_spec(m0, txs.last()) {
            1nat
        } else {
            0nat
        }
    }
}

/// The signature verdicts `verify_batch` gives for `txs`.
pub open spec fn batch_verdicts(txs: Seq<TxView>) -> Seq<bool> {
    Seq::new(txs.len(), |i: int| batch_verdict(txs, i))
}

/// What finalization decides for the approved hashes, in order.
pub struct FinalizePlan {
    /// Transactions to finalize.
    pub finalize: Seq<TxView>,
    /// Proposer of each finalized transaction that has one, by hash.
    pub rewards: Seq<(Seq<u8>, Seq<char>)>,
    /// The matching payments: proposer and fee.
    pub pay: Seq<(Seq<char>, u64)>,
    /// Hashes to evict from the pool.
    pub evict: Seq<Seq<u8>>,
    /// Retry counts after the balance checks.
    pub retries: Map<Seq<u8>, u32>,
    /// Total fee paid to proposers.
    pub total: int,
    /// Balances after applying the finalized transactions in order.
    pub bal: Map<Seq<char>, u64>,
    /// Hashes of the finalized transactions, in order.
    pub done: Seq<Seq<u8>>,
}

/// The retry count of `h` (0 if none).
pub open spec fn retry_of(r: Map<Seq<u8>, u32>, h: Seq<u8>) -> int {
    if r.contains_key(h) {
        r[h] as int
    } else {
        0
    }
}

/// One approved hash: skipped when not pending; evicted when its signature is
/// invalid; when the sender cannot pay out of the balances left by the
/// transactions finalized before it, its retry count goes up and it is evicted
/// once the count reaches `MAX_FINALIZE_RETRIES`; otherwise it is applied to
/// those balances and finalized, and its proposer (if any) is paid its fee.
pub open spec fn plan_step(
    p: FinalizePlan,
    pool: Map<Seq<u8>, TxView>,
    proposers: Map<Seq<u8>, Seq<char>>,
    h: Seq<u8>,
) -> FinalizePlan {
    if !pool.contains_key(h) {
        p
    } else {
        let t = pool[h];
        if !sig_valid(t) {
            FinalizePlan { evict: p.evict.push(h), ..p }
        } else {
            match apply_tx_spec(p.bal, t) {
                None => {
                    let c = retry_of(p.retries, h) + 1;
                    if c >= MAX_FINALIZE_RETRIES {
                        FinalizePlan { evict: p.evict.push(h), retries: p.retries.insert(h, c as u32), ..p }
                    } else {
                        FinalizePlan { retries: p.retries.insert(h, c as u32), ..p }
                    }
                },
                Some(nb) => {
                    if proposers.contains_key(h) {
                        FinalizePlan {
                            finalize: p.finalize.push(t),
                            rewards: p.rewards.push((h, proposers[h])),
                            pay: p.pay.push((proposers[h], t.fee)),
                            total: p.total + t.fee,
                            bal: nb,
                            done: p.done.push(h),
                            ..p
                        }
                    } else {
                        FinalizePlan { finalize: p.finalize.push(t), bal: nb, done: p.done.push(h), ..p }
                    }
                },
            }
        }
    }
}

/// The plan for the approved hashes `hs`, starting from balances `bal` and
/// retry counts `r0`.
pub open spec fn plan(
    pool: Map<Seq<u8>, TxView>,
    bal: Map<Seq<char>, u64>,
    r0: Map<Seq<u8>, u32>,
    proposers: Map<Seq<u8>, Seq<char>>,
    hs: Seq<Seq<u8>>,
) -> FinalizePlan
    decreases hs.len(),
{
    if hs.len() == 0 {
        FinalizePlan {
            finalize: Seq::empty(),
            rewards: Seq::empty(),
            pay: Seq::empty(),
            evict: Seq::empty(),
            retries: r0,
            total: 0,
            bal,
            done: Seq::empty(),
        }
    } else {
        plan_step(plan(pool, bal, r0, proposers, hs.drop_last()), pool, proposers, hs.last())
    }
}

/// The balances after crediting each `(account, amount)` of `pay` in order.
pub open spec fn credit_all(m: Map<Seq<char>, u64>, pay: Seq<(Seq<char>, u64)>) -> Map<Seq<char>, u64>
    decreases pay.len(),
{
    if pay.len() == 0 {
        m
    } else {
        credit(credit_all(m, pay.drop_last()), pay.last().0, pay.last().1)
    }
}

/// No hash occurs twice.
pub open spec fn distinct_hashes(hs: Seq<Seq<u8>>) -> bool {
    forall|i: int, j: int| 0 <= i < j < hs.len() ==> hs[i] != hs[j]
}

/// What became of a transaction received by gossip.
#[derive(Debug)]
pub enum GossipOutcome {
    /// Its sender's shard is not processed here.
    OtherShard,
    /// Its signature does not verify.
    BadSignature,
    /// The pool refused it.
    Refused,
    /// The pool admitted it; this copy is passed on to the peers.
    Admitted(Transaction),
}

/// A node's ledger, pool and balances, with the retry counts of transactions
/// that failed the balance check at finalization.
pub struct DagLogic {
    pub ledger: Ledger,
    pub mempool: Mempool,
    pub state: StateManager,
    pub finalize_retry_count: Vec<([u8; 32], u32)>,
}

impl DagLogic {
    /// Ledger and pool are consistent, and every retry count is below the limit.
    pub closed spec fn wf(&self) -> bool {
        &&& self.ledger.wf()
        &&& self.mempool.wf()
        &&& keys_unique(hentries(self.finalize_retry_count@))
        &&& forall|h: Seq<u8>| #[trigger] self.retries().contains_key(h) ==> self.retries()[h] < MAX_FINALIZE_RETRIES
    }

    /// Failed balance checks per pending transaction.
    pub closed spec fn retries(&self) -> Map<Seq<u8>, u32> {
        to_map(hentries(self.finalize_retry_count@))
    }

    /// Assembles a node from its loaded parts. Each sender with finalized
    /// transactions whose last finalized nonce is above its last nonce in the
    /// pool (0 when none) has that nonce raised in the pool (and remembered).
    pub fn from_parts(ledger: Ledger, mempool: Mempool, state: StateManager) -> (d: Self)
        requires
            ledger.wf(),
            mempool.wf(),
        ensures
            d.wf(),
            d.ledger == ledger,
            d.state == state,
            d.retries() == Map::<Seq<u8>, u32>::empty(),
            d.mempool.model() == lift_all(ledger@, mempool.model(), |s: Seq<char>| lifted(ledger@, mempool.model(), s)),
            d.mempool.path() == mempool.path(),
    {
        let ghost m0 = mempool.model();
        let ghost p0 = mempool.path();
        let ghost l = ledger@;
        let mut mempool = mempool;
        let mut k: usize = 0;
        let n = ledger.len();
        let ghost keys = ledger.entry_keys();
        proof {
            ledger.lemma_entry_keys();
            let f = |s: Seq<char>| lifted_within(l, m0, keys.take(0), s);
            assert forall|x: Seq<char>| !#[trigger] f(x) by {}
            assert(lift_all(l, m0, f).last =~= m0.last);
            assert(lift_all(l, m0, f).histories =~= m0.histories);
        }
        while k < n
            invariant
                ledger.wf(),
                mempool.wf(),
                l == ledger@,
                keys == ledger.entry_keys(),
                n == keys.len(),
                k <= n,
                mempool.model() == lift_all(l, m0, |s: Seq<char>| lifted_within(l, m0, keys.take(k as int), s)),
                mempool.path() == p0,
            decreases n - k,
        {
            let ghost mk = mempool.model();
            let sender = ledger.entry_sender(k);
            let ghost sv = sender@;
            let ghost tk = keys.take(k as int);
            let ghost tk1 = keys.take(k + 1);
            proof {
                assert(tk1 =~= tk.push(keys[k as int]));
                assert forall|x: Seq<char>| x != sv implies lifted_within(l, m0, tk1, x) == lifted_within(l, m0, tk, x) by {
                    if lifted_within(l, m0, tk1, x) {
                        let q = choose|q: int| 0 <= q < tk1.len() && l.entries[#[trigger] tk1[q]].tx.sender == x;
                        assert(q != k);
                        assert(tk[q] == tk1[q]);
                    }
                    if lifted_within(l, m0, tk, x) {
                        let q = choose|q: int| 0 <= q < tk.len() && l.entries[#[trigger] tk[q]].tx.sender == x;
                        assert(tk1[q] == tk[q]);
                    }
                }
                assert(lifted_within(l, m0, tk1, sv) == (lifted_within(l, m0, tk, sv) || (l.last.contains_key(sv)
                    && l.last[sv] > (if m0.last.contains_key(sv) { m0.last[sv] } else { 0 })))) by {
                    assert(l.entries[tk1[k as int]].tx.sender == sv);
                    if lifted_within(l, m0, tk, sv) {
                        let q = choose|q: int| 0 <= q < tk.len() && l.entries[#[trigger] tk[q]].tx.sender == sv;
                        assert(tk1[q] == tk[q]);
                    }
                }
            }
            match ledger.last_finalized_nonce(sender.as_str()) {
                Some(last_n) => {
                    mempool.set_last_nonce(sender.as_str(), last_n);
                },
                None => {},
            }
            proof {
                let f0 = |s: Seq<char>| lifted_within(l, m0, tk, s);
                let f1 = |s: Seq<char>| lifted_within(l, m0, tk1, s);
                if f1(sv) && !f0(sv) {
                    assert(mempool.model().last =~= lift_all(l, m0, f1).last);
                    assert(mempool.model().histories =~= lift_all(l, m0, f1).histories);
                } else {
                    assert forall|x: Seq<char>| #[trigger] f1(x) == f0(x) by {}
                    assert(f1 =~= f0);
                }
            }
            k = k + 1;
        }
        proof {
            assert(keys.take(n as int) =~= keys);
            let fa = |s: Seq<char>| lifted_within(l, m0, keys, s);
            let fb = |s: Seq<char>| lifted(l, m0, s);
            assert forall|x: Seq<char>| #[trigger] fa(x) == fb(x) by {
                if fa(x) {
                    let q = choose|q: int| 0 <= q < keys.len() && l.entries[#[trigger] keys[q]].tx.sender == x;
                    assert(l.entries.contains_key(keys[q]));
                }
                if fb(x) {
                    let h = choose|h: Seq<u8>| #[trigger] l.entries.contains_key(h) && l.entries[h].tx.sender == x;
                    let q = choose|q: int| 0 <= q < keys.len() && keys[q] == h;
                    assert(l.entries[keys[q]].tx.sender == x);
                }
            }
            assert(fa =~= fb);
        }
        let d = DagLogic { ledger, mempool, state, finalize_retry_count: Vec::new() };
        proof {
            assert(d.retries() =~= Map::<Seq<u8>, u32>::empty());
        }
        d
    }

    /// Number of pending transactions.
    pub fn get_mempool_len(&self) -> (n: usize)
        requires
            self.wf(),
        ensures
            n == self.mempool@.len(),
    {
        self.mempool.len()
    }

    /// Number of finalized transactions.
    pub fn get_ledger_len(&self) -> (n: usize)
        requires
            self.wf(),
        ensures
            n == self.ledger@.entries.len(),
    {
        self.ledger.len()
    }

    /// The ledger.
    pub fn get_ledger(&self) -> (l: &Ledger)
        ensures
            *l == self.ledger,
    {
        &self.ledger
    }

    /// The pool.
    pub fn get_mempool(&self) -> (m: &Mempool)
        ensures
            *m == self.mempool,
    {
        &self.mempool
    }

    /// The balances.
    pub fn get_state(&self) -> (s: &StateManager)
        ensures
            *s == self.state,
    {
        &self.state
    }

    /// The balances, for changes made outside (slashing, epoch rewards).
    pub fn get_state_mut(&mut self) -> (s: &mut StateManager)
        ensures
            *s == old(self).state,
            final(self).state == *final(s),
            final(self).ledger == old(self).ledger,
            final(self).mempool == old(self).mempool,
            final(self).finalize_retry_count == old(self).finalize_retry_count,
    {
        &mut self.state
    }

    /// Whether `tx` is double-spend free against the ledger and the pool.
    pub fn check_double_spend(&self, tx: &Transaction) -> (ok: bool)
        requires
            self.wf(),
        ensures
            ok == double_spend_free(self.ledger@, self.mempool.model(), tx@),
    {
        if self.mempool.is_known_nonce(tx.sender.as_str(), tx.nonce) {
            return false;
        }
        if self.ledger.has_finalized_nonce(tx.sender.as_str(), tx.nonce) {
            return false;
        }
        let mempool_last = self.mempool.get_last_nonce(tx.sender.as_str());
        let ledger_last = self.ledger.last_finalized_nonce(tx.sender.as_str());
        let last: Option<u64> = match (mempool_last, ledger_last) {
            (Some(a), Some(b)) => if a >= b { Some(a) } else { Some(b) },
            (Some(a), None) => Some(a),
            (None, Some(b)) => Some(b),
            (None, None) => None,
        };
        match last {
            Some(last_n) => {
                if tx.nonce <= last_n {
                    return false;
                }
            },
            None => {},
        }
        if self.mempool.contains(&tx.hash) {
            return false;
        }
        true
    }

    /// Admits a transaction submitted to this node: it goes into the pool when
    /// its signature is valid, it is double-spend free, the sender can pay
    /// `amount + fee`, and the pool accepts it.
    pub fn add_transaction(&mut self, tx: Transaction) -> (ok: bool)
        requires
            old(self).wf(),
            old(self).mempool.next_stamp() < u64::MAX,
        ensures
            final(self).wf(),
            ({
                let checks = sig_valid(tx@) && double_spend_free(old(self).ledger@, old(self).mempool.model(), tx@)
                    && balance_of(old(self).state@, tx@.sender) >= total_cost_spec(tx@);
                &&& ok == (checks && accepts_spec(old(self).mempool.model(), tx@))
                &&& final(self).mempool.model() == if checks {
                    add_spec(old(self).mempool.model(), tx@)
                } else {
                    old(self).mempool.model()
                }
            }),
            final(self).mempool.path() == old(self).mempool.path(),
            final(self).ledger == old(self).ledger,
            final(self).state == old(self).state,
            final(self).retries() == old(self).retries(),
    {
        if !tx.verify_signature() {
            return false;
        }
        if !self.check_double_spend(&tx) {
            return false;
        }
        if !self.state.has_balance(tx.sender.as_str(), tx.total_cost()) {
            return false;
        }
        let ok = self.mempool.add(tx);
        proof {
            assert(self.retries() == old(self).retries());
        }
        ok
    }

    /// Admits a transaction received by gossip: as `add_transaction`, without
    /// the balance check.
    pub fn add_transaction_from_gossip(&mut self, tx: Transaction) -> (ok: bool)
        requires
            old(self).wf(),
            old(self).mempool.next_stamp() < u64::MAX,
        ensures
            final(self).wf(),
            ({
                let checks = sig_valid(tx@) && double_spend_free(old(self).ledger@, old(self).mempool.model(), tx@);
                &&& ok == (checks && accepts_spec(old(self).mempool.model(), tx@))
                &&& final(self).mempool.model() == if checks {
                    add_spec(old(self).mempool.model(), tx@)
                } else {
                    old(self).mempool.model()
                }
            }),
            final(self).mempool.path() == old(self).mempool.path(),
            final(self).ledger == old(self).ledger,
            final(self).state == old(self).state,
            final(self).retries() == old(self).retries(),
    {
        if !tx.verify_signature() {
            return false;
        }
        if !self.check_double_spend(&tx) {
            return false;
        }
        let ok = self.mempool.add(tx);
        proof {
            assert(self.retries() == old(self).retries());
        }
        ok
    }

    /// Handles a transaction received by gossip: it is ignored when its sender's
    /// shard is not processed here, refused when its signature does not verify,
    /// and otherwise offered to the pool as in `add_transaction_from_gossip`;
    /// when admitted, a copy is returned to be passed on.
    pub fn receive_gossip_transaction(&mut self, shards: &ShardSet, tx: Transaction) -> (r: GossipOutcome)
        requires
            old(self).wf(),
            old(self).mempool.next_stamp() < u64::MAX,
        ensures
            final(self).wf(),
            ({
                let ours = processes_sender(shards@, tx@.sender);
                let checks = ours && sig_valid(tx@) && double_spend_free(old(self).ledger@, old(self).mempool.model(), tx@);
                &&& (r is OtherShard) == !ours
                &&& (r is BadSignature) == (ours && !sig_valid(tx@))
                &&& (r is Admitted) == (checks && accepts_spec(old(self).mempool.model(), tx@))
                &&& (r is Refused) == (ours && sig_valid(tx@) && !(checks && accepts_spec(old(self).mempool.model(), tx@)))
                &&& (r matches GossipOutcome::Admitted(c) ==> c@ == tx@)
                &&& final(self).mempool.model() == if checks {
                    add_spec(old(self).mempool.model(), tx@)
                } else {
                    old(self).mempool.model()
                }
            }),
            final(self).mempool.path() == old(self).mempool.path(),
            final(self).ledger == old(self).ledger,
            final(self).state == old(self).state,
            final(self).retries() == old(self).retries(),
    {
        if !shards.processes_tx(&tx) {
            return GossipOutcome::OtherShard;
        }
        if !tx.verify_signature() {
            return GossipOutcome::BadSignature;
        }
        let copy = tx.duplicate();
        if self.add_transaction_from_gossip(tx) {
            GossipOutcome::Admitted(copy)
        } else {
            GossipOutcome::Refused
        }
    }

    /// Admits a batch received by gossip, checking all signatures with one batch
    /// verification; then each transaction in order as in
    /// `add_transaction_from_gossip`. Returns `(admitted, rejected)`.
    pub fn add_verified_batch(&mut self, txs: Vec<Transaction>) -> (r: (usize, usize))
        requires
            old(self).wf(),
            old(self).mempool.next_stamp() + txs@.len() <= u64::MAX,
        ensures
            final(self).wf(),
            final(self).mempool.model() == admit_all(old(self).ledger@, old(self).mempool.model(), tx_views(txs@),
                batch_verdicts(tx_views(txs@))),
            r.0 == admitted(old(self).ledger@, old(self).mempool.model(), tx_views(txs@), batch_verdicts(tx_views(txs@))),
            r.0 + r.1 == txs@.len(),
            final(self).mempool.path() == old(self).mempool.path(),
            final(self).ledger == old(self).ledger,
            final(self).state == old(self).state,
            final(self).retries() == old(self).retries(),
    {
        let ghost tv = tx_views(txs@);
        let ghost valid = batch_verdicts(tv);
        let ghost l = self.ledger@;
        let ghost m0 = self.mempool.model();
        if txs.len() == 0 {
            proof {
                assert(tv.len() == 0);
            }
            return (0, 0);
        }
        let mut refs: Vec<&Transaction> = Vec::new();
        let mut j: usize = 0;
        while j < txs.len()
            invariant
                j <= txs@.len(),
                refs@.len() == j,
                forall|q: int| 0 <= q < j ==> *(#[trigger] refs@[q]) == txs@[q],
            decreases txs@.len() - j,
        {
            refs.push(&txs[j]);
            j = j + 1;
        }
        let verify_results = Transaction::verify_batch(refs.as_slice());
        proof {
            assert(refs@.map_values(|t: &Transaction| t@) =~= tv);
        }
        let mut added: usize = 0;
        let mut rejected: usize = 0;
        let n = txs.len();
        let mut i: usize = 0;
        while i < n
            invariant
                self.wf(),
                n == txs@.len(),
                tv == tx_views(txs@),
                valid == batch_verdicts(tv),
                verify_results@.len() == n,
                forall|q: int| 0 <= q < n ==> #[trigger] verify_results@[q] == valid[q],
                l == self.ledger@,
                i <= n,
                self.mempool.model() == admit_all(l, m0, tv.take(i as int), valid.take(i as int)),
                added == admitted(l, m0, tv.take(i as int), valid.take(i as int)),
                added + rejected == i,
                self.mempool.next_stamp() <= m0.next_stamp + i,
                m0.next_stamp + n <= u64::MAX,
                self.mempool.path() == old(self).mempool.path(),
                self.ledger == old(self).ledger,
                self.state == old(self).state,
                self.retries() == old(self).retries(),
            decreases n - i,
        {
            proof {
                assert(tv.take(i + 1).drop_last() =~= tv.take(i as int));
                assert(valid.take(i + 1).drop_last() =~= valid.take(i as int));
                assert(tv.take(i + 1).last() == tv[i as int]);
                assert(valid.take(i + 1).last() == valid[i as int]);
            }
            let tx = txs[i].duplicate();
            if !verify_results[i] {
                rejected = rejected + 1;
            } else if !self.check_double_spend(&tx) {
                rejected = rejected + 1;
            } else if self.mempool.add(tx) {
                added = added + 1;
            } else {
                rejected = rejected + 1;
            }
            i = i + 1;
        }
        proof {
            assert(tv.take(n as int) =~= tv);
            assert(valid.take(n as int) =~= valid);
        }
        (added, rejected)
    }

    /// The retry count of `hash` (0 if none).
    fn retry_get(&self, hash: &[u8; 32]) -> (c: u32)
        requires
            keys_unique(hentries(self.finalize_retry_count@)),
        ensures
            c == retry_of(self.retries(), hash@),
    {
        match hfind(&self.finalize_retry_count, hash) {
            Some(i) => {
                proof {
                    lemma_hentry(self.finalize_retry_count@, i as int);
                }
                self.finalize_retry_count[i].1
            },
            None => 0,
        }
    }

    /// Finalizes the approved transactions (`approved` lists distinct hashes;
    /// `proposer_of` names the proposer of some of them). Each approved hash
    /// that is pending is checked again, in order: an invalid signature evicts it;
    /// a sender that cannot pay out of the current balances (those left by the
    /// transactions finalized before it in this batch) raises its retry count,
    /// evicting it at `MAX_FINALIZE_RETRIES`; the others are applied to the
    /// balances and finalized. Evicted transactions leave the pool and lose their
    /// retry count; a transaction that failed the balance check fewer times stays
    /// pending. If nothing is finalized, nothing else changes and `(empty, 0)` is
    /// returned. Otherwise each proposer is credited the fee of the transaction it
    /// proposed, the finalized transactions (with their rewards) form a new ledger
    /// batch and leave the pool; the result is the hashes added to the ledger and
    /// the total fee paid to proposers.
    pub fn finalize_batch(&mut self, approved: &Vec<[u8; 32]>, proposer_of: &Vec<([u8; 32], String)>) -> (r: (Vec<[u8; 32]>, u64))
        requires
            old(self).wf(),
            distinct_hashes(hash_views(approved@)),
            keys_unique(hentries(proposer_of@)),
            plan(old(self).mempool@, old(self).state@, old(self).retries(), to_map(hentries(proposer_of@)),
                hash_views(approved@)).total <= u64::MAX,
            plan(old(self).mempool@, old(self).state@, old(self).retries(), to_map(hentries(proposer_of@)),
                hash_views(approved@)).finalize.len() > 0 ==> old(self).ledger.next_batch() < u64::MAX,
        ensures
            final(self).wf(),
            ({
                let p = plan(old(self).mempool@, old(self).state@, old(self).retries(), to_map(hentries(proposer_of@)),
                    hash_views(approved@));
                let m1 = if p.evict.len() > 0 {
                    remove_spec(old(self).mempool.model(), p.evict.to_set())
                } else {
                    old(self).mempool.model()
                };
                &&& final(self).retries() == p.retries.remove_keys(p.evict.to_set())
                &&& if p.finalize.len() == 0 {
                    &&& r.0@.len() == 0
                    &&& r.1 == 0
                    &&& final(self).mempool.model() == m1
                    &&& final(self).state == old(self).state
                    &&& final(self).ledger == old(self).ledger
                } else {
                    &&& final(self).state@ == credit_all(p.bal, p.pay)
                    &&& final(self).state.is_dirty_spec()
                    &&& final(self).state.path() == old(self).state.path()
                    &&& exists|stamps: Seq<u64>| #![trigger batch_model(old(self).ledger@, p.finalize, to_map(p.rewards), stamps, old(self).ledger.next_batch())]
                        stamps.len() == p.finalize.len() && final(self).ledger@ == batch_model(
                            old(self).ledger@,
                            p.finalize,
                            to_map(p.rewards),
                            stamps,
                            old(self).ledger.next_batch(),
                        ) && hash_views(r.0@) == batch_added(p.finalize, to_map(p.rewards), stamps)
                    &&& final(self).ledger.next_batch() == old(self).ledger.next_batch() + 1
                    &&& final(self).ledger.is_dirty_spec()
                    &&& final(self).ledger.path() == old(self).ledger.path()
                    &&& final(self).mempool.model() == remove_spec(m1, p.done.to_set())
                    &&& r.1 == p.total
                }
            }),
            final(self).mempool.path() == old(self).mempool.path(),
    {
        let ghost hv = hash_views(approved@);
        let ghost pool = self.mempool@;
        let ghost bal = self.state@;
        let ghost r0 = self.retries();
        let ghost props = to_map(hentries(proposer_of@));
        let ghost pfull = plan(pool, bal, r0, props, hv);
        let mut to_finalize: Vec<Transaction> = Vec::new();
        let mut reward_map: Vec<([u8; 32], String)> = Vec::new();
        let mut pay: Vec<(String, u64)> = Vec::new();
        let mut total_rewards: u64 = 0;
        let mut to_evict: Vec<[u8; 32]> = Vec::new();
        let mut done: Vec<[u8; 32]> = Vec::new();
        let ghost d0 = self.state.is_dirty_spec();
        let n = approved.len();
        let mut i: usize = 0;
        proof {
            assert(to_map(hentries(reward_map@)) =~= Map::<Seq<u8>, Seq<char>>::empty());
            assert(tx_views(to_finalize@) =~= Seq::<TxView>::empty());
            assert(hentries(reward_map@) =~= Seq::<(Seq<u8>, Seq<char>)>::empty());
            assert(sentries(pay@) =~= Seq::<(Seq<char>, u64)>::empty());
            assert(hash_views(to_evict@) =~= Seq::<Seq<u8>>::empty());
            assert(hash_views(done@) =~= Seq::<Seq<u8>>::empty());
        }
        while i < n
            invariant
                n == approved@.len(),
                i <= n,
                hv == hash_views(approved@),
                distinct_hashes(hv),
                keys_unique(hentries(proposer_of@)),
                props == to_map(hentries(proposer_of@)),
                pfull == plan(pool, bal, r0, props, hv),
                pfull.total <= u64::MAX,
                old(self).wf(),
                self.ledger == old(self).ledger,
                self.mempool == old(self).mempool,
                pool == self.mempool@,
                bal == old(self).state@,
                self.state@ == plan(pool, bal, r0, props, hv.take(i as int)).bal,
                self.state.path() == old(self).state.path(),
                self.state.is_dirty_spec() == (d0 || plan(pool, bal, r0, props, hv.take(i as int)).finalize.len() > 0),
                plan(pool, bal, r0, props, hv.take(i as int)).finalize.len() == 0 ==> self.state == old(self).state,
                hash_views(done@) == plan(pool, bal, r0, props, hv.take(i as int)).done,
                r0 == old(self).retries(),
                keys_unique(hentries(self.finalize_retry_count@)),
                tx_views(to_finalize@) == plan(pool, bal, r0, props, hv.take(i as int)).finalize,
                hentries(reward_map@) == plan(pool, bal, r0, props, hv.take(i as int)).rewards,
                sentries(pay@) == plan(pool, bal, r0, props, hv.take(i as int)).pay,
                hash_views(to_evict@) == plan(pool, bal, r0, props, hv.take(i as int)).evict,
                self.retries() == plan(pool, bal, r0, props, hv.take(i as int)).retries,
                total_rewards == plan(pool, bal, r0, props, hv.take(i as int)).total,
                keys_unique(hentries(reward_map@)),
                forall|q: int| 0 <= q < reward_map@.len() ==> hv.take(i as int).contains(#[trigger] reward_map@[q].0@),
                forall|h: Seq<u8>| #[trigger] self.retries().contains_key(h) && !hv.take(i as int).contains(h)
                    ==> self.retries()[h] < MAX_FINALIZE_RETRIES,
                forall|h: Seq<u8>| #[trigger] self.retries().contains_key(h) && self.retries()[h] >= MAX_FINALIZE_RETRIES
                    ==> hash_views(to_evict@).contains(h),
            decreases n - i,
        {
            let ghost p0 = plan(pool, bal, r0, props, hv.take(i as int));
            let ghost tk = hv.take(i as int);
            let ghost tk1 = hv.take(i + 1);
            let ghost ev0 = to_evict@;
            let ghost rm0 = reward_map@;
            let ghost dn0 = done@;
            proof {
                assert(tk1.drop_last() =~= tk);
                assert(tk1.last() == hv[i as int]);
                assert(!tk.contains(hv[i as int])) by {
                    if tk.contains(hv[i as int]) {
                        let q = choose|q: int| 0 <= q < tk.len() && tk[q] == hv[i as int];
                        assert(hv[q] == hv[i as int]);
                    }
                }
                lemma_plan_total_prefix(pool, bal, r0, props, hv, i + 1);
                assert forall|x: Seq<u8>| tk.contains(x) implies #[trigger] tk1.contains(x) by {
                    let q = choose|q: int| 0 <= q < tk.len() && tk[q] == x;
                    assert(tk1[q] == x);
                }
                assert(tk1.contains(hv[i as int])) by {
                    assert(tk1[i as int] == hv[i as int]);
                }
            }
            let hash = &approved[i];
            match self.mempool.get(hash) {
                None => {},
                Some(txr) => {
                    let tx = txr.duplicate();
                    if !tx.verify_signature() {
                        to_evict.push(*hash);
                        proof {
                            assert(hash_views(to_evict@) =~= hash_views(ev0).push(hash@));
                            assert forall|h: Seq<u8>| #[trigger] self.retries().contains_key(h) && self.retries()[h] >= MAX_FINALIZE_RETRIES
                                implies hash_views(to_evict@).contains(h) by {
                                let q = choose|q: int| 0 <= q < hash_views(ev0).len() && hash_views(ev0)[q] == h;
                                assert(hash_views(to_evict@)[q] == h);
                            }
                        }
                    } else if !self.state.has_balance(tx.sender.as_str(), tx.total_cost()) {
                        let cur = self.retry_get(hash);
                        let c: u32 = cur + 1;
                        hset(&mut self.finalize_retry_count, hash, c);
                        if c >= MAX_FINALIZE_RETRIES {
                            to_evict.push(*hash);
                            proof {
                                assert(hash_views(to_evict@) =~= hash_views(ev0).push(hash@));
                            }
                        }
                        proof {
                            assert forall|h: Seq<u8>| #[trigger] self.retries().contains_key(h) && self.retries()[h] >= MAX_FINALIZE_RETRIES
                                implies hash_views(to_evict@).contains(h) by {
                                if h == hash@ {
                                    assert(hash_views(to_evict@)[hash_views(to_evict@).len() - 1] == h);
                                } else {
                                    let q = choose|q: int| 0 <= q < hash_views(ev0).len() && hash_views(ev0)[q] == h;
                                    assert(hash_views(to_evict@)[q] == h);
                                }
                            }
                        }
                    } else {
                        match hfind(proposer_of, hash) {
                            Some(k) => {
                                proof {
                                    lemma_hentry(proposer_of@, k as int);
                                }
                                let who = proposer_of[k].1.clone();
                                let who2 = proposer_of[k].1.clone();
                                reward_map.push((*hash, who));
                                pay.push((who2, tx.fee));
                                total_rewards = total_rewards + tx.fee;
                                proof {
                                    assert(hentries(reward_map@) =~= hentries(rm0).push((hash@, props[hash@])));
                                    assert(keys_unique(hentries(reward_map@))) by {
                                        let e = hentries(reward_map@);
                                        assert forall|a: int, b: int| 0 <= a < b < e.len() implies (#[trigger] e[a]).0 != (#[trigger] e[b]).0 by {
                                            if b == e.len() - 1 {
                                                assert(tk.contains(rm0[a].0@));
                                            } else {
                                                assert(hentries(rm0)[a] == e[a] && hentries(rm0)[b] == e[b]);
                                            }
                                        }
                                    }
                                }
                            },
                            None => {},
                        }
                        let _applied = self.state.apply_tx(&tx);
                        done.push(*hash);
                        proof {
                            assert(hash_views(done@) =~= hash_views(dn0).push(hash@));
                        }
                        to_finalize.push(tx);
                    }
                },
            }
            proof {
                assert(plan(pool, bal, r0, props, tk1) == plan_step(p0, pool, props, hv[i as int]));
                assert(tx_views(to_finalize@) =~= plan(pool, bal, r0, props, tk1).finalize);
                assert(sentries(pay@) =~= plan(pool, bal, r0, props, tk1).pay);
                assert(hash_views(to_evict@) =~= plan(pool, bal, r0, props, tk1).evict);
                assert(hash_views(done@) =~= plan(pool, bal, r0, props, tk1).done);
                assert(hentries(reward_map@) =~= plan(pool, bal, r0, props, tk1).rewards);
                assert forall|q: int| 0 <= q < reward_map@.len() implies tk1.contains(#[trigger] reward_map@[q].0@) by {
                    if q < rm0.len() {
                        assert(reward_map@[q] == rm0[q]);
                    }
                }
            }
            i = i + 1;
        }
        proof {
            assert(hv.take(n as int) =~= hv);
        }
        if to_evict.len() > 0 {
            let _removed = self.mempool.remove_batch(to_evict.as_slice());
            let ghost rs = self.retries();
            let ghost ev = hash_views(to_evict@);
            let ghost mem1 = self.mempool;
            let ghost st1 = self.state;
            let mut j: usize = 0;
            while j < to_evict.len()
                invariant
                    self.mempool == mem1,
                    self.ledger == old(self).ledger,
                    self.state == st1,
                    j <= to_evict@.len(),
                    ev == hash_views(to_evict@),
                    keys_unique(hentries(self.finalize_retry_count@)),
                    self.retries() == rs.remove_keys(ev.take(j as int).to_set()),
                decreases to_evict@.len() - j,
            {
                let _ = hremove(&mut self.finalize_retry_count, &to_evict[j]);
                proof {
                    assert(ev.take(j + 1) =~= ev.take(j as int).push(ev[j as int]));
                    ev.take(j as int).lemma_push_to_set_commute(ev[j as int]);
                    assert(self.retries() =~= rs.remove_keys(ev.take(j + 1).to_set()));
                }
                j = j + 1;
            }
            proof {
                assert(ev.take(to_evict@.len() as int) =~= ev);
            }
        } else {
            proof {
                assert(self.retries() =~= pfull.retries.remove_keys(pfull.evict.to_set()));
            }
        }
        proof {
            assert forall|h: Seq<u8>| #[trigger] self.retries().contains_key(h) implies self.retries()[h] < MAX_FINALIZE_RETRIES by {
                assert(pfull.retries.contains_key(h));
                assert(!pfull.evict.to_set().contains(h));
                if pfull.retries[h] >= MAX_FINALIZE_RETRIES {
                    assert(pfull.evict.contains(h));
                }
            }
        }
        if to_finalize.len() == 0 {
            return (Vec::new(), 0);
        }
        let ghost mem2 = self.mempool;
        let ghost rt2 = self.finalize_retry_count;
        let ghost pv = sentries(pay@);
        let ghost s1 = self.state@;
        let ghost d1 = self.state.is_dirty_spec();
        let mut q: usize = 0;
        while q < pay.len()
            invariant
                self.mempool == mem2,
                self.ledger == old(self).ledger,
                self.finalize_retry_count == rt2,
                q <= pay@.len(),
                pv == sentries(pay@),
                self.state@ == credit_all(s1, pv.take(q as int)),
                self.state.is_dirty_spec() == (d1 || q > 0),
                self.state.path() == old(self).state.path(),
            decreases pay@.len() - q,
        {
            self.state.apply_reward(pay[q].0.as_str(), pay[q].1);
            proof {
                assert(pv.take(q + 1).drop_last() =~= pv.take(q as int));
                assert(pv.take(q + 1).last() == pv[q as int]);
            }
            q = q + 1;
        }
        proof {
            assert(pv.take(pay@.len() as int) =~= pv);
        }
        let hashes = self.ledger.add_batch(to_finalize, &reward_map);
        let _removed = self.mempool.remove_batch(done.as_slice());
        (hashes, total_rewards)
    }

    /// What `finalize_batch` would do with these approved hashes, worked out on
    /// a scratch copy of the balances without changing anything: `Some((total,
    /// count))`, the total fee it would pay to proposers and the number of
    /// transactions it would finalize, when that total fits in a `u64` (as
    /// `finalize_batch` requires); `None` when it does not.
    pub fn preview_finalize(&self, approved: &Vec<[u8; 32]>, proposer_of: &Vec<([u8; 32], String)>) -> (r: Option<(u64, usize)>)
        requires
            self.wf(),
            keys_unique(hentries(proposer_of@)),
        ensures
            ({
                let p = plan(self.mempool@, self.state@, self.retries(), to_map(hentries(proposer_of@)), hash_views(approved@));
                match r {
                    Some((t, c)) => p.total <= u64::MAX && t == p.total && c == p.finalize.len(),
                    None => p.total > u64::MAX,
                }
            }),
    {
        let ghost hv = hash_views(approved@);
        let ghost pool = self.mempool@;
        let ghost bal = self.state@;
        let ghost r0 = self.retries();
        let ghost props = to_map(hentries(proposer_of@));
        let data = self.state.to_data();
        let mut scratch = StateManager::new(String::new());
        scratch.load_balances(&data.balances);
        proof {
            crate::maps::lemma_last_wins_unique(balance_entries(data.balances@));
        }
        let mut total: u64 = 0;
        let mut count: usize = 0;
        let n = approved.len();
        let mut i: usize = 0;
        while i < n
            invariant
                n == approved@.len(),
                i <= n,
                hv == hash_views(approved@),
                self.wf(),
                pool == self.mempool@,
                bal == self.state@,
                r0 == self.retries(),
                keys_unique(hentries(proposer_of@)),
                props == to_map(hentries(proposer_of@)),
                scratch@ == plan(pool, bal, r0, props, hv.take(i as int)).bal,
                total == plan(pool, bal, r0, props, hv.take(i as int)).total,
                count == plan(pool, bal, r0, props, hv.take(i as int)).finalize.len(),
                count <= i,
            decreases n - i,
        {
            let ghost p0 = plan(pool, bal, r0, props, hv.take(i as int));
            proof {
                assert(hv.take(i + 1).drop_last() =~= hv.take(i as int));
                assert(hv.take(i + 1).last() == hv[i as int]);
            }
            let hash = &approved[i];
            match self.mempool.get(hash) {
                None => {},
                Some(tx) => {
                    if tx.verify_signature() {
                        let ok = scratch.apply_tx(tx);
                        if ok {
                            match hfind(proposer_of, hash) {
                                Some(k) => {
                                    proof {
                                        lemma_hentry(proposer_of@, k as int);
                                    }
                                    if total > u64::MAX - tx.fee {
                                        proof {
                                            assert(plan(pool, bal, r0, props, hv.take(i + 1)) == plan_step(p0, pool, props, hv[i as int]));
                                            assert(plan(pool, bal, r0, props, hv.take(i + 1)).total == total + tx.fee);
                                            lemma_plan_total_prefix(pool, bal, r0, props, hv, i + 1);
                                        }
                                        return None;
                                    }
                                    total = total + tx.fee;
                                },
                                None => {},
                            }
                            count = count + 1;
                        }
                    }
                },
            }
            proof {
                assert(plan(pool, bal, r0, props, hv.take(i + 1)) == plan_step(p0, pool, props, hv[i as int]));
            }
            i = i + 1;
        }
        proof {
            assert(hv.take(n as int) =~= hv);
        }
        Some((total, count))
    }

    /// Whether finalization runs at `step`: every `FINALIZATION_INTERVAL` steps, not at 0.
    pub fn should_finalize(step: u64) -> (b: bool)
        ensures
            b == (step > 0 && step % FINALIZATION_INTERVAL == 0),
    {
        step > 0 && step % FINALIZATION_INTERVAL == 0
    }

    /// Builds and signs a transaction from `sender` and offers it to the pool as
    /// `add_transaction` does: its nonce is `next_nonce_spec`, its parents are up
    /// to `SUBMIT_PARENTS` random tips. Returns whether it was admitted, and the
    /// signed transaction (to be gossiped when it was).
    pub fn submit_transaction_with_fee(
        &mut self,
        sender: String,
        receiver: String,
        amount: u64,
        fee: u64,
        signing_key: &ed25519_dalek::SigningKey,
    ) -> (r: (bool, Transaction))
        requires
            old(self).wf(),
            old(self).mempool.next_stamp() < u64::MAX,
            next_nonce_spec(old(self).ledger@, old(self).mempool.model(), sender@) <= u64::MAX,
        ensures
            final(self).wf(),
            r.1@.sender == sender@,
            r.1@.receiver == receiver@,
            r.1.amount == amount,
            r.1.fee == fee,
            r.1.nonce == next_nonce_spec(old(self).ledger@, old(self).mempool.model(), sender@),
            r.1.kind == TxKind::Normal,
            r.1@.hash == tx_digest(r.1@),
            sig_valid(r.1@),
            forall|seed: Seq<u8>| #[trigger] ed25519_seed_key(seed) == *signing_key
                ==> r.1@.public_key == Some(ed25519_seed_public_key(seed))
                && r.1@.signature == Some(ed25519_seed_signature(seed, r.1@.hash)),
            r.1@.parents.len() == if SUBMIT_PARENTS < tips_of(old(self).ledger@).len() {
                SUBMIT_PARENTS as nat
            } else {
                tips_of(old(self).ledger@).len()
            },
            forall|i: int| 0 <= i < r.1@.parents.len() ==> tips_of(old(self).ledger@).contains(#[trigger] r.1@.parents[i]),
            distinct_hashes(r.1@.parents),
            ({
                let checks = double_spend_free(old(self).ledger@, old(self).mempool.model(), r.1@)
                    && balance_of(old(self).state@, sender@) >= total_cost_spec(r.1@);
                &&& r.0 == (checks && accepts_spec(old(self).mempool.model(), r.1@))
                &&& final(self).mempool.model() == if checks {
                    add_spec(old(self).mempool.model(), r.1@)
                } else {
                    old(self).mempool.model()
                }
            }),
            final(self).mempool.path() == old(self).mempool.path(),
            final(self).ledger == old(self).ledger,
            final(self).state == old(self).state,
            final(self).retries() == old(self).retries(),
    {
        let mempool_last: u64 = match self.mempool.get_last_nonce(sender.as_str()) {
            Some(n) => n,
            None => 0,
        };
        let ledger_last: u64 = match self.ledger.last_finalized_nonce(sender.as_str()) {
            Some(n) => n,
            None => 0,
        };
        let next_nonce: u64 = if mempool_last >= ledger_last { mempool_last + 1 } else { ledger_last + 1 };
        let parents = self.select_parents(SUBMIT_PARENTS);
        let ghost pv = parents@;
        let mut tx = Transaction::new_with_fee(sender, receiver, amount, next_nonce, fee, parents);
        proof {
            assert forall|k: int| 0 <= k < pv.len() implies #[trigger] tx@.parents[k] == hash_views(pv)[k] by {
                assert(pv[k].deep_view() =~= pv[k]@);
            }
            assert(tx@.parents =~= hash_views(pv));
        }
        tx.sign(signing_key);
        if !tx.verify_signature() {
            return (false, tx);
        }
        let copy = tx.duplicate();
        let ok = self.add_transaction(tx);
        (ok, copy)
    }

    /// Picks `min(count, number of tips)` distinct tips of the ledger at random.
    pub fn select_parents(&self, count: usize) -> (r: Vec<[u8; 32]>)
        requires
            self.wf(),
        ensures
            r@.len() == if count < tips_of(self.ledger@).len() { count as nat } else { tips_of(self.ledger@).len() },
            forall|i: int| 0 <= i < r@.len() ==> tips_of(self.ledger@).contains(#[trigger] r@[i]@),
            distinct_hashes(hash_views(r@)),
    {
        let tips = self.ledger.get_tips();
        let ghost t = tips_of(self.ledger@);
        let mut pool: Vec<[u8; 32]> = Vec::new();
        let mut i: usize = 0;
        while i < tips.len()
            invariant
                i <= tips@.len(),
                pool@.len() == i,
                forall|k: int| 0 <= k < i ==> (#[trigger] pool@[k])@ == tips@[k]@,
            decreases tips@.len() - i,
        {
            let h: [u8; 32] = *tips[i];
            pool.push(h);
            i = i + 1;
        }
        proof {
            let s = hash_views(pool@);
            assert(s.no_duplicates()) by {
                assert forall|a: int, b: int| 0 <= a < s.len() && 0 <= b < s.len() && a != b implies s[a] != s[b] by {
                    if a < b {
                        assert(tips@[a]@ != tips@[b]@);
                    } else {
                        assert(tips@[b]@ != tips@[a]@);
                    }
                }
            }
            assert(s.to_set() =~= t) by {
                assert forall|h: Seq<u8>| t.contains(h) implies s.to_set().contains(h) by {
                    let k = choose|k: int| 0 <= k < tips@.len() && tips@[k]@ == h;
                    assert(s[k] == h);
                }
                assert forall|h: Seq<u8>| s.to_set().contains(h) implies t.contains(h) by {
                    let k = choose|k: int| 0 <= k < s.len() && s[k] == h;
                    assert(tips@[k]@ == h);
                }
            }
            s.unique_seq_to_set();
        }
        let actual: usize = if count < pool.len() { count } else { pool.len() };
        let mut selected: Vec<[u8; 32]> = Vec::new();
        while selected.len() < actual
            invariant
                selected@.len() <= actual <= selected@.len() + pool@.len(),
                actual == if count < t.len() { count as nat } else { t.len() },
                t == tips_of(self.ledger@),
                distinct_hashes(hash_views(selected@ + pool@)),
                forall|k: int| 0 <= k < selected@.len() + pool@.len() ==> t.contains(#[trigger] (selected@ + pool@)[k]@),
            decreases actual - selected@.len(),
        {
            let n: u64 = pool.len() as u64;
            let k: usize = (random_u64() % n) as usize;
            let ghost before = selected@ + pool@;
            let h = pool.remove(k);
            selected.push(h);
            proof {
                let after = selected@ + pool@;
                let m = selected@.len() - 1;
                // `after` is `before` with the element at `m + k` moved to position `m`.
                assert forall|a: int| 0 <= a < after.len() implies #[trigger] after[a] == before[
                    if a < m { a } else if a == m { m + k } else if a <= m + k { a - 1 } else { a }
                ] by {}
                assert forall|a: int, b: int| 0 <= a < b < after.len() implies (#[trigger] hash_views(after)[a]) != (#[trigger] hash_views(after)[b]) by {
                    let ia = if a < m { a } else if a == m { m + k } else if a <= m + k { a - 1 } else { a };
                    let ib = if b < m { b } else if b == m { m + k } else if b <= m + k { b - 1 } else { b };
                    assert(after[a] == before[ia]);
                    assert(after[b] == before[ib]);
                    if ia < ib {
                        assert(hash_views(before)[ia] != hash_views(before)[ib]);
                    } else {
                        assert(hash_views(before)[ib] != hash_views(before)[ia]);
                    }
                }
                assert forall|a: int| 0 <= a < after.len() implies t.contains(#[trigger] after[a]@) by {
                    let ia = if a < m { a } else if a == m { m + k } else if a <= m + k { a - 1 } else { a };
                    assert(after[a] == before[ia]);
                    assert(t.contains(before[ia]@));
                }
            }
        }
        proof {
            assert forall|a: int| 0 <= a < selected@.len() implies t.contains(#[trigger] selected@[a]@) by {
                assert(selected@[a] == (selected@ + pool@)[a]);
            }
            assert forall|a: int, b: int| 0 <= a < b < selected@.len() implies (#[trigger] hash_views(selected@)[a]) != (#[trigger] hash_views(selected@)[b]) by {
                assert(selected@[a] == (selected@ + pool@)[a]);
                assert(selected@[b] == (selected@ + pool@)[b]);
                assert(hash_views(selected@ + pool@)[a] != hash_views(selected@ + pool@)[b]);
            }
        }
        selected
    }

    /// Installs a snapshot received from a peer: the ledger's entries, edges and
    /// next batch id and all balances are replaced by the snapshot's, and both
    /// are left marked as changed, to be written out. Returns the resulting
    /// numbers of ledger entries and accounts.
    pub fn apply_snapshot(&mut self, snap: &SnapshotResponse) -> (r: (usize, usize))
        requires
            old(self).wf(),
        ensures
            final(self).wf(),
            final(self).ledger@ == (LedgerModel {
                entries: entries_of(snap.ledger@.entries),
                edges: last_wins(snap.ledger@.dag_edges),
                ..old(self).ledger@
            }),
            final(self).ledger.next_batch() == snap.ledger.next_batch_id,
            final(self).ledger.is_dirty_spec(),
            final(self).ledger.path() == old(self).ledger.path(),
            final(self).state@ == last_wins(balance_entries(snap.state.balances@)),
            final(self).state.is_dirty_spec(),
            final(self).state.path() == old(self).state.path(),
            final(self).mempool == old(self).mempool,
            final(self).retries() == old(self).retries(),
            r.0 == final(self).ledger@.entries.len(),
            r.1 == final(self).state@.len(),
    {
        let r = snap.apply(&mut self.ledger, &mut self.state);
        proof {
            assert(self.retries() == old(self).retries());
        }
        r
    }
}

/// A prefix's planned total is at most the whole plan's.
pub proof fn lemma_plan_total_prefix(
    pool: Map<Seq<u8>, TxView>,
    bal: Map<Seq<char>, u64>,
    r0: Map<Seq<u8>, u32>,
    proposers: Map<Seq<u8>, Seq<char>>,
    hs: Seq<Seq<u8>>,
    j: int,
)
    requires
        0 <= j <= hs.len(),
    ensures
        0 <= plan(pool, bal, r0, proposers, hs.take(j)).total <= plan(pool, bal, r0, proposers, hs).total,
    decreases hs.len(),
{
    if hs.len() == 0 {
        assert(hs.take(j) =~= hs);
    } else if j == hs.len() {
        assert(hs.take(j) =~= hs);
        lemma_plan_total_prefix(pool, bal, r0, proposers, hs.drop_last(), j - 1);
    } else {
        lemma_plan_total_prefix(pool, bal, r0, proposers, hs.drop_last(), j);
        assert(hs.drop_last().take(j) =~= hs.take(j));
    }
}

/// The pool after raising the last nonce of each sender `s` with `up(s)` to its
/// last finalized nonce, remembering that nonce.
pub open spec fn lift_all(l: LedgerModel, m: MempoolModel, up: spec_fn(Seq<char>) -> bool) -> MempoolModel {
    MempoolModel {
        last: Map::new(|s: Seq<char>| m.last.contains_key(s) || up(s), |s: Seq<char>| if up(s) { l.last[s] } else { m.last[s] }),
        histories: Map::new(
            |s: Seq<char>| m.histories.contains_key(s) || up(s),
            |s: Seq<char>| if up(s) { trim_history(history_of(m.histories, s).push(l.last[s])) } else { m.histories[s] },
        ),
        dirty: m.dirty || exists|s: Seq<char>| #[trigger] up(s),
        ..m
    }
}

/// Whether the pool's last nonce for `s` is raised when assembling: `s` sent a
/// finalized transaction and its last finalized nonce is above its last nonce
/// in the pool (0 when none).
pub open spec fn lifted(l: LedgerModel, m: MempoolModel, s: Seq<char>) -> bool {
    &&& exists|h: Seq<u8>| #[trigger] l.entries.contains_key(h) && l.entries[h].tx.sender == s
    &&& l.last.contains_key(s)
    &&& l.last[s] > (if m.last.contains_key(s) { m.last[s] } else { 0 })
}

/// `lifted`, restricted to the senders of the entries keyed by `keys`.
pub open spec fn lifted_within(l: LedgerModel, m: MempoolModel, keys: Seq<Seq<u8>>, s: Seq<char>) -> bool {
    &&& exists|q: int| 0 <= q < keys.len() && l.entries[#[trigger] keys[q]].tx.sender == s
    &&& l.last.contains_key(s)
    &&& l.last[s] > (if m.last.contains_key(s) { m.last[s] } else { 0 })
}

/// The `(hash, sender)` pairs of the hashes the proposals saw, proposal by
/// proposal, in order.
pub open spec fn sightings(props: Seq<(Seq<char>, Seq<Seq<u8>>)>) -> Seq<(Seq<u8>, Seq<char>)>
    decreases props.len(),
{
    if props.len() == 0 {
        Seq::empty()
    } else {
        let (sender, seen) = props.last();
        sightings(props.drop_last()) + seen.map_values(|h: Seq<u8>| (h, sender))
    }
}

/// How many sightings `h` has.
pub open spec fn votes_for(occ: Seq<(Seq<u8>, Seq<char>)>, h: Seq<u8>) -> nat
    decreases occ.len(),
{
    if occ.len() == 0 {
        0
    } else {
        votes_for(occ.drop_last(), h) + if occ.last().0 == h { 1nat } else { 0nat }
    }
}

/// The sender of the first sighting of `h`.
pub open spec fn first_seer(occ: Seq<(Seq<u8>, Seq<char>)>, h: Seq<u8>) -> Seq<char>
    decreases occ.len(),
{
    if occ.len() == 0 {
        Seq::empty()
    } else if occ[0].0 == h {
        occ[0].1
    } else {
        first_seer(occ.drop_first(), h)
    }
}

/// The last `n` items of `s` (all of them when there are fewer).
pub open spec fn keep_last<A>(s: Seq<A>, n: nat) -> Seq<A> {
    if s.len() > n {
        s.skip(s.len() - n)
    } else {
        s
    }
}

/// Appends the common tips of a round to the history of recent rounds, keeping
/// only the last `PREDICTIVE_MOMENTUM_HISTORY` rounds.
pub fn record_common_tips(history: &mut Vec<Vec<[u8; 32]>>, tips: Vec<[u8; 32]>)
    ensures
        final(history)@ == keep_last(old(history)@.push(tips), PREDICTIVE_MOMENTUM_HISTORY as nat),
{
    let ghost full = history@.push(tips);
    history.push(tips);
    let ghost mut dropped: int = 0;
    while history.len() > PREDICTIVE_MOMENTUM_HISTORY
        invariant
            0 <= dropped <= full.len(),
            history@ == full.skip(dropped),
            dropped > 0 ==> full.len() - dropped >= PREDICTIVE_MOMENTUM_HISTORY,
        decreases history@.len(),
    {
        history.remove(0);
        proof {
            assert(full.skip(dropped).remove(0) =~= full.skip(dropped + 1));
            dropped = dropped + 1;
        }
    }
    proof {
        if full.len() > PREDICTIVE_MOMENTUM_HISTORY {
            assert(dropped == full.len() - PREDICTIVE_MOMENTUM_HISTORY);
        } else {
            assert(dropped == 0);
            assert(full.skip(0) =~= full);
        }
    }
}

/// The views of `(sender, seen hashes)` lists.
pub open spec fn seen_views(v: Seq<(String, Vec<[u8; 32]>)>) -> Seq<(Seq<char>, Seq<Seq<u8>>)> {
    v.map_values(|e: (String, Vec<[u8; 32]>)| (e.0@, hash_views(e.1@)))
}

/// The approval count of a consensus round. Every hash some proposal saw gets a
/// vote per sighting and, as proposer, the sender of its first sighting. Returns
/// the hashes with at least `threshold` votes (each once, in order of first
/// sighting) and the proposer of every seen hash (each once).
pub fn tally_approvals(proposals: &Vec<(String, Vec<[u8; 32]>)>, threshold: usize) -> (r: (Vec<[u8; 32]>, Vec<([u8; 32], String)>))
    requires
        sightings(seen_views(proposals@)).len() <= usize::MAX,
    ensures
        distinct_hashes(hash_views(r.0@)),
        forall|h: Seq<u8>| #[trigger] hash_views(r.0@).contains(h) <==> (exists|i: int|
            0 <= i < sightings(seen_views(proposals@)).len() && sightings(seen_views(proposals@))[i].0 == h)
            && votes_for(sightings(seen_views(proposals@)), h) >= threshold,
        keys_unique(hentries(r.1@)),
        forall|h: Seq<u8>| #[trigger] to_map(hentries(r.1@)).contains_key(h) <==> exists|i: int|
            0 <= i < sightings(seen_views(proposals@)).len() && sightings(seen_views(proposals@))[i].0 == h,
        forall|h: Seq<u8>| #[trigger] to_map(hentries(r.1@)).contains_key(h) ==> to_map(hentries(r.1@))[h] == first_seer(
            sightings(seen_views(proposals@)),
            h,
        ),
        forall|a: int, b: int| 0 <= a < b < r.0@.len()
            ==> seen_before(sightings(seen_views(proposals@)), (#[trigger] r.0@[a])@, (#[trigger] r.0@[b])@),
{
    let ghost pv = seen_views(proposals@);
    let mut votes: Vec<([u8; 32], usize)> = Vec::new();
    let mut proposer_of: Vec<([u8; 32], String)> = Vec::new();
    let mut pi: usize = 0;
    while pi < proposals.len()
        invariant
            pv == seen_views(proposals@),
            sightings(pv).len() <= usize::MAX,
            pi <= proposals@.len(),
            keys_unique(hentries(votes@)),
            keys_unique(hentries(proposer_of@)),
            votes_inv(to_map(hentries(votes@)), to_map(hentries(proposer_of@)), sightings(pv.take(pi as int))),
            sight_ordered(hentries(votes@), sightings(pv.take(pi as int))),
        decreases proposals@.len() - pi,
    {
        let sender = &proposals[pi].0;
        let seen = &proposals[pi].1;
        let ghost base = sightings(pv.take(pi as int));
        let ghost add = hash_views(seen@).map_values(|h: Seq<u8>| (h, sender@));
        proof {
            assert(pv.take(pi + 1).drop_last() =~= pv.take(pi as int));
            assert(pv.take(pi + 1).last() == pv[pi as int]);
            assert(sightings(pv.take(pi + 1)) == base + add);
            lemma_sightings_prefix(pv, pi + 1);
            assert(add.take(0) =~= Seq::<(Seq<u8>, Seq<char>)>::empty());
            assert(base + add.take(0) =~= base);
        }
        let mut k: usize = 0;
        while k < seen.len()
            invariant
                k <= seen@.len(),
                add == hash_views(seen@).map_values(|h: Seq<u8>| (h, sender@)),
                (base + add).len() <= usize::MAX,
                keys_unique(hentries(votes@)),
                keys_unique(hentries(proposer_of@)),
                votes_inv(to_map(hentries(votes@)), to_map(hentries(proposer_of@)), base + add.take(k as int)),
                sight_ordered(hentries(votes@), base + add.take(k as int)),
            decreases seen@.len() - k,
        {
            let h = &seen[k];
            let ghost occ0 = base + add.take(k as int);
            let ghost occ1 = base + add.take(k + 1);
            proof {
                assert(occ1 =~= occ0.push((h@, sender@)));
                assert(occ1.drop_last() =~= occ0);
            }
            let ghost vm0 = to_map(hentries(votes@));
            let ghost pm0 = to_map(hentries(proposer_of@));
            let ghost ve0 = hentries(votes@);
            proof {
                assert forall|a: int| 0 <= a < ve0.len() implies seen_in(occ0, #[trigger] ve0[a].0) by {
                    crate::maps::lemma_to_map_index(ve0, a);
                }
                lemma_sight_ordered_push(ve0, occ0, (h@, sender@), 1);
            }
            match hfind(&votes, h) {
                Some(i) => {
                    proof {
                        lemma_hentry(votes@, i as int);
                        lemma_votes_bound(occ0, h@);
                        assert(occ0.len() < (base + add).len());
                    }
                    let c = votes[i].1;
                    hset(&mut votes, h, c + 1);
                    proof {
                        lemma_tally_seen(vm0, pm0, occ0, h@, sender@);
                        let ve1 = hentries(votes@);
                        assert(has_key(ve0, h@)) by {
                            assert(ve0[i as int].0 == h@);
                        }
                        assert forall|a: int, b: int| 0 <= a < b < ve1.len() implies seen_before(occ1, #[trigger] ve1[a].0, #[trigger] ve1[b].0) by {
                            assert(ve1[a].0 == ve0[a].0 && ve1[b].0 == ve0[b].0);
                        }
                    }
                },
                None => {
                    proof {
                        assert(!vm0.contains_key(h@));
                        assert(!seen_in(occ0, h@));
                        assert(!pm0.contains_key(h@));
                    }
                    hset(&mut votes, h, 1);
                    proof {
                        assert(!has_key(hentries(proposer_of@), h@));
                        let ve1 = hentries(votes@);
                        assert(ve1 =~= ve0.push((h@, 1))) by {
                            assert forall|a: int| 0 <= a < ve1.len() implies ve1[a] == ve0.push((h@, 1usize))[a] by {
                                if a < ve0.len() {
                                    assert(ve1[a].0 == ve0[a].0);
                                    assert(to_map(ve1).contains_key(ve1[a].0));
                                    crate::maps::lemma_to_map_index(ve1, a);
                                    crate::maps::lemma_to_map_index(ve0, a);
                                }
                                if a == ve0.len() {
                                    crate::maps::lemma_to_map_index(ve1, a);
                                }
                            }
                        }
                    }
                    let ghost pr0 = proposer_of@;
                    proposer_of.push((*h, sender.clone()));
                    proof {
                        assert(hentries(proposer_of@) =~= hentries(pr0).push((h@, sender@)));
                        crate::maps::lemma_to_map_push(hentries(pr0), h@, sender@);
                        lemma_tally_new(vm0, pm0, occ0, h@, sender@);
                    }
                },
            }
            k = k + 1;
        }
        proof {
            assert(add.take(seen@.len() as int) =~= add);
        }
        pi = pi + 1;
    }
    proof {
        assert(pv.take(proposals@.len() as int) =~= pv);
    }
    let ghost occ = sightings(pv);
    let mut approved: Vec<[u8; 32]> = Vec::new();
    let ghost mut idx: Seq<int> = Seq::empty();
    let mut j: usize = 0;
    while j < votes.len()
        invariant
            sight_ordered(hentries(votes@), occ),
            idx.len() == approved@.len(),
            forall|q: int| 0 <= q < idx.len() ==> 0 <= #[trigger] idx[q] < j && approved@[q]@ == votes@[idx[q]].0@,
            forall|a: int, b: int| 0 <= a < b < idx.len() ==> #[trigger] idx[a] < #[trigger] idx[b],
            keys_unique(hentries(votes@)),
            keys_unique(hentries(proposer_of@)),
            votes_inv(to_map(hentries(votes@)), to_map(hentries(proposer_of@)), occ),
            j <= votes@.len(),
            distinct_hashes(hash_views(approved@)),
            forall|h: Seq<u8>| #[trigger] hash_views(approved@).contains(h) <==> exists|q: int| 0 <= q < j
                && votes@[q].0@ == h && votes@[q].1 >= threshold,
        decreases votes@.len() - j,
    {
        let ghost a0 = hash_views(approved@);
        if votes[j].1 >= threshold {
            approved.push(votes[j].0);
            proof {
                idx = idx.push(j as int);
                assert(hash_views(approved@) =~= a0.push(votes@[j as int].0@));
                assert(!a0.contains(votes@[j as int].0@)) by {
                    if a0.contains(votes@[j as int].0@) {
                        let q = choose|q: int| 0 <= q < j && votes@[q].0@ == votes@[j as int].0@ && votes@[q].1 >= threshold;
                        assert(hentries(votes@)[q].0 != hentries(votes@)[j as int].0);
                    }
                }
            }
        }
        proof {
            assert forall|h: Seq<u8>| #[trigger] hash_views(approved@).contains(h) <==> exists|q: int| 0 <= q < j + 1
                && votes@[q].0@ == h && votes@[q].1 >= threshold by {
                if hash_views(approved@).contains(h) && !a0.contains(h) {
                    assert(votes@[j as int].0@ == h);
                }
                if exists|q: int| 0 <= q < j + 1 && votes@[q].0@ == h && votes@[q].1 >= threshold {
                    let q = choose|q: int| 0 <= q < j + 1 && votes@[q].0@ == h && votes@[q].1 >= threshold;
                    if q < j {
                        assert(a0.contains(h));
                        let w = choose|w: int| 0 <= w < a0.len() && a0[w] == h;
                        assert(hash_views(approved@)[w] == h);
                    } else {
                        assert(hash_views(approved@)[hash_views(approved@).len() - 1] == h);
                    }
                }
            }
        }
        j = j + 1;
    }
    proof {
        assert forall|h: Seq<u8>| #[trigger] hash_views(approved@).contains(h) <==> (exists|i: int|
            0 <= i < occ.len() && occ[i].0 == h) && votes_for(occ, h) >= threshold by {
            if hash_views(approved@).contains(h) {
                let q = choose|q: int| 0 <= q < votes@.len() && votes@[q].0@ == h && votes@[q].1 >= threshold;
                lemma_hentry(votes@, q);
            }
            if (exists|i: int| 0 <= i < occ.len() && occ[i].0 == h) && votes_for(occ, h) >= threshold {
                assert(to_map(hentries(votes@)).contains_key(h));
                let e = hentries(votes@);
                let q = choose|q: int| 0 <= q < e.len() && (#[trigger] e[q]).0 == h;
                lemma_hentry(votes@, q);
            }
        }
        let e = hentries(votes@);
        assert forall|a: int, b: int| 0 <= a < b < approved@.len()
            implies seen_before(occ, (#[trigger] approved@[a])@, (#[trigger] approved@[b])@) by {
            assert(idx[a] < idx[b]);
            assert(e[idx[a]].0 == approved@[a]@ && e[idx[b]].0 == approved@[b]@);
        }
    }
    (approved, proposer_of)
}

/// `x` is seen before `y` is first seen.
pub open spec fn seen_before(occ: Seq<(Seq<u8>, Seq<char>)>, x: Seq<u8>, y: Seq<u8>) -> bool {
    exists|i: int| 0 <= i < occ.len() && occ[i].0 == x && forall|j: int| 0 <= j <= i ==> occ[j].0 != y
}

/// The keys of `e` come in the order of their first sightings in `occ`.
pub open spec fn sight_ordered(e: Seq<(Seq<u8>, usize)>, occ: Seq<(Seq<u8>, Seq<char>)>) -> bool {
    forall|a: int, b: int| 0 <= a < b < e.len() ==> seen_before(occ, #[trigger] e[a].0, #[trigger] e[b].0)
}

/// A later sighting does not change which hash was seen first.
proof fn lemma_seen_before_push(occ: Seq<(Seq<u8>, Seq<char>)>, x: Seq<u8>, y: Seq<u8>, p: (Seq<u8>, Seq<char>))
    requires
        seen_before(occ, x, y),
    ensures
        seen_before(occ.push(p), x, y),
{
    let i = choose|i: int| 0 <= i < occ.len() && occ[i].0 == x && forall|j: int| 0 <= j <= i ==> occ[j].0 != y;
    assert(occ.push(p)[i] == occ[i]);
    assert forall|j: int| 0 <= j <= i implies occ.push(p)[j].0 != y by {
        assert(occ.push(p)[j] == occ[j]);
    }
}

/// Ordered keys stay ordered after one more sighting; a hash first seen now
/// comes after every hash seen before.
proof fn lemma_sight_ordered_push(e: Seq<(Seq<u8>, usize)>, occ: Seq<(Seq<u8>, Seq<char>)>, p: (Seq<u8>, Seq<char>), v: usize)
    requires
        sight_ordered(e, occ),
        forall|a: int| 0 <= a < e.len() ==> seen_in(occ, #[trigger] e[a].0),
    ensures
        sight_ordered(e, occ.push(p)),
        !seen_in(occ, p.0) ==> sight_ordered(e.push((p.0, v)), occ.push(p)),
{
    let occ1 = occ.push(p);
    assert forall|a: int, b: int| 0 <= a < b < e.len() implies seen_before(occ1, #[trigger] e[a].0, #[trigger] e[b].0) by {
        lemma_seen_before_push(occ, e[a].0, e[b].0, p);
    }
    if !seen_in(occ, p.0) {
        let e1 = e.push((p.0, v));
        assert forall|a: int, b: int| 0 <= a < b < e1.len() implies seen_before(occ1, #[trigger] e1[a].0, #[trigger] e1[b].0) by {
            if b < e.len() {
                assert(e1[a] == e[a] && e1[b] == e[b]);
            } else {
                assert(e1[a] == e[a]);
                assert(seen_in(occ, e[a].0));
                let i = choose|i: int| 0 <= i < occ.len() && occ[i].0 == e[a].0;
                assert(occ1[i] == occ[i]);
                assert forall|j: int| 0 <= j <= i implies occ1[j].0 != p.0 by {
                    assert(occ1[j] == occ[j]);
                }
            }
        }
    }
}

/// Whether `h` has a sighting in `occ`.
pub open spec fn seen_in(occ: Seq<(Seq<u8>, Seq<char>)>, h: Seq<u8>) -> bool {
    exists|i: int| 0 <= i < occ.len() && occ[i].0 == h
}

/// The vote and proposer tables describe the sightings `occ`: both are keyed by
/// the seen hashes, with the vote count and the first seer of each.
pub open spec fn votes_inv(vm: Map<Seq<u8>, usize>, pm: Map<Seq<u8>, Seq<char>>, occ: Seq<(Seq<u8>, Seq<char>)>) -> bool {
    &&& forall|h: Seq<u8>| #[trigger] vm.contains_key(h) <==> seen_in(occ, h)
    &&& forall|h: Seq<u8>| #[trigger] pm.contains_key(h) <==> seen_in(occ, h)
    &&& forall|h: Seq<u8>| #[trigger] vm.contains_key(h) ==> vm[h] == votes_for(occ, h)
    &&& forall|h: Seq<u8>| #[trigger] pm.contains_key(h) ==> pm[h] == first_seer(occ, h)
}

/// A hash with no sighting has no votes.
proof fn lemma_votes_absent(occ: Seq<(Seq<u8>, Seq<char>)>, h: Seq<u8>)
    requires
        forall|i: int| 0 <= i < occ.len() ==> occ[i].0 != h,
    ensures
        votes_for(occ, h) == 0,
    decreases occ.len(),
{
    if occ.len() > 0 {
        lemma_votes_absent(occ.drop_last(), h);
    }
}

/// A hash has at most as many votes as there are sightings.
proof fn lemma_votes_bound(occ: Seq<(Seq<u8>, Seq<char>)>, h: Seq<u8>)
    ensures
        votes_for(occ, h) <= occ.len(),
    decreases occ.len(),
{
    if occ.len() > 0 {
        lemma_votes_bound(occ.drop_last(), h);
    }
}

/// A later sighting does not change the first seer of a hash already seen.
proof fn lemma_first_seer_push(occ: Seq<(Seq<u8>, Seq<char>)>, e: (Seq<u8>, Seq<char>), h: Seq<u8>)
    requires
        exists|i: int| 0 <= i < occ.len() && occ[i].0 == h,
    ensures
        first_seer(occ.push(e), h) == first_seer(occ, h),
    decreases occ.len(),
{
    if occ[0].0 != h {
        let i = choose|i: int| 0 <= i < occ.len() && occ[i].0 == h;
        assert(occ.drop_first()[i - 1].0 == h);
        lemma_first_seer_push(occ.drop_first(), e, h);
        assert(occ.push(e).drop_first() =~= occ.drop_first().push(e));
    }
}

/// The first sighting of a new hash names its seer.
proof fn lemma_first_seer_new(occ: Seq<(Seq<u8>, Seq<char>)>, h: Seq<u8>, s: Seq<char>)
    requires
        forall|i: int| 0 <= i < occ.len() ==> occ[i].0 != h,
    ensures
        first_seer(occ.push((h, s)), h) == s,
    decreases occ.len(),
{
    if occ.len() > 0 {
        lemma_first_seer_new(occ.drop_first(), h, s);
        assert(occ.push((h, s)).drop_first() =~= occ.drop_first().push((h, s)));
    }
}

/// Recording a sighting of a hash already seen adds one vote.
proof fn lemma_tally_seen(vm: Map<Seq<u8>, usize>, pm: Map<Seq<u8>, Seq<char>>, occ: Seq<(Seq<u8>, Seq<char>)>, h: Seq<u8>, s: Seq<char>)
    requires
        votes_inv(vm, pm, occ),
        vm.contains_key(h),
        vm[h] + 1 <= usize::MAX,
    ensures
        votes_inv(vm.insert(h, (vm[h] + 1) as usize), pm, occ.push((h, s))),
{
    let occ1 = occ.push((h, s));
    assert(occ1.drop_last() =~= occ);
    assert forall|x: Seq<u8>| #[trigger] seen_in(occ1, x) <==> seen_in(occ, x) by {
        if exists|i: int| 0 <= i < occ1.len() && occ1[i].0 == x {
            let i = choose|i: int| 0 <= i < occ1.len() && occ1[i].0 == x;
            if i == occ.len() {
                assert(vm.contains_key(x));
            } else {
                assert(occ[i].0 == x);
            }
        }
        if exists|i: int| 0 <= i < occ.len() && occ[i].0 == x {
            let i = choose|i: int| 0 <= i < occ.len() && occ[i].0 == x;
            assert(occ1[i].0 == x);
        }
    }
    assert forall|x: Seq<u8>| #[trigger] pm.contains_key(x) implies pm[x] == first_seer(occ1, x) by {
        lemma_first_seer_push(occ, (h, s), x);
    }
}

/// Recording the first sighting of a hash gives it one vote and its seer.
proof fn lemma_tally_new(vm: Map<Seq<u8>, usize>, pm: Map<Seq<u8>, Seq<char>>, occ: Seq<(Seq<u8>, Seq<char>)>, h: Seq<u8>, s: Seq<char>)
    requires
        votes_inv(vm, pm, occ),
        !vm.contains_key(h),
    ensures
        votes_inv(vm.insert(h, 1), pm.insert(h, s), occ.push((h, s))),
{
    let occ1 = occ.push((h, s));
    assert(occ1.drop_last() =~= occ);
    assert(forall|i: int| 0 <= i < occ.len() ==> occ[i].0 != h);
    lemma_votes_absent(occ, h);
    lemma_first_seer_new(occ, h, s);
    assert forall|x: Seq<u8>| x != h implies (#[trigger] seen_in(occ1, x) <==> seen_in(occ, x)) by {
        if exists|i: int| 0 <= i < occ1.len() && occ1[i].0 == x {
            let i = choose|i: int| 0 <= i < occ1.len() && occ1[i].0 == x;
            assert(occ[i].0 == x);
        }
        if exists|i: int| 0 <= i < occ.len() && occ[i].0 == x {
            let i = choose|i: int| 0 <= i < occ.len() && occ[i].0 == x;
            assert(occ1[i].0 == x);
        }
    }
    assert(occ1[occ.len() as int].0 == h);
    assert forall|x: Seq<u8>| #[trigger] pm.contains_key(x) implies pm[x] == first_seer(occ1, x) by {
        lemma_first_seer_push(occ, (h, s), x);
    }
}

/// The sightings of a prefix of the proposals are a prefix of all sightings.
proof fn lemma_sightings_prefix(props: Seq<(Seq<char>, Seq<Seq<u8>>)>, j: int)
    requires
        0 <= j <= props.len(),
    ensures
        sightings(props.take(j)).len() <= sightings(props).len(),
    decreases props.len() - j,
{
    if j < props.len() {
        lemma_sightings_prefix(props, j + 1);
        assert(props.take(j + 1).drop_last() =~= props.take(j));
    } else {
        assert(props.take(j) =~= props);
    }
}

/// No double spend through the pool: once a transaction is admitted, no other
/// transaction with the same sender and nonce is double-spend free any more.
pub proof fn law_pool_nonce_not_reusable(l: LedgerModel, m: MempoolModel, t: TxView, t2: TxView)
    requires
        double_spend_free(l, m, t),
        accepts_spec(m, t),
        t2.sender == t.sender,
        t2.nonce == t.nonce,
    ensures
        !double_spend_free(l, add_spec(m, t), t2),
{
    crate::mempool::law_accepted_nonce_known(m, t);
}

/// No double spend through the ledger: once a transaction is finalized, no
/// transaction with the same sender and nonce is double-spend free.
pub proof fn law_finalized_nonce_rejected(l: LedgerModel, m: MempoolModel, t: TxView, batch: u64, t2: TxView)
    requires
        t2.sender == t.sender,
        t2.nonce == t.nonce,
    ensures
        !double_spend_free(crate::ledger::record_user(l, t, batch), m, t2),
{
    assert(crate::ledger::record_user(l, t, batch).nonces.contains((t.sender, t.nonce)));
}

/// A transaction whose sender cannot pay is evicted on its third failed
/// balance check: with two failures recorded, the next one evicts it.
pub proof fn law_evicted_after_retries(
    p: FinalizePlan,
    pool: Map<Seq<u8>, TxView>,
    proposers: Map<Seq<u8>, Seq<char>>,
    h: Seq<u8>,
)
    requires
        pool.contains_key(h),
        sig_valid(pool[h]),
        balance_of(p.bal, pool[h].sender) < total_cost_spec(pool[h]),
        retry_of(p.retries, h) == MAX_FINALIZE_RETRIES - 1,
    ensures
        plan_step(p, pool, proposers, h).evict == p.evict.push(h),
        plan_step(p, pool, proposers, h).finalize == p.finalize,
{
}

/// Retry counts stay below `MAX_FINALIZE_RETRIES` between finalizations: a
/// count that reaches it is evicted together with its transaction.
pub proof fn law_retry_counts_bounded(
    pool: Map<Seq<u8>, TxView>,
    bal: Map<Seq<char>, u64>,
    r0: Map<Seq<u8>, u32>,
    proposers: Map<Seq<u8>, Seq<char>>,
    hs: Seq<Seq<u8>>,
)
    requires
        forall|h: Seq<u8>| #[trigger] r0.contains_key(h) ==> r0[h] < MAX_FINALIZE_RETRIES,
    ensures
        forall|h: Seq<u8>| #[trigger] plan(pool, bal, r0, proposers, hs).retries.contains_key(h)
            && !plan(pool, bal, r0, proposers, hs).evict.contains(h)
            ==> plan(pool, bal, r0, proposers, hs).retries[h] < MAX_FINALIZE_RETRIES,
    decreases hs.len(),
{
    if hs.len() > 0 {
        law_retry_counts_bounded(pool, bal, r0, proposers, hs.drop_last());
        let p0 = plan(pool, bal, r0, proposers, hs.drop_last());
        let p1 = plan(pool, bal, r0, proposers, hs);
        assert(p1 == plan_step(p0, pool, proposers, hs.last()));
        assert forall|h: Seq<u8>| #[trigger] p1.retries.contains_key(h) && !p1.evict.contains(h)
            implies p1.retries[h] < MAX_FINALIZE_RETRIES by {
            if h == hs.last() && pool.contains_key(h) && sig_valid(pool[h]) && balance_of(p0.bal, pool[h].sender) < total_cost_spec(pool[h]) {
                let c = retry_of(p0.retries, h) + 1;
                if c >= MAX_FINALIZE_RETRIES {
                    assert(p1.evict[p1.evict.len() - 1] == h);
                }
            } else {
                assert(p1.retries.contains_key(h) ==> p0.retries.contains_key(h) && p1.retries[h] == p0.retries[h]);
            }
            if p0.evict.contains(h) {
                let i = choose|i: int| 0 <= i < p0.evict.len() && p0.evict[i] == h;
                assert(p1.evict.len() >= p0.evict.len());
                assert(p1.evict[i] == h);
            }
        }
    }
}

} // verus!
