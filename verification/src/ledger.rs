//! The finalized part of the DAG: every confirmed transaction (and the reward
//! it paid), the parent-to-child edges between them, and indexes of the
//! finalized `(sender, nonce)` pairs that double-spend checks consult.
use vstd::prelude::*;
use crate::keyed::{hash_eq, hash_views, hentries, hfind, hset, lemma_hentry, lemma_sentry, sentries, sfind, sset};
use crate::maps::{has_key, keys_unique, last_wins, lemma_entries_len, lemma_last_wins_unique, lemma_map_sum, lemma_seq_sum_prefix, lemma_to_map_index, map_sum, seq_sum, to_map};
use crate::strings::str_eq;
use crate::cross_shard::TxKind;
use crate::transaction::{copy_hashes, tx_digest, tx_views, Transaction, TxView};

verus! {

/// Sender name of the reward transactions the ledger mints.
pub open spec fn system_sender() -> Seq<char> {
    "__system__"@
}

/// The sender name of reward transactions, `__system__`.
pub fn system_sender_str() -> (s: &'static str)
    ensures
        s@ == system_sender(),
{
    "__system__"
}

/// Why an entry is in the ledger.
#[derive(Debug)]
pub enum EntryType {
    /// A transaction submitted by a user.
    UserTx,
    /// The reward paid to the node that proposed `source_tx`.
    RewardTx { rewarded_node: String, source_tx: [u8; 32] },
}

/// The mathematical content of an `EntryType`.
pub enum EntryTypeView {
    UserTx,
    RewardTx { rewarded_node: Seq<char>, source_tx: Seq<u8> },
}

impl View for EntryType {
    type V = EntryTypeView;

    open spec fn view(&self) -> EntryTypeView {
        match self {
            EntryType::UserTx => EntryTypeView::UserTx,
            EntryType::RewardTx { rewarded_node, source_tx } => EntryTypeView::RewardTx {
                rewarded_node: rewarded_node@,
                source_tx: source_tx@,
            },
        }
    }
}

/// A finalized transaction with its role and the batch that finalized it.
#[derive(Debug)]
pub struct LedgerEntry {
    pub tx: Transaction,
    pub entry_type: EntryType,
    pub batch_id: u64,
}

/// The mathematical content of a `LedgerEntry`.
pub struct EntryView {
    pub tx: TxView,
    pub entry_type: EntryTypeView,
    pub batch_id: u64,
}

impl View for LedgerEntry {
    type V = EntryView;

    open spec fn view(&self) -> EntryView {
        EntryView { tx: self.tx@, entry_type: self.entry_type@, batch_id: self.batch_id }
    }
}

impl LedgerEntry {
    /// A copy of the entry.
    pub fn duplicate(&self) -> (r: Self)
        ensures
            r@ == self@,
    {
        let entry_type = match &self.entry_type {
            EntryType::UserTx => EntryType::UserTx,
            EntryType::RewardTx { rewarded_node, source_tx } => EntryType::RewardTx {
                rewarded_node: rewarded_node.clone(),
                source_tx: *source_tx,
            },
        };
        LedgerEntry { tx: self.tx.duplicate(), entry_type, batch_id: self.batch_id }
    }
}

/// The ledger as plain data, for persistence and snapshots.
#[derive(Debug)]
pub struct LedgerData {
    pub entries: Vec<LedgerEntry>,
    pub dag_edges: Vec<([u8; 32], Vec<[u8; 32]>)>,
    pub next_batch_id: u64,
}

/// The mathematical content of `LedgerData`.
pub struct LedgerDataView {
    pub entries: Seq<EntryView>,
    pub dag_edges: Seq<(Seq<u8>, Seq<Seq<u8>>)>,
    pub next_batch_id: u64,
}

impl View for LedgerData {
    type V = LedgerDataView;

    open spec fn view(&self) -> LedgerDataView {
        LedgerDataView {
            entries: self.entries@.map_values(|e: LedgerEntry| e@),
            dag_edges: self.dag_edges@.map_values(|e: ([u8; 32], Vec<[u8; 32]>)| (e.0@, hash_views(e.1@))),
            next_batch_id: self.next_batch_id,
        }
    }
}

/// Each entry paired with its transaction's hash.
pub open spec fn entry_pairs(es: Seq<EntryView>) -> Seq<(Seq<u8>, EntryView)> {
    es.map_values(|e: EntryView| (e.tx.hash, e))
}

/// Entries keyed by transaction hash; a later entry with the same hash wins.
pub open spec fn entries_of(es: Seq<EntryView>) -> Map<Seq<u8>, EntryView> {
    last_wins(entry_pairs(es))
}

/// `(sender, nonce)` of the finalized user transactions, that is, those not sent
/// by `__system__`.
pub open spec fn user_pairs(es: Map<Seq<u8>, EntryView>) -> Set<(Seq<char>, u64)> {
    Set::new(|k: (Seq<char>, u64)| exists|h: Seq<u8>| #[trigger] es.contains_key(h) && es[h].tx.sender != system_sender()
        && k == (es[h].tx.sender, es[h].tx.nonce))
}

/// `last` holds, for each sender with a positive nonce among `pairs`, its
/// greatest nonce, and nothing else.
pub open spec fn is_max_nonce_map(last: Map<Seq<char>, u64>, pairs: Set<(Seq<char>, u64)>) -> bool {
    &&& forall|s: Seq<char>| #[trigger] last.contains_key(s) <==> exists|n: u64| #[trigger] pairs.contains((s, n)) && n > 0
    &&& forall|s: Seq<char>| #[trigger] last.contains_key(s) ==> pairs.contains((s, last[s]))
    &&& forall|s: Seq<char>, n: u64| last.contains_key(s) && #[trigger] pairs.contains((s, n)) ==> n <= last[s]
}

/// Indexing one more pair keeps the last-nonce map a max map when the sender's
/// entry is raised exactly when the new nonce exceeds it (0 when absent).
proof fn lemma_max_nonce_step(l0: Map<Seq<char>, u64>, n0: Set<(Seq<char>, u64)>, s: Seq<char>, n: u64)
    requires
        is_max_nonce_map(l0, n0),
    ensures
        ({
            let cur = if l0.contains_key(s) { l0[s] } else { 0 };
            let l1 = if n > cur { l0.insert(s, n) } else { l0 };
            is_max_nonce_map(l1, n0.insert((s, n)))
        }),
{
    let cur = if l0.contains_key(s) { l0[s] } else { 0 };
    let l1 = if n > cur { l0.insert(s, n) } else { l0 };
    let n1 = n0.insert((s, n));
    assert forall|x: Seq<char>| #[trigger] l1.contains_key(x) <==> exists|m: u64| #[trigger] n1.contains((x, m)) && m > 0 by {
        if l1.contains_key(x) {
            if x == s && n > cur {
                assert(n1.contains((x, n)));
            } else {
                assert(l0.contains_key(x));
                let m = choose|m: u64| #[trigger] n0.contains((x, m)) && m > 0;
                assert(n1.contains((x, m)));
            }
        }
        if exists|m: u64| #[trigger] n1.contains((x, m)) && m > 0 {
            let m = choose|m: u64| #[trigger] n1.contains((x, m)) && m > 0;
            if (x, m) != (s, n) {
                assert(n0.contains((x, m)));
                assert(l0.contains_key(x));
            }
        }
    }
    assert forall|x: Seq<char>| #[trigger] l1.contains_key(x) implies n1.contains((x, l1[x])) by {
        if !(x == s && n > cur) {
            assert(n0.contains((x, l0[x])));
        }
    }
    assert forall|x: Seq<char>, m: u64| l1.contains_key(x) && #[trigger] n1.contains((x, m)) implies m <= l1[x] by {
        if (x, m) != (s, n) {
            assert(n0.contains((x, m)));
            if x == s && n > cur {
                assert(l0.contains_key(x) ==> m <= l0[x]);
                if !l0.contains_key(x) {
                    assert(m == 0 || l0.contains_key(x));
                }
            } else {
                assert(l0.contains_key(x));
            }
        } else {
            if !(n > cur) {
                assert(l0.contains_key(x) || n == 0);
            }
        }
    }
}

/// 1 for a reward entry paying `node`, 0 otherwise.
pub open spec fn pays(node: Seq<char>) -> spec_fn(EntryView) -> int {
    |e: EntryView| match e.entry_type {
        EntryTypeView::RewardTx { rewarded_node, .. } => if rewarded_node == node { 1int } else { 0int },
        EntryTypeView::UserTx => 0int,
    }
}

/// The fee of a user transaction's entry, 0 for a reward entry's.
pub open spec fn user_fee() -> spec_fn(EntryView) -> int {
    |e: EntryView| if e.tx.sender != system_sender() { e.tx.fee as int } else { 0int }
}

/// The ledger's mathematical state.
pub struct LedgerModel {
    /// Finalized entries by transaction hash.
    pub entries: Map<Seq<u8>, EntryView>,
    /// Children of each transaction, in the order they were linked.
    pub edges: Map<Seq<u8>, Seq<Seq<u8>>>,
    /// Finalized `(sender, nonce)` pairs.
    pub nonces: Set<(Seq<char>, u64)>,
    /// Last finalized nonce per sender.
    pub last: Map<Seq<char>, u64>,
}

/// The children recorded for `p` (empty if none).
pub open spec fn children_of(e: Map<Seq<u8>, Seq<Seq<u8>>>, p: Seq<u8>) -> Seq<Seq<u8>> {
    if e.contains_key(p) {
        e[p]
    } else {
        Seq::empty()
    }
}

/// The edges after appending child `c` to the children of `p`.
pub open spec fn push_child(e: Map<Seq<u8>, Seq<Seq<u8>>>, p: Seq<u8>, c: Seq<u8>) -> Map<Seq<u8>, Seq<Seq<u8>>> {
    e.insert(p, children_of(e, p).push(c))
}

/// The edges after appending child `c` to each parent in `ps`, in order.
pub open spec fn link_parents(e: Map<Seq<u8>, Seq<Seq<u8>>>, ps: Seq<Seq<u8>>, c: Seq<u8>) -> Map<Seq<u8>, Seq<Seq<u8>>>
    decreases ps.len(),
{
    if ps.len() == 0 {
        e
    } else {
        push_child(link_parents(e, ps.drop_last(), c), ps.last(), c)
    }
}

/// Transactions that have at least one child.
pub open spec fn parents_with_children(e: Map<Seq<u8>, Seq<Seq<u8>>>) -> Set<Seq<u8>> {
    Set::new(|p: Seq<u8>| e.contains_key(p) && e[p].len() > 0)
}

/// Finalized transactions without children: the tips of the DAG.
pub open spec fn tips_of(m: LedgerModel) -> Set<Seq<u8>> {
    m.entries.dom().filter(|h: Seq<u8>| !parents_with_children(m.edges).contains(h))
}

/// The model after finalizing user transaction `t` in batch `batch`: its
/// `(sender, nonce)` is indexed, it becomes a child of each of its parents, and
/// it is stored under its hash.
pub open spec fn record_user(m: LedgerModel, t: TxView, batch: u64) -> LedgerModel {
    LedgerModel {
        entries: m.entries.insert(t.hash, EntryView { tx: t, entry_type: EntryTypeView::UserTx, batch_id: batch }),
        edges: link_parents(m.edges, t.parents, t.hash),
        nonces: m.nonces.insert((t.sender, t.nonce)),
        last: raise_last(m.last, t.sender, t.nonce),
    }
}

/// The last-nonce map after finalizing nonce `n` of `s`: `s` maps to the
/// greater of its previous last nonce (if any) and `n`.
pub open spec fn raise_last(last: Map<Seq<char>, u64>, s: Seq<char>, n: u64) -> Map<Seq<char>, u64> {
    if last.contains_key(s) && last[s] > n {
        last
    } else {
        last.insert(s, n)
    }
}

/// The reward transaction paying `fee` to `node` for `source`, stamped `ts`,
/// before its hash is filled in.
pub open spec fn reward_base(node: Seq<char>, fee: u64, source: Seq<u8>, ts: u64) -> TxView {
    TxView {
        sender: system_sender(),
        receiver: node,
        amount: fee,
        fee: 0,
        nonce: 0,
        timestamp: ts,
        parents: seq![source],
        signature: None,
        public_key: None,
        hash: Seq::empty(),
        kind: TxKind::Normal,
    }
}

/// The reward transaction paying `fee` to `node` for `source`, stamped `ts`.
pub open spec fn reward_view(node: Seq<char>, fee: u64, source: Seq<u8>, ts: u64) -> TxView {
    TxView { hash: tx_digest(reward_base(node, fee, source, ts)), ..reward_base(node, fee, source, ts) }
}

/// The model after storing the reward for the proposer `node` of `t` as a
/// child of `t`.
pub open spec fn record_reward(m: LedgerModel, t: TxView, node: Seq<char>, ts: u64, batch: u64) -> LedgerModel {
    let r = reward_view(node, t.fee, t.hash, ts);
    LedgerModel {
        entries: m.entries.insert(
            r.hash,
            EntryView { tx: r, entry_type: EntryTypeView::RewardTx { rewarded_node: node, source_tx: t.hash }, batch_id: batch },
        ),
        edges: push_child(m.edges, t.hash, r.hash),
        ..m
    }
}

/// One transaction of a batch: finalized, then rewarded when it has a proposer
/// in `rewards` (its reward stamped `ts`).
pub open spec fn batch_step(m: LedgerModel, t: TxView, rewards: Map<Seq<u8>, Seq<char>>, ts: u64, batch: u64) -> LedgerModel {
    let m1 = record_user(m, t, batch);
    if rewards.contains_key(t.hash) {
        record_reward(m1, t, rewards[t.hash], ts, batch)
    } else {
        m1
    }
}

/// The model after finalizing `txs` in order as batch `batch`; `stamps[i]` is
/// the time stamp of the reward of `txs[i]` (unused when it has none).
pub open spec fn batch_model(
    m: LedgerModel,
    txs: Seq<TxView>,
    rewards: Map<Seq<u8>, Seq<char>>,
    stamps: Seq<u64>,
    batch: u64,
) -> LedgerModel
    decreases txs.len(),
{
    if txs.len() == 0 {
        m
    } else {
        batch_step(batch_model(m, txs.drop_last(), rewards, stamps.drop_last(), batch), txs.last(), rewards, stamps.last(), batch)
    }
}

/// The hashes a batch adds, in order: each transaction, followed by its reward
/// when it has one.
pub open spec fn batch_added(txs: Seq<TxView>, rewards: Map<Seq<u8>, Seq<char>>, stamps: Seq<u64>) -> Seq<Seq<u8>>
    decreases txs.len(),
{
    if txs.len() == 0 {
        Seq::empty()
    } else {
        let t = txs.last();
        batch_added(txs.drop_last(), rewards, stamps.drop_last()) + seq![t.hash] + if rewards.contains_key(t.hash) {
            seq![reward_view(rewards[t.hash], t.fee, t.hash, stamps.last()).hash]
        } else {
            Seq::empty()
        }
    }
}

/// Abstract entries of the last-nonce table.
pub open spec fn nonce_pairs(v: Seq<(String, u64)>) -> Set<(Seq<char>, u64)> {
    Set::new(|k: (Seq<char>, u64)| exists|i: int| 0 <= i < v.len() && k == ((#[trigger] v[i]).0@, v[i].1))
}

/// The finalized DAG with its indexes.
pub struct Ledger {
    entries: Vec<([u8; 32], LedgerEntry)>,
    dag_edges: Vec<([u8; 32], Vec<[u8; 32]>)>,
    next_batch_id: u64,
    has_children_cache: Vec<[u8; 32]>,
    file_path: String,
    finalized_nonces: Vec<(String, u64)>,
    last_finalized_nonce_per_sender: Vec<(String, u64)>,
    dirty: bool,
}

impl View for Ledger {
    type V = LedgerModel;

    closed spec fn view(&self) -> LedgerModel {
        LedgerModel {
            entries: to_map(hentries(self.entries@)),
            edges: to_map(hentries(self.dag_edges@)).map_values(|v: Seq<[u8; 32]>| hash_views(v)),
            nonces: nonce_pairs(self.finalized_nonces@),
            last: to_map(sentries(self.last_finalized_nonce_per_sender@)),
        }
    }
}

impl Ledger {
    /// Internal consistency: keys are unique, every entry is stored under its
    /// transaction's hash, and the children cache holds exactly the
    /// transactions with children.
    pub closed spec fn wf(&self) -> bool {
        &&& keys_unique(hentries(self.entries@))
        &&& keys_unique(hentries(self.dag_edges@))
        &&& keys_unique(sentries(self.last_finalized_nonce_per_sender@))
        &&& forall|h: Seq<u8>| #[trigger] self@.entries.contains_key(h) ==> self@.entries[h].tx.hash == h
        &&& hash_views(self.has_children_cache@).to_set() == parents_with_children(self@.edges)
    }

    /// The id the next finalized batch receives.
    pub closed spec fn next_batch(&self) -> u64 {
        self.next_batch_id
    }

    /// Whether there are changes not yet written out.
    pub closed spec fn is_dirty_spec(&self) -> bool {
        self.dirty
    }

    /// The file the ledger is persisted to.
    pub closed spec fn path(&self) -> Seq<char> {
        self.file_path@
    }

    /// An empty ledger persisted at `file_path` (the caller loads saved data).
    pub fn new(file_path: String) -> (l: Self)
        ensures
            l.wf(),
            l@.entries == Map::<Seq<u8>, EntryView>::empty(),
            l@.edges == Map::<Seq<u8>, Seq<Seq<u8>>>::empty(),
            l@.nonces == Set::<(Seq<char>, u64)>::empty(),
            l@.last == Map::<Seq<char>, u64>::empty(),
            l.next_batch() == 0,
            !l.is_dirty_spec(),
            l.path() == file_path@,
    {
        let l = Ledger {
            entries: Vec::new(),
            dag_edges: Vec::new(),
            next_batch_id: 0,
            has_children_cache: Vec::new(),
            file_path,
            finalized_nonces: Vec::new(),
            last_finalized_nonce_per_sender: Vec::new(),
            dirty: false,
        };
        proof {
            assert(l@.entries =~= Map::<Seq<u8>, EntryView>::empty());
            assert(l@.edges =~= Map::<Seq<u8>, Seq<Seq<u8>>>::empty());
            assert(l@.nonces =~= Set::<(Seq<char>, u64)>::empty());
            assert(l@.last =~= Map::<Seq<char>, u64>::empty());
            assert(hash_views(l.has_children_cache@).to_set() =~= parents_with_children(l@.edges));
        }
        l
    }

    /// The finalized transaction with this hash.
    pub fn get(&self, hash: &[u8; 32]) -> (r: Option<&Transaction>)
        requires
            self.wf(),
        ensures
            match r {
                Some(t) => self@.entries.contains_key(hash@) && t@ == self@.entries[hash@].tx,
                None => !self@.entries.contains_key(hash@),
            },
    {
        match self.get_entry(hash) {
            Some(e) => Some(&e.tx),
            None => None,
        }
    }

    /// The ledger entry with this hash.
    pub fn get_entry(&self, hash: &[u8; 32]) -> (r: Option<&LedgerEntry>)
        requires
            self.wf(),
        ensures
            match r {
                Some(e) => self@.entries.contains_key(hash@) && e@ == self@.entries[hash@],
                None => !self@.entries.contains_key(hash@),
            },
    {
        match hfind(&self.entries, hash) {
            Some(i) => {
                proof {
                    lemma_hentry(self.entries@, i as int);
                }
                Some(&self.entries[i].1)
            },
            None => None,
        }
    }

    /// The children of `hash`, in the order they were linked.
    pub fn get_children(&self, hash: &[u8; 32]) -> (r: Vec<&[u8; 32]>)
        requires
            self.wf(),
        ensures
            r@.len() == children_of(self@.edges, hash@).len(),
            forall|i: int| 0 <= i < r@.len() ==> (#[trigger] r@[i])@ == children_of(self@.edges, hash@)[i],
    {
        let mut r: Vec<&[u8; 32]> = Vec::new();
        match hfind(&self.dag_edges, hash) {
            Some(i) => {
                proof {
                    lemma_hentry(self.dag_edges@, i as int);
                }
                let v = &self.dag_edges[i].1;
                let mut k: usize = 0;
                while k < v.len()
                    invariant
                        k <= v@.len(),
                        r@.len() == k,
                        forall|j: int| 0 <= j < k ==> (#[trigger] r@[j])@ == v@[j]@,
                    decreases v@.len() - k,
                {
                    r.push(&v[k]);
                    k = k + 1;
                }
            },
            None => {},
        }
        r
    }

    /// Number of finalized transactions.
    pub fn len(&self) -> (n: usize)
        requires
            self.wf(),
        ensures
            n == self@.entries.len(),
    {
        proof {
            lemma_entries_len(hentries(self.entries@));
        }
        self.entries.len()
    }

    /// Whether `(sender, nonce)` has been finalized.
    pub fn has_finalized_nonce(&self, sender: &str, nonce: u64) -> (b: bool)
        requires
            self.wf(),
        ensures
            b == self@.nonces.contains((sender@, nonce)),
    {
        let v = &self.finalized_nonces;
        let mut i: usize = 0;
        while i < v.len()
            invariant
                v == &self.finalized_nonces,
                i <= v@.len(),
                forall|k: int| 0 <= k < i ==> ((#[trigger] v@[k]).0@, v@[k].1) != (sender@, nonce),
            decreases v@.len() - i,
        {
            if v[i].1 == nonce && str_eq(v[i].0.as_str(), sender) {
                proof {
                    assert(((v@[i as int]).0@, v@[i as int].1) == (sender@, nonce));
                }
                return true;
            }
            i = i + 1;
        }
        false
    }

    /// The last finalized nonce of `sender`, if any.
    pub fn last_finalized_nonce(&self, sender: &str) -> (r: Option<u64>)
        requires
            self.wf(),
        ensures
            r == if self@.last.contains_key(sender@) {
                Some(self@.last[sender@])
            } else {
                None
            },
    {
        match sfind(&self.last_finalized_nonce_per_sender, sender) {
            Some(i) => {
                proof {
                    lemma_sentry(self.last_finalized_nonce_per_sender@, i as int);
                }
                Some(self.last_finalized_nonce_per_sender[i].1)
            },
            None => None,
        }
    }

    /// The id the next finalized batch receives.
    pub fn next_batch_id(&self) -> (n: u64)
        ensures
            n == self.next_batch(),
    {
        self.next_batch_id
    }

    /// Whether there are unsaved changes.
    pub fn is_dirty(&self) -> (b: bool)
        ensures
            b == self.is_dirty_spec(),
    {
        self.dirty
    }

    /// Records that the ledger was written out.
    pub fn mark_clean(&mut self)
        requires
            old(self).wf(),
        ensures
            final(self).wf(),
            final(self)@ == old(self)@,
            final(self).next_batch() == old(self).next_batch(),
            final(self).path() == old(self).path(),
            !final(self).is_dirty_spec(),
    {
        self.dirty = false;
    }

    /// The file path given at construction.
    pub fn file_path(&self) -> (p: &String)
        ensures
            p@ == self.path(),
    {
        &self.file_path
    }

    /// Indexes `(sender, nonce)` as finalized and raises the sender's last
    /// nonce to `nonce` when it is greater (or the sender has none).
    fn index_nonce(&mut self, sender: &str, nonce: u64)
        requires
            old(self).wf(),
        ensures
            final(self).wf(),
            final(self)@ == (LedgerModel {
                nonces: old(self)@.nonces.insert((sender@, nonce)),
                last: raise_last(old(self)@.last, sender@, nonce),
                ..old(self)@
            }),
            final(self).next_batch() == old(self).next_batch(),
            final(self).is_dirty_spec() == old(self).is_dirty_spec(),
            final(self).path() == old(self).path(),
    {
        if !self.has_finalized_nonce(sender, nonce) {
            self.finalized_nonces.push((sender.to_owned(), nonce));
        }
        let raise = match self.last_finalized_nonce(sender) {
            Some(cur) => nonce >= cur,
            None => true,
        };
        if raise {
            sset(&mut self.last_finalized_nonce_per_sender, sender, nonce);
        }
        proof {
            let v = self.finalized_nonces@;
            assert(nonce_pairs(v) =~= old(self)@.nonces.insert((sender@, nonce))) by {
                if v.len() > old(self).finalized_nonces@.len() {
                    assert(v[v.len() - 1].0@ == sender@ && v[v.len() - 1].1 == nonce);
                    assert forall|k: (Seq<char>, u64)| #[trigger] nonce_pairs(v).contains(k)
                        implies old(self)@.nonces.insert((sender@, nonce)).contains(k) by {
                        let i = choose|i: int| 0 <= i < v.len() && k == ((#[trigger] v[i]).0@, v[i].1);
                        if i < v.len() - 1 {
                            assert(old(self).finalized_nonces@[i] == v[i]);
                        }
                    }
                    assert forall|k: (Seq<char>, u64)| #[trigger] old(self)@.nonces.insert((sender@, nonce)).contains(k)
                        implies nonce_pairs(v).contains(k) by {
                        if k != (sender@, nonce) {
                            let i = choose|i: int| 0 <= i < old(self).finalized_nonces@.len()
                                && k == ((#[trigger] old(self).finalized_nonces@[i]).0@, old(self).finalized_nonces@[i].1);
                            assert(v[i] == old(self).finalized_nonces@[i]);
                        } else {
                            assert(k == (v[v.len() - 1].0@, v[v.len() - 1].1));
                        }
                    }
                }
            }
            assert(self@.edges =~= old(self)@.edges);
        }
    }

    /// Appends `child` to the children of `parent` and marks `parent` as having children.
    fn link_child(&mut self, parent: &[u8; 32], child: &[u8; 32])
        requires
            old(self).wf(),
        ensures
            final(self).wf(),
            final(self)@ == (LedgerModel { edges: push_child(old(self)@.edges, parent@, child@), ..old(self)@ }),
            final(self).next_batch() == old(self).next_batch(),
            final(self).is_dirty_spec() == old(self).is_dirty_spec(),
            final(self).path() == old(self).path(),
    {
        let ghost raw = to_map(hentries(self.dag_edges@));
        let mut children: Vec<[u8; 32]> = match hfind(&self.dag_edges, parent) {
            Some(i) => {
                proof {
                    lemma_hentry(self.dag_edges@, i as int);
                }
                copy_hashes(&self.dag_edges[i].1)
            },
            None => Vec::new(),
        };
        let ghost before = children@;
        children.push(*child);
        hset(&mut self.dag_edges, parent, children);
        let mut found = false;
        let mut k: usize = 0;
        while k < self.has_children_cache.len() && !found
            invariant
                k <= self.has_children_cache@.len(),
                found ==> k < self.has_children_cache@.len() && self.has_children_cache@[k as int]@ == parent@,
                !found ==> forall|j: int| 0 <= j < k ==> (#[trigger] self.has_children_cache@[j])@ != parent@,
            decreases self.has_children_cache@.len() - k + (if found { 0int } else { 1int }),
        {
            if hash_eq(&self.has_children_cache[k], parent) {
                found = true;
            } else {
                k = k + 1;
            }
        }
        let ghost cache0 = self.has_children_cache@;
        if !found {
            self.has_children_cache.push(*parent);
        }
        proof {
            let e0 = old(self)@.edges;
            let e1 = push_child(e0, parent@, child@);
            assert(children_of(e0, parent@) == hash_views(before)) by {
                if !raw.contains_key(parent@) {
                    assert(before.len() == 0);
                    assert(hash_views(before) =~= Seq::<Seq<u8>>::empty());
                }
            }
            assert(hash_views(before.push(*child)) =~= hash_views(before).push(child@));
            assert(self@.edges =~= e1);
            let cs = hash_views(self.has_children_cache@).to_set();
            assert(cs =~= parents_with_children(e1)) by {
                assert forall|p: Seq<u8>| #[trigger] cs.contains(p) implies parents_with_children(e1).contains(p) by {
                    let j = choose|j: int| 0 <= j < hash_views(self.has_children_cache@).len()
                        && #[trigger] hash_views(self.has_children_cache@)[j] == p;
                    if p != parent@ {
                        if j < cache0.len() {
                            assert(hash_views(cache0)[j] == p);
                            assert(hash_views(cache0).to_set().contains(p));
                        }
                    }
                }
                assert forall|p: Seq<u8>| #[trigger] parents_with_children(e1).contains(p) implies cs.contains(p) by {
                    if p == parent@ {
                        if found {
                            assert(hash_views(self.has_children_cache@)[k as int] == p);
                        } else {
                            assert(hash_views(self.has_children_cache@)[cache0.len() as int] == p);
                        }
                    } else {
                        assert(parents_with_children(e0).contains(p));
                        assert(hash_views(cache0).to_set().contains(p));
                        let j = choose|j: int| 0 <= j < hash_views(cache0).len() && #[trigger] hash_views(cache0)[j] == p;
                        assert(hash_views(self.has_children_cache@)[j] == p);
                    }
                }
            }
        }
    }

    /// Makes `child` a child of each hash in `parents`, in order.
    fn link_all(&mut self, parents: &Vec<[u8; 32]>, child: &[u8; 32])
        requires
            old(self).wf(),
        ensures
            final(self).wf(),
            final(self)@ == (LedgerModel {
                edges: link_parents(old(self)@.edges, parents.deep_view(), child@),
                ..old(self)@
            }),
            final(self).next_batch() == old(self).next_batch(),
            final(self).is_dirty_spec() == old(self).is_dirty_spec(),
            final(self).path() == old(self).path(),
    {
        let ghost ps = parents.deep_view();
        let mut i: usize = 0;
        while i < parents.len()
            invariant
                self.wf(),
                i <= parents@.len(),
                ps == parents.deep_view(),
                self@ == (LedgerModel { edges: link_parents(old(self)@.edges, ps.take(i as int), child@), ..old(self)@ }),
                self.next_batch() == old(self).next_batch(),
                self.is_dirty_spec() == old(self).is_dirty_spec(),
                self.path() == old(self).path(),
            decreases parents@.len() - i,
        {
            self.link_child(&parents[i], child);
            proof {
                assert(ps.take(i + 1).drop_last() =~= ps.take(i as int));
                assert(ps.take(i + 1).last() == parents@[i as int]@);
            }
            i = i + 1;
        }
        proof {
            assert(ps.take(parents@.len() as int) =~= ps);
        }
    }

    /// Finalizes a single user transaction in the current batch.
    pub fn add(&mut self, tx: Transaction)
        requires
            old(self).wf(),
        ensures
            final(self).wf(),
            final(self)@ == record_user(old(self)@, tx@, old(self).next_batch()),
            final(self).next_batch() == old(self).next_batch(),
            final(self).is_dirty_spec(),
            final(self).path() == old(self).path(),
    {
        let hash: [u8; 32] = tx.hash;
        let batch_id = self.next_batch_id;
        self.index_nonce(tx.sender.as_str(), tx.nonce);
        self.link_all(&tx.parents, &hash);
        let ghost tv = tx@;
        let entry = LedgerEntry { tx, entry_type: EntryType::UserTx, batch_id };
        hset(&mut self.entries, &hash, entry);
        self.dirty = true;
        proof {
            assert(self@ =~= record_user(old(self)@, tv, batch_id));
            assert forall|h: Seq<u8>| #[trigger] self@.entries.contains_key(h) implies self@.entries[h].tx.hash == h by {
                if h != hash@ {
                    assert(old(self)@.entries.contains_key(h));
                }
            }
        }
    }

    /// Finalizes `txs` in order as one batch. Each transaction is recorded as
    /// with `add`; when `reward_map` names a proposer for it, a reward
    /// transaction from `__system__` paying the proposer the transaction's fee
    /// (stamped with the current time) is stored as its child. Returns the hashes
    /// stored, each transaction followed by its reward.
    pub fn add_batch(&mut self, txs: Vec<Transaction>, reward_map: &Vec<([u8; 32], String)>) -> (added: Vec<[u8; 32]>)
        requires
            old(self).wf(),
            old(self).next_batch() < u64::MAX,
            keys_unique(hentries(reward_map@)),
        ensures
            final(self).wf(),
            exists|stamps: Seq<u64>| #![trigger batch_model(old(self)@, tx_views(txs@), to_map(hentries(reward_map@)), stamps, old(self).next_batch())]
                stamps.len() == txs@.len()
                && final(self)@ == batch_model(old(self)@, tx_views(txs@), to_map(hentries(reward_map@)), stamps, old(self).next_batch())
                && hash_views(added@) == batch_added(tx_views(txs@), to_map(hentries(reward_map@)), stamps),
            final(self).next_batch() == old(self).next_batch() + 1,
            final(self).is_dirty_spec(),
            final(self).path() == old(self).path(),
    {
        let batch_id = self.next_batch_id;
        self.next_batch_id = batch_id + 1;
        let mut added: Vec<[u8; 32]> = Vec::new();
        let ghost tv = tx_views(txs@);
        let ghost rewards = to_map(hentries(reward_map@));
        let ghost m0 = old(self)@;
        let ghost mut stamps: Seq<u64> = Seq::empty();
        let n = txs.len();
        let mut i: usize = 0;
        while i < n
            invariant
                self.wf(),
                i <= n,
                n == txs@.len(),
                tv == tx_views(txs@),
                rewards == to_map(hentries(reward_map@)),
                keys_unique(hentries(reward_map@)),
                stamps.len() == i,
                self@ == batch_model(m0, tv.take(i as int), rewards, stamps, batch_id),
                hash_views(added@) == batch_added(tv.take(i as int), rewards, stamps),
                self.next_batch() == batch_id + 1,
                self.path() == old(self).path(),
            decreases n - i,
        {
            let tx = txs[i].duplicate();
            let hash: [u8; 32] = tx.hash;
            let fee = tx.fee;
            let ghost t = tx@;
            let ghost mb = self@;
            let ghost added0 = hash_views(added@);
            let ghost stamps0 = stamps;
            self.index_nonce(tx.sender.as_str(), tx.nonce);
            self.link_all(&tx.parents, &hash);
            let entry = LedgerEntry { tx, entry_type: EntryType::UserTx, batch_id };
            hset(&mut self.entries, &hash, entry);
            added.push(hash);
            proof {
                assert(self@ =~= record_user(mb, t, batch_id));
                assert forall|h: Seq<u8>| #[trigger] self@.entries.contains_key(h) implies self@.entries[h].tx.hash == h by {
                    if h != hash@ {
                        assert(mb.entries.contains_key(h));
                    }
                }
                assert(hash_views(added@) =~= added0.push(hash@));
            }
            let ghost m1 = self@;
            let ghost added1 = hash_views(added@);
            match hfind(reward_map, &hash) {
                Some(k) => {
                    proof {
                        lemma_hentry(reward_map@, k as int);
                    }
                    let node = &reward_map[k].1;
                    let ps: Vec<[u8; 32]> = vec![hash];
                    proof {
                        assert(ps.deep_view().len() == 1);
                        assert(ps.deep_view()[0] =~= hash@);
                        assert(ps.deep_view() =~= seq![hash@]);
                    }
                    let reward_tx = Transaction::new_with_fee(
                        system_sender_str().to_owned(),
                        node.clone(),
                        fee,
                        0,
                        0,
                        ps,
                    );
                    let reward_hash: [u8; 32] = reward_tx.hash;
                    let ghost ts = reward_tx.timestamp;
                    proof {
                        stamps = stamps.push(ts);
                        assert(reward_tx@.parents =~= seq![hash@]);
                        assert(tx_digest(reward_tx@) == tx_digest(reward_base(node@, fee, hash@, ts)));
                        assert(reward_tx@ == reward_view(node@, fee, hash@, ts));
                    }
                    let reward_entry = LedgerEntry {
                        tx: reward_tx,
                        entry_type: EntryType::RewardTx { rewarded_node: node.clone(), source_tx: hash },
                        batch_id,
                    };
                    hset(&mut self.entries, &reward_hash, reward_entry);
                    proof {
                        assert forall|h: Seq<u8>| #[trigger] self@.entries.contains_key(h) implies self@.entries[h].tx.hash == h by {
                            if h != reward_hash@ {
                                assert(m1.entries.contains_key(h));
                            }
                        }
                    }
                    self.link_child(&hash, &reward_hash);
                    added.push(reward_hash);
                    proof {
                        assert(self@ =~= record_reward(m1, t, node@, ts, batch_id));
                        assert(hash_views(added@) =~= added1.push(reward_hash@));
                    }
                },
                None => {
                    proof {
                        stamps = stamps.push(0);
                        assert(!rewards.contains_key(hash@));
                    }
                },
            }
            proof {
                let tk = tv.take(i + 1);
                assert(tk.drop_last() =~= tv.take(i as int));
                assert(tk.last() == t);
                assert(stamps.drop_last() =~= stamps0);
                assert(self@ == batch_step(mb, t, rewards, stamps.last(), batch_id));
                assert(batch_model(m0, tk, rewards, stamps, batch_id) == batch_step(
                    batch_model(m0, tv.take(i as int), rewards, stamps.drop_last(), batch_id), t, rewards, stamps.last(), batch_id));
                assert(hash_views(added@) =~= batch_added(tk, rewards, stamps));
            }
            i = i + 1;
        }
        self.dirty = true;
        proof {
            assert(tv.take(n as int) =~= tv);
        }
        added
    }

    /// Whether `hash` has children.
    fn has_children(&self, hash: &[u8; 32]) -> (b: bool)
        requires
            self.wf(),
        ensures
            b == parents_with_children(self@.edges).contains(hash@),
    {
        let v = &self.has_children_cache;
        let mut i: usize = 0;
        while i < v.len()
            invariant
                self.wf(),
                v == &self.has_children_cache,
                i <= v@.len(),
                forall|k: int| 0 <= k < i ==> (#[trigger] v@[k])@ != hash@,
            decreases v@.len() - i,
        {
            if hash_eq(&v[i], hash) {
                proof {
                    assert(hash_views(v@)[i as int] == hash@);
                    assert(hash_views(v@).to_set().contains(hash@));
                }
                return true;
            }
            i = i + 1;
        }
        proof {
            if hash_views(v@).to_set().contains(hash@) {
                let k = choose|k: int| 0 <= k < hash_views(v@).len() && #[trigger] hash_views(v@)[k] == hash@;
                assert(v@[k]@ == hash@);
            }
        }
        false
    }

    /// The finalized transactions without children, each once (in unspecified order).
    pub fn get_tips(&self) -> (r: Vec<&[u8; 32]>)
        requires
            self.wf(),
        ensures
            forall|i: int| 0 <= i < r@.len() ==> tips_of(self@).contains(#[trigger] r@[i]@),
            forall|h: Seq<u8>| #[trigger] tips_of(self@).contains(h) ==> exists|i: int| 0 <= i < r@.len() && r@[i]@ == h,
            forall|i: int, j: int| 0 <= i < j < r@.len() ==> (#[trigger] r@[i])@ != (#[trigger] r@[j])@,
    {
        let mut r: Vec<&[u8; 32]> = Vec::new();
        let ghost mut idx: Seq<int> = Seq::empty();
        let ghost e = hentries(self.entries@);
        let mut k: usize = 0;
        while k < self.entries.len()
            invariant
                self.wf(),
                e == hentries(self.entries@),
                k <= self.entries@.len(),
                idx.len() == r@.len(),
                forall|i: int| 0 <= i < idx.len() ==> 0 <= #[trigger] idx[i] < k && r@[i]@ == self.entries@[idx[i]].0@,
                forall|i: int, j: int| 0 <= i < j < idx.len() ==> #[trigger] idx[i] < #[trigger] idx[j],
                forall|i: int| 0 <= i < r@.len() ==> tips_of(self@).contains(#[trigger] r@[i]@),
                forall|q: int| 0 <= q < k && !parents_with_children(self@.edges).contains(#[trigger] self.entries@[q].0@)
                    ==> exists|i: int| 0 <= i < r@.len() && r@[i]@ == self.entries@[q].0@,
            decreases self.entries@.len() - k,
        {
            let h = &self.entries[k].0;
            let ghost r0 = r@;
            if !self.has_children(h) {
                proof {
                    lemma_hentry(self.entries@, k as int);
                }
                r.push(h);
                proof {
                    idx = idx.push(k as int);
                    assert(r@[r@.len() - 1]@ == self.entries@[k as int].0@);
                }
            }
            proof {
                assert forall|q: int| 0 <= q < k + 1 && !parents_with_children(self@.edges).contains(#[trigger] self.entries@[q].0@)
                    implies exists|i: int| 0 <= i < r@.len() && r@[i]@ == self.entries@[q].0@ by {
                    if q < k {
                        let i = choose|i: int| 0 <= i < r0.len() && r0[i]@ == self.entries@[q].0@;
                        assert(r@[i] == r0[i]);
                    } else {
                        assert(r@[r@.len() - 1]@ == self.entries@[k as int].0@);
                    }
                }
            }
            k = k + 1;
        }
        proof {
            assert forall|i: int, j: int| 0 <= i < j < r@.len() implies (#[trigger] r@[i])@ != (#[trigger] r@[j])@ by {
                assert(idx[i] < idx[j]);
                assert(e[idx[i]].0 != e[idx[j]].0);
            }
            assert forall|h: Seq<u8>| #[trigger] tips_of(self@).contains(h) implies exists|i: int| 0 <= i < r@.len() && r@[i]@ == h by {
                assert(has_key(e, h));
                let q = choose|q: int| 0 <= q < e.len() && (#[trigger] e[q]).0 == h;
                assert(self.entries@[q].0@ == h);
            }
        }
        r
    }

    /// The list of transactions with children, computed from the edges.
    fn children_cache(edges: &Vec<([u8; 32], Vec<[u8; 32]>)>) -> (r: Vec<[u8; 32]>)
        requires
            keys_unique(hentries(edges@)),
        ensures
            hash_views(r@).to_set() == parents_with_children(
                to_map(hentries(edges@)).map_values(|v: Seq<[u8; 32]>| hash_views(v)),
            ),
    {
        let ghost em = to_map(hentries(edges@)).map_values(|v: Seq<[u8; 32]>| hash_views(v));
        let mut r: Vec<[u8; 32]> = Vec::new();
        let mut k: usize = 0;
        while k < edges.len()
            invariant
                keys_unique(hentries(edges@)),
                k <= edges@.len(),
                forall|p: Seq<u8>| #[trigger] hash_views(r@).to_set().contains(p) <==> exists|q: int| 0 <= q < k
                    && (#[trigger] edges@[q]).0@ == p && edges@[q].1@.len() > 0,
            decreases edges@.len() - k,
        {
            let ghost r0 = r@;
            if edges[k].1.len() > 0 {
                r.push(edges[k].0);
            }
            proof {
                assert forall|p: Seq<u8>| #[trigger] hash_views(r@).to_set().contains(p) <==> exists|q: int| 0 <= q < k + 1
                    && (#[trigger] edges@[q]).0@ == p && edges@[q].1@.len() > 0 by {
                    if hash_views(r@).to_set().contains(p) {
                        let i = choose|i: int| 0 <= i < hash_views(r@).len() && #[trigger] hash_views(r@)[i] == p;
                        if i < r0.len() {
                            assert(hash_views(r0)[i] == p);
                            assert(hash_views(r0).to_set().contains(p));
                        } else {
                            assert(edges@[k as int].0@ == p);
                        }
                    }
                    if exists|q: int| 0 <= q < k + 1 && (#[trigger] edges@[q]).0@ == p && edges@[q].1@.len() > 0 {
                        let q = choose|q: int| 0 <= q < k + 1 && (#[trigger] edges@[q]).0@ == p && edges@[q].1@.len() > 0;
                        if q < k {
                            assert(hash_views(r0).to_set().contains(p));
                            let i = choose|i: int| 0 <= i < hash_views(r0).len() && #[trigger] hash_views(r0)[i] == p;
                            assert(hash_views(r@)[i] == p);
                        } else {
                            assert(hash_views(r@)[r@.len() - 1] == p);
                        }
                    }
                }
            }
            k = k + 1;
        }
        proof {
            assert forall|p: Seq<u8>| #[trigger] hash_views(r@).to_set().contains(p) <==> parents_with_children(em).contains(p) by {
                if hash_views(r@).to_set().contains(p) {
                    let q = choose|q: int| 0 <= q < edges@.len() && (#[trigger] edges@[q]).0@ == p && edges@[q].1@.len() > 0;
                    lemma_hentry(edges@, q);
                }
                if parents_with_children(em).contains(p) {
                    let e = hentries(edges@);
                    assert(has_key(e, p));
                    let q = choose|q: int| 0 <= q < e.len() && (#[trigger] e[q]).0 == p;
                    lemma_hentry(edges@, q);
                    assert(edges@[q].0@ == p);
                }
            }
            assert(hash_views(r@).to_set() =~= parents_with_children(em));
        }
        r
    }

    /// Recomputes the children cache from the edges (which leaves it unchanged,
    /// since it is kept exact).
    pub fn rebuild_children_cache_pub(&mut self)
        requires
            old(self).wf(),
        ensures
            final(self).wf(),
            final(self)@ == old(self)@,
            final(self).next_batch() == old(self).next_batch(),
            final(self).is_dirty_spec() == old(self).is_dirty_spec(),
            final(self).path() == old(self).path(),
    {
        self.has_children_cache = Self::children_cache(&self.dag_edges);
    }

    /// Replaces the entries, edges and next batch id with those of `data`
    /// (entries keyed by their transaction hash, later duplicates winning). The
    /// nonce indexes are left as they are.
    pub fn restore(&mut self, data: &LedgerData)
        requires
            old(self).wf(),
        ensures
            final(self).wf(),
            final(self)@ == (LedgerModel {
                entries: entries_of(data@.entries),
                edges: last_wins(data@.dag_edges),
                ..old(self)@
            }),
            final(self).next_batch() == data.next_batch_id,
            final(self).is_dirty_spec(),
            final(self).path() == old(self).path(),
    {
        let ghost des = data@.entries.map_values(|e: EntryView| (e.tx.hash, e));
        let mut entries: Vec<([u8; 32], LedgerEntry)> = Vec::new();
        let mut i: usize = 0;
        while i < data.entries.len()
            invariant
                i <= data.entries@.len(),
                des == data@.entries.map_values(|e: EntryView| (e.tx.hash, e)),
                keys_unique(hentries(entries@)),
                to_map(hentries(entries@)) == last_wins(des.take(i as int)),
                forall|h: Seq<u8>| #[trigger] to_map(hentries(entries@)).contains_key(h) ==> to_map(hentries(entries@))[h].tx.hash == h,
            decreases data.entries@.len() - i,
        {
            let e = data.entries[i].duplicate();
            let h: [u8; 32] = e.tx.hash;
            let ghost m0 = to_map(hentries(entries@));
            hset(&mut entries, &h, e);
            proof {
                assert(des.take(i + 1).drop_last() =~= des.take(i as int));
                assert forall|k: Seq<u8>| #[trigger] to_map(hentries(entries@)).contains_key(k) implies to_map(hentries(entries@))[k].tx.hash == k by {
                    if k != h@ {
                        assert(m0.contains_key(k));
                    }
                }
            }
            i = i + 1;
        }
        let ghost dedges = data@.dag_edges;
        let mut edges: Vec<([u8; 32], Vec<[u8; 32]>)> = Vec::new();
        let mut j: usize = 0;
        while j < data.dag_edges.len()
            invariant
                j <= data.dag_edges@.len(),
                dedges == data@.dag_edges,
                keys_unique(hentries(edges@)),
                to_map(hentries(edges@)).map_values(|v: Seq<[u8; 32]>| hash_views(v)) == last_wins(dedges.take(j as int)),
            decreases data.dag_edges@.len() - j,
        {
            let ghost m0 = to_map(hentries(edges@));
            let children = copy_hashes(&data.dag_edges[j].1);
            hset(&mut edges, &data.dag_edges[j].0, children);
            proof {
                assert(dedges.take(j + 1).drop_last() =~= dedges.take(j as int));
                assert(to_map(hentries(edges@)).map_values(|v: Seq<[u8; 32]>| hash_views(v)) =~= last_wins(dedges.take(j + 1)));
            }
            j = j + 1;
        }
        proof {
            assert(des.take(data.entries@.len() as int) =~= des);
            assert(dedges.take(data.dag_edges@.len() as int) =~= dedges);
        }
        let cache = Self::children_cache(&edges);
        self.entries = entries;
        self.dag_edges = edges;
        self.has_children_cache = cache;
        self.next_batch_id = data.next_batch_id;
        self.dirty = true;
    }

    /// Rebuilds the nonce indexes from the entries: every user transaction's
    /// `(sender, nonce)` is indexed, and each sender's last nonce is its greatest
    /// one, recorded only when positive.
    fn rebuild_indexes(&mut self)
        requires
            old(self).wf(),
        ensures
            final(self).wf(),
            final(self)@.entries == old(self)@.entries,
            final(self)@.edges == old(self)@.edges,
            final(self)@.nonces == user_pairs(old(self)@.entries),
            is_max_nonce_map(final(self)@.last, user_pairs(old(self)@.entries)),
            final(self).next_batch() == old(self).next_batch(),
            final(self).is_dirty_spec() == old(self).is_dirty_spec(),
            final(self).path() == old(self).path(),
    {
        self.finalized_nonces = Vec::new();
        self.last_finalized_nonce_per_sender = Vec::new();
        proof {
            assert(nonce_pairs(self.finalized_nonces@) =~= Set::<(Seq<char>, u64)>::empty());
            assert(self@.last =~= Map::<Seq<char>, u64>::empty());
        }
        let ghost es = old(self)@.entries;
        let sys = system_sender_str();
        let mut k: usize = 0;
        while k < self.entries.len()
            invariant
                self.wf(),
                es == old(self)@.entries,
                self@.entries == es,
                self.entries == old(self).entries,
                self@.edges == old(self)@.edges,
                self.next_batch() == old(self).next_batch(),
                self.is_dirty_spec() == old(self).is_dirty_spec(),
                self.path() == old(self).path(),
                sys@ == system_sender(),
                k <= self.entries@.len(),
                self@.nonces == Set::new(|p: (Seq<char>, u64)| exists|q: int| 0 <= q < k
                    && (#[trigger] self.entries@[q]).1@.tx.sender != system_sender()
                    && p == (self.entries@[q].1@.tx.sender, self.entries@[q].1@.tx.nonce)),
                is_max_nonce_map(self@.last, self@.nonces),
            decreases self.entries@.len() - k,
        {
            let ghost n0 = self@.nonces;
            let sender = &self.entries[k].1.tx.sender;
            let nonce = self.entries[k].1.tx.nonce;
            if !str_eq(sender.as_str(), sys) {
                let s = sender.as_str().to_owned();
                let cur = match self.last_finalized_nonce(s.as_str()) {
                    Some(c) => c,
                    None => 0,
                };
                let ghost l0 = self@.last;
                proof {
                    lemma_max_nonce_step(l0, n0, s@, nonce);
                }
                self.index_nonce_only(s.as_str(), nonce);
                if nonce > cur {
                    sset(&mut self.last_finalized_nonce_per_sender, s.as_str(), nonce);
                }
                proof {
                    let target = Set::new(|p: (Seq<char>, u64)| exists|q: int| 0 <= q < k + 1
                        && (#[trigger] self.entries@[q]).1@.tx.sender != system_sender()
                        && p == (self.entries@[q].1@.tx.sender, self.entries@[q].1@.tx.nonce));
                    assert(self.entries@[k as int].1@.tx.sender == s@);
                    assert forall|p: (Seq<char>, u64)| #[trigger] self@.nonces.contains(p) implies target.contains(p) by {
                        if p != (s@, nonce) {
                            assert(n0.contains(p));
                            let q = choose|q: int| 0 <= q < k
                                && (#[trigger] self.entries@[q]).1@.tx.sender != system_sender()
                                && p == (self.entries@[q].1@.tx.sender, self.entries@[q].1@.tx.nonce);
                            assert(0 <= q < k + 1);
                        } else {
                            assert(0 <= k < k + 1);
                        }
                    }
                    assert forall|p: (Seq<char>, u64)| #[trigger] target.contains(p) implies self@.nonces.contains(p) by {
                        let q = choose|q: int| 0 <= q < k + 1
                            && (#[trigger] self.entries@[q]).1@.tx.sender != system_sender()
                            && p == (self.entries@[q].1@.tx.sender, self.entries@[q].1@.tx.nonce);
                        if q < k {
                            assert(n0.contains(p));
                        }
                    }
                    assert(self@.nonces =~= target);
                }
            } else {
                proof {
                    let target = Set::new(|p: (Seq<char>, u64)| exists|q: int| 0 <= q < k + 1
                        && (#[trigger] self.entries@[q]).1@.tx.sender != system_sender()
                        && p == (self.entries@[q].1@.tx.sender, self.entries@[q].1@.tx.nonce));
                    assert forall|p: (Seq<char>, u64)| #[trigger] target.contains(p) implies self@.nonces.contains(p) by {
                        let q = choose|q: int| 0 <= q < k + 1
                            && (#[trigger] self.entries@[q]).1@.tx.sender != system_sender()
                            && p == (self.entries@[q].1@.tx.sender, self.entries@[q].1@.tx.nonce);
                        assert(q != k);
                    }
                    assert forall|p: (Seq<char>, u64)| #[trigger] self@.nonces.contains(p) implies target.contains(p) by {
                        let q = choose|q: int| 0 <= q < k
                            && (#[trigger] self.entries@[q]).1@.tx.sender != system_sender()
                            && p == (self.entries@[q].1@.tx.sender, self.entries@[q].1@.tx.nonce);
                        assert(0 <= q < k + 1);
                    }
                    assert(self@.nonces =~= target);
                }
            }
            k = k + 1;
        }
        proof {
            let e = hentries(self.entries@);
            assert(self@.nonces =~= user_pairs(es)) by {
                assert forall|p: (Seq<char>, u64)| #[trigger] self@.nonces.contains(p) implies user_pairs(es).contains(p) by {
                    let q = choose|q: int| 0 <= q < self.entries@.len()
                        && (#[trigger] self.entries@[q]).1@.tx.sender != system_sender()
                        && p == (self.entries@[q].1@.tx.sender, self.entries@[q].1@.tx.nonce);
                    lemma_hentry(self.entries@, q);
                    assert(es.contains_key(self.entries@[q].0@));
                }
                assert forall|p: (Seq<char>, u64)| #[trigger] user_pairs(es).contains(p) implies self@.nonces.contains(p) by {
                    let h = choose|h: Seq<u8>| #[trigger] es.contains_key(h) && es[h].tx.sender != system_sender()
                        && p == (es[h].tx.sender, es[h].tx.nonce);
                    assert(has_key(e, h));
                    let q = choose|q: int| 0 <= q < e.len() && (#[trigger] e[q]).0 == h;
                    lemma_hentry(self.entries@, q);
                    assert(self.entries@[q].1@.tx.sender != system_sender());
                }
            }
        }
    }

    /// Indexes `(sender, nonce)` as finalized, leaving the last nonces alone.
    fn index_nonce_only(&mut self, sender: &str, nonce: u64)
        requires
            old(self).wf(),
        ensures
            final(self).wf(),
            final(self)@ == (LedgerModel { nonces: old(self)@.nonces.insert((sender@, nonce)), ..old(self)@ }),
            final(self).entries == old(self).entries,
            final(self).next_batch() == old(self).next_batch(),
            final(self).is_dirty_spec() == old(self).is_dirty_spec(),
            final(self).path() == old(self).path(),
    {
        if !self.has_finalized_nonce(sender, nonce) {
            self.finalized_nonces.push((sender.to_owned(), nonce));
        }
        proof {
            let v = self.finalized_nonces@;
            assert(nonce_pairs(v) =~= old(self)@.nonces.insert((sender@, nonce))) by {
                if v.len() > old(self).finalized_nonces@.len() {
                    assert(v[v.len() - 1].0@ == sender@ && v[v.len() - 1].1 == nonce);
                    assert forall|k: (Seq<char>, u64)| #[trigger] nonce_pairs(v).contains(k)
                        implies old(self)@.nonces.insert((sender@, nonce)).contains(k) by {
                        let i = choose|i: int| 0 <= i < v.len() && k == ((#[trigger] v[i]).0@, v[i].1);
                        if i < v.len() - 1 {
                            assert(old(self).finalized_nonces@[i] == v[i]);
                        }
                    }
                    assert forall|k: (Seq<char>, u64)| #[trigger] old(self)@.nonces.insert((sender@, nonce)).contains(k)
                        implies nonce_pairs(v).contains(k) by {
                        if k != (sender@, nonce) {
                            let i = choose|i: int| 0 <= i < old(self).finalized_nonces@.len()
                                && k == ((#[trigger] old(self).finalized_nonces@[i]).0@, old(self).finalized_nonces@[i].1);
                            assert(v[i] == old(self).finalized_nonces@[i]);
                        } else {
                            assert(k == (v[v.len() - 1].0@, v[v.len() - 1].1));
                        }
                    }
                }
            }
            assert(self@.edges =~= old(self)@.edges);
        }
    }

    /// A ledger persisted at `file_path` holding `data`, with its nonce indexes
    /// built from the entries (what loading saved data gives).
    pub fn from_data(file_path: String, data: &LedgerData) -> (l: Self)
        ensures
            l.wf(),
            l@.entries == entries_of(data@.entries),
            l@.edges == last_wins(data@.dag_edges),
            l@.nonces == user_pairs(entries_of(data@.entries)),
            is_max_nonce_map(l@.last, user_pairs(entries_of(data@.entries))),
            l.next_batch() == data.next_batch_id,
            !l.is_dirty_spec(),
            l.path() == file_path@,
    {
        let mut l = Ledger::new(file_path);
        l.restore(data);
        l.rebuild_indexes();
        l.dirty = false;
        l
    }

    /// The ledger as plain data: every entry once, the edges, and the next batch id.
    pub fn to_data(&self) -> (d: LedgerData)
        requires
            self.wf(),
        ensures
            entries_of(d@.entries) == self@.entries,
            keys_unique(entry_pairs(d@.entries)),
            d@.entries.len() == self@.entries.len(),
            last_wins(d@.dag_edges) == self@.edges,
            d.next_batch_id == self.next_batch(),
    {
        let mut entries: Vec<LedgerEntry> = Vec::new();
        let mut i: usize = 0;
        while i < self.entries.len()
            invariant
                i <= self.entries@.len(),
                entries@.len() == i,
                forall|k: int| 0 <= k < i ==> (#[trigger] entries@[k])@ == self.entries@[k].1@,
            decreases self.entries@.len() - i,
        {
            entries.push(self.entries[i].1.duplicate());
            i = i + 1;
        }
        let mut edges: Vec<([u8; 32], Vec<[u8; 32]>)> = Vec::new();
        let mut j: usize = 0;
        while j < self.dag_edges.len()
            invariant
                j <= self.dag_edges@.len(),
                edges@.len() == j,
                forall|k: int| 0 <= k < j ==> (#[trigger] edges@[k]).0@ == self.dag_edges@[k].0@
                    && edges@[k].1@ == self.dag_edges@[k].1@,
            decreases self.dag_edges@.len() - j,
        {
            edges.push((self.dag_edges[j].0, copy_hashes(&self.dag_edges[j].1)));
            j = j + 1;
        }
        let d = LedgerData { entries, dag_edges: edges, next_batch_id: self.next_batch_id };
        proof {
            let he = hentries(self.entries@);
            assert forall|k: int| 0 <= k < he.len() implies #[trigger] he[k].0 == he[k].1.tx.hash by {
                lemma_hentry(self.entries@, k);
            }
            assert(entry_pairs(d@.entries) =~= he);
            lemma_last_wins_unique(he);
            lemma_entries_len(he);
            let hd = hentries(self.dag_edges@);
            assert(d@.dag_edges =~= hd.map_values(|e: (Seq<u8>, Seq<[u8; 32]>)| (e.0, hash_views(e.1))));
            let md = d@.dag_edges;
            assert(keys_unique(md)) by {
                assert forall|a: int, b: int| 0 <= a < b < md.len() implies (#[trigger] md[a]).0 != (#[trigger] md[b]).0 by {
                    assert(hd[a].0 != hd[b].0);
                }
            }
            lemma_last_wins_unique(md);
            assert forall|p: Seq<u8>| #[trigger] to_map(md).contains_key(p) <==> self@.edges.contains_key(p) by {
                if to_map(md).contains_key(p) {
                    let q = choose|q: int| 0 <= q < md.len() && (#[trigger] md[q]).0 == p;
                    assert(hd[q].0 == p);
                }
                if self@.edges.contains_key(p) {
                    let q = choose|q: int| 0 <= q < hd.len() && (#[trigger] hd[q]).0 == p;
                    assert(md[q].0 == p);
                }
            }
            assert forall|p: Seq<u8>| #[trigger] to_map(md).contains_key(p) implies to_map(md)[p] == self@.edges[p] by {
                let q = choose|q: int| 0 <= q < md.len() && (#[trigger] md[q]).0 == p;
                lemma_to_map_index(md, q);
                lemma_hentry(self.dag_edges@, q);
            }
            assert(to_map(md) =~= self@.edges);
        }
        d
    }

    /// Number of reward entries per rewarded node (nodes with none are absent).
    pub fn finalized_count_per_node(&self) -> (r: Vec<(String, usize)>)
        requires
            self.wf(),
        ensures
            keys_unique(sentries(r@)),
            forall|node: Seq<char>| #[trigger] to_map(sentries(r@)).contains_key(node)
                <==> map_sum(self@.entries, pays(node)) > 0,
            forall|node: Seq<char>| #[trigger] to_map(sentries(r@)).contains_key(node)
                ==> to_map(sentries(r@))[node] == map_sum(self@.entries, pays(node)),
    {
        let ghost he = hentries(self.entries@);
        let mut r: Vec<(String, usize)> = Vec::new();
        let mut k: usize = 0;
        while k < self.entries.len()
            invariant
                he == hentries(self.entries@),
                k <= self.entries@.len(),
                keys_unique(sentries(r@)),
                forall|node: Seq<char>| #[trigger] to_map(sentries(r@)).contains_key(node)
                    <==> seq_sum(he.take(k as int), pays(node)) > 0,
                forall|node: Seq<char>| #[trigger] to_map(sentries(r@)).contains_key(node)
                    ==> to_map(sentries(r@))[node] == seq_sum(he.take(k as int), pays(node)),
                forall|node: Seq<char>| 0 <= seq_sum(he.take(k as int), #[trigger] pays(node)) <= k,
            decreases self.entries@.len() - k,
        {
            let ghost m0 = to_map(sentries(r@));
            proof {
                assert(he.take(k + 1).drop_last() =~= he.take(k as int));
                assert(he.take(k + 1).last() == he[k as int]);
            }
            match &self.entries[k].1.entry_type {
                EntryType::RewardTx { rewarded_node, .. } => {
                    let c: usize = match sfind(&r, rewarded_node.as_str()) {
                        Some(i) => {
                            proof {
                                lemma_sentry(r@, i as int);
                                assert(to_map(sentries(r@)).contains_key(rewarded_node@));
                            }
                            r[i].1
                        },
                        None => {
                            proof {
                                assert(!to_map(sentries(r@)).contains_key(rewarded_node@));
                                assert(seq_sum(he.take(k as int), pays(rewarded_node@)) <= 0);
                            }
                            0
                        },
                    };
                    proof {
                        assert(c == seq_sum(he.take(k as int), pays(rewarded_node@)));
                    }
                    sset(&mut r, rewarded_node.as_str(), c + 1);
                    proof {
                        assert forall|node: Seq<char>| #[trigger] to_map(sentries(r@)).contains_key(node)
                            <==> seq_sum(he.take(k + 1), pays(node)) > 0 by {
                            if node != rewarded_node@ {
                                assert(m0.contains_key(node) == to_map(sentries(r@)).contains_key(node));
                            }
                        }
                    }
                },
                EntryType::UserTx => {},
            }
            k = k + 1;
        }
        proof {
            assert(he.take(self.entries@.len() as int) =~= he);
            assert forall|node: Seq<char>| map_sum(self@.entries, #[trigger] pays(node)) == seq_sum(he, pays(node)) by {
                lemma_map_sum(he, pays(node));
            }
        }
        r
    }

    /// Sum of the fees of the finalized user transactions.
    pub fn total_fees_collected(&self) -> (total: u64)
        requires
            self.wf(),
            map_sum(self@.entries, user_fee()) <= u64::MAX,
        ensures
            total == map_sum(self@.entries, user_fee()),
    {
        let ghost he = hentries(self.entries@);
        proof {
            lemma_map_sum(he, user_fee());
        }
        let sys = system_sender_str();
        let mut total: u64 = 0;
        let mut k: usize = 0;
        while k < self.entries.len()
            invariant
                he == hentries(self.entries@),
                k <= self.entries@.len(),
                sys@ == system_sender(),
                seq_sum(he, user_fee()) <= u64::MAX,
                total == seq_sum(he.take(k as int), user_fee()),
            decreases self.entries@.len() - k,
        {
            proof {
                assert(he.take(k + 1).drop_last() =~= he.take(k as int));
                assert(he.take(k + 1).last() == he[k as int]);
                lemma_seq_sum_prefix(he, k + 1, user_fee());
            }
            let tx = &self.entries[k].1.tx;
            if !str_eq(tx.sender.as_str(), sys) {
                total = total + tx.fee;
            }
            k = k + 1;
        }
        proof {
            assert(he.take(self.entries@.len() as int) =~= he);
        }
        total
    }

    /// The hashes of the entries, in storage order.
    pub closed spec fn entry_keys(&self) -> Seq<Seq<u8>> {
        hentries(self.entries@).map_values(|e: (Seq<u8>, EntryView)| e.0)
    }

    /// The entry keys list every entry exactly once.
    pub proof fn lemma_entry_keys(&self)
        requires
            self.wf(),
        ensures
            self.entry_keys().len() == self@.entries.len(),
            forall|q: int| 0 <= q < self.entry_keys().len() ==> self@.entries.contains_key(#[trigger] self.entry_keys()[q]),
            forall|h: Seq<u8>| #[trigger] self@.entries.contains_key(h) ==> exists|q: int|
                0 <= q < self.entry_keys().len() && self.entry_keys()[q] == h,
    {
        lemma_entries_len(hentries(self.entries@));
        assert forall|q: int| 0 <= q < self.entry_keys().len() implies self@.entries.contains_key(#[trigger] self.entry_keys()[q]) by {
            lemma_hentry(self.entries@, q);
        }
        assert forall|h: Seq<u8>| #[trigger] self@.entries.contains_key(h) implies exists|q: int|
            0 <= q < self.entry_keys().len() && self.entry_keys()[q] == h by {
            let e = hentries(self.entries@);
            let q = choose|q: int| 0 <= q < e.len() && (#[trigger] e[q]).0 == h;
            assert(self.entry_keys()[q] == h);
        }
    }

    /// The sender of the `k`-th entry in storage order.
    pub fn entry_sender(&self, k: usize) -> (s: &String)
        requires
            self.wf(),
            k < self.entry_keys().len(),
        ensures
            self@.entries.contains_key(self.entry_keys()[k as int]),
            s@ == self@.entries[self.entry_keys()[k as int]].tx.sender,
    {
        proof {
            lemma_hentry(self.entries@, k as int);
        }
        &self.entries[k].1.tx.sender
    }
}

/// Reloading a written-out ledger gives back its entries, edges and next batch
/// id: `to_data` writes lists whose maps are the ledger's, and `from_data`
/// installs those maps (and indexes the nonces of the user entries among them).
pub proof fn law_ledger_reload(src: LedgerModel, src_next: u64, data: LedgerData)
    requires
        entries_of(data@.entries) == src.entries,
        last_wins(data@.dag_edges) == src.edges,
        data.next_batch_id == src_next,
    ensures
        entries_of(data@.entries) == src.entries,
        last_wins(data@.dag_edges) == src.edges,
        data.next_batch_id == src_next,
        user_pairs(entries_of(data@.entries)) == user_pairs(src.entries),
{
}

} // verus!
