//! Pending transactions, with per-sender nonce bookkeeping that rejects
//! replays and double spends before they reach consensus.
use vstd::prelude::*;
use crate::config::NONCE_HISTORY_MAX_PER_SENDER;
use crate::keyed::{hash_views, hentries, hfind, hremove, hset, lemma_hentry, lemma_sentry, sentries, sfind, sset, hash_eq};
use crate::maps::{has_key, keys_unique, last_wins, lemma_entries_len, lemma_last_wins_unique, lemma_to_map_index, lemma_to_map_push, lemma_to_map_remove, lemma_to_map_update, to_map};
use crate::strings::str_eq;
use crate::transaction::{tx_views, Transaction, TxView};

verus! {

/// The pool as plain data, for persistence.
#[derive(Debug)]
pub struct MempoolData {
    pub pending: Vec<Transaction>,
    pub arrival_time: Vec<([u8; 32], u64)>,
    pub nonce_history: Vec<(String, Vec<u64>)>,
    pub last_nonce: Vec<(String, u64)>,
}

/// The last `NONCE_HISTORY_MAX_PER_SENDER` entries of a nonce history.
pub open spec fn trim_history(h: Seq<u64>) -> Seq<u64> {
    if h.len() > NONCE_HISTORY_MAX_PER_SENDER {
        h.subrange(h.len() - NONCE_HISTORY_MAX_PER_SENDER, h.len() as int)
    } else {
        h
    }
}

/// The recorded nonces of `s` (empty if none).
pub open spec fn history_of(h: Map<Seq<char>, Seq<u64>>, s: Seq<char>) -> Seq<u64> {
    if h.contains_key(s) {
        h[s]
    } else {
        Seq::empty()
    }
}

/// Whether nonce `n` is among the remembered nonces of `s`.
pub open spec fn known_nonce(h: Map<Seq<char>, Seq<u64>>, s: Seq<char>, n: u64) -> bool {
    history_of(h, s).contains(n)
}

/// The histories after recording nonce `n` for `s`.
pub open spec fn record_spec(h: Map<Seq<char>, Seq<u64>>, s: Seq<char>, n: u64) -> Map<Seq<char>, Seq<u64>> {
    h.insert(s, trim_history(history_of(h, s).push(n)))
}

/// Abstract entries of the `(sender, nonce) -> hash` index.
pub open spec fn index_entries(v: Seq<((String, u64), [u8; 32])>) -> Seq<((Seq<char>, u64), Seq<u8>)> {
    v.map_values(|e: ((String, u64), [u8; 32])| ((e.0.0@, e.0.1), e.1@))
}

/// The `(sender, nonce)` pairs of the pool's transactions whose hashes are in `hs`.
pub open spec fn sender_nonce_keys(pool: Map<Seq<u8>, TxView>, hs: Set<Seq<u8>>) -> Set<(Seq<char>, u64)> {
    Set::new(|k: (Seq<char>, u64)| exists|h: Seq<u8>| #[trigger] hs.contains(h) && pool.contains_key(h)
        && k == (pool[h].sender, pool[h].nonce))
}

/// The pool's mathematical state.
pub struct MempoolModel {
    pub pending: Map<Seq<u8>, TxView>,
    pub arrivals: Map<Seq<u8>, u64>,
    pub histories: Map<Seq<char>, Seq<u64>>,
    pub last: Map<Seq<char>, u64>,
    pub index: Map<(Seq<char>, u64), Seq<u8>>,
    pub capacity: nat,
    pub next_stamp: u64,
    pub dirty: bool,
}

/// Whether a pool in state `m` accepts `t`: there is room, the hash is new, and
/// the `(sender, nonce)` pair is fresh and above the sender's last nonce.
pub open spec fn accepts_spec(m: MempoolModel, t: TxView) -> bool {
    &&& m.pending.len() < m.capacity
    &&& !m.pending.contains_key(t.hash)
    &&& !m.index.contains_key((t.sender, t.nonce))
    &&& !known_nonce(m.histories, t.sender, t.nonce)
    &&& !(m.last.contains_key(t.sender) && t.nonce <= m.last[t.sender])
}

/// The pool after offering `t`: unchanged unless it is accepted, in which case
/// it is pending with the next arrival stamp, indexed, and its nonce recorded.
pub open spec fn add_spec(m: MempoolModel, t: TxView) -> MempoolModel {
    if accepts_spec(m, t) {
        MempoolModel {
            pending: m.pending.insert(t.hash, t),
            arrivals: m.arrivals.insert(t.hash, m.next_stamp),
            histories: record_spec(m.histories, t.sender, t.nonce),
            last: m.last.insert(t.sender, t.nonce),
            index: m.index.insert((t.sender, t.nonce), t.hash),
            next_stamp: (m.next_stamp + 1) as u64,
            dirty: true,
            ..m
        }
    } else {
        m
    }
}

/// The pool after removing the transactions whose hashes are in `hs`.
pub open spec fn remove_spec(m: MempoolModel, hs: Set<Seq<u8>>) -> MempoolModel {
    MempoolModel {
        pending: m.pending.remove_keys(hs),
        arrivals: m.arrivals.remove_keys(hs),
        index: m.index.remove_keys(sender_nonce_keys(m.pending, hs)),
        dirty: m.dirty || exists|h: Seq<u8>| #[trigger] hs.contains(h) && m.pending.contains_key(h),
        ..m
    }
}

/// Transactions waiting for consensus, keyed by hash.
pub struct Mempool {
    pending: Vec<([u8; 32], Transaction)>,
    arrival_time: Vec<([u8; 32], u64)>,
    nonce_history: Vec<(String, Vec<u64>)>,
    last_nonce: Vec<(String, u64)>,
    by_sender_nonce: Vec<((String, u64), [u8; 32])>,
    max_size: usize,
    next_timestamp: u64,
    file_path: String,
    dirty: bool,
}

impl View for Mempool {
    /// The pending transactions by hash.
    type V = Map<Seq<u8>, TxView>;

    closed spec fn view(&self) -> Map<Seq<u8>, TxView> {
        to_map(hentries(self.pending@))
    }
}

impl Mempool {
    /// Internal consistency: keys are unique in every table, each pending entry is
    /// keyed by its own hash, and every arrival stamp belongs to a pending
    /// transaction and is below the next stamp.
    pub closed spec fn wf(&self) -> bool {
        &&& keys_unique(hentries(self.pending@))
        &&& keys_unique(hentries(self.arrival_time@))
        &&& keys_unique(sentries(self.nonce_history@))
        &&& keys_unique(sentries(self.last_nonce@))
        &&& keys_unique(index_entries(self.by_sender_nonce@))
        &&& forall|h: Seq<u8>| #[trigger] self@.contains_key(h) ==> self@[h].hash == h
        &&& forall|h: Seq<u8>| #[trigger] self.arrivals().contains_key(h) ==> self@.contains_key(h)
            && self.arrivals()[h] < self.next_timestamp
    }

    /// Arrival stamps of pending transactions (first arrival is smallest).
    pub closed spec fn arrivals(&self) -> Map<Seq<u8>, u64> {
        to_map(hentries(self.arrival_time@))
    }

    /// The most recent nonces seen per sender (at most `NONCE_HISTORY_MAX_PER_SENDER` each).
    pub closed spec fn histories(&self) -> Map<Seq<char>, Seq<u64>> {
        to_map(sentries(self.nonce_history@))
    }

    /// Highest nonce accepted per sender.
    pub closed spec fn last_nonces(&self) -> Map<Seq<char>, u64> {
        to_map(sentries(self.last_nonce@))
    }

    /// Index from `(sender, nonce)` to the hash of the pending transaction.
    pub closed spec fn index(&self) -> Map<(Seq<char>, u64), Seq<u8>> {
        to_map(index_entries(self.by_sender_nonce@))
    }

    /// Maximum number of pending transactions.
    pub closed spec fn capacity(&self) -> nat {
        self.max_size as nat
    }

    /// The stamp the next accepted transaction receives.
    pub closed spec fn next_stamp(&self) -> u64 {
        self.next_timestamp
    }

    /// Whether there are changes not yet written out.
    pub closed spec fn is_dirty_spec(&self) -> bool {
        self.dirty
    }

    /// The file the pool is persisted to.
    pub closed spec fn path(&self) -> Seq<char> {
        self.file_path@
    }

    /// The whole state of the pool.
    pub open spec fn model(&self) -> MempoolModel {
        MempoolModel {
            pending: self@,
            arrivals: self.arrivals(),
            histories: self.histories(),
            last: self.last_nonces(),
            index: self.index(),
            capacity: self.capacity(),
            next_stamp: self.next_stamp(),
            dirty: self.is_dirty_spec(),
        }
    }

    /// Whether `add` accepts `t`.
    pub open spec fn accepts(&self, t: TxView) -> bool {
        accepts_spec(self.model(), t)
    }

    /// An empty pool of capacity `max_size`, persisted at `file_path` (the
    /// caller loads any saved data).
    pub fn new(max_size: usize, file_path: String) -> (m: Self)
        ensures
            m@ == Map::<Seq<u8>, TxView>::empty(),
            m.arrivals() == Map::<Seq<u8>, u64>::empty(),
            m.histories() == Map::<Seq<char>, Seq<u64>>::empty(),
            m.last_nonces() == Map::<Seq<char>, u64>::empty(),
            m.index() == Map::<(Seq<char>, u64), Seq<u8>>::empty(),
            m.capacity() == max_size,
            m.next_stamp() == 0,
            !m.is_dirty_spec(),
            m.path() == file_path@,
            m.wf(),
    {
        let m = Mempool {
            pending: Vec::new(),
            arrival_time: Vec::new(),
            nonce_history: Vec::new(),
            last_nonce: Vec::new(),
            by_sender_nonce: Vec::new(),
            max_size,
            next_timestamp: 0,
            file_path,
            dirty: false,
        };
        proof {
            assert(m@ =~= Map::<Seq<u8>, TxView>::empty());
            assert(m.arrivals() =~= Map::<Seq<u8>, u64>::empty());
            assert(m.histories() =~= Map::<Seq<char>, Seq<u64>>::empty());
            assert(m.last_nonces() =~= Map::<Seq<char>, u64>::empty());
            assert(m.index() =~= Map::<(Seq<char>, u64), Seq<u8>>::empty());
        }
        m
    }

    fn index_find(&self, sender: &str, nonce: u64) -> (r: Option<usize>)
        ensures
            match r {
                Some(i) => i < self.by_sender_nonce@.len() && self.by_sender_nonce@[i as int].0.0@ == sender@
                    && self.by_sender_nonce@[i as int].0.1 == nonce,
                None => !has_key(index_entries(self.by_sender_nonce@), (sender@, nonce)),
            },
    {
        let v = &self.by_sender_nonce;
        let mut i: usize = 0;
        while i < v.len()
            invariant
                v == &self.by_sender_nonce,
                i <= v@.len(),
                forall|k: int| 0 <= k < i ==> !((#[trigger] v@[k]).0.0@ == sender@ && v@[k].0.1 == nonce),
            decreases v@.len() - i,
        {
            if v[i].0.1 == nonce && str_eq(v[i].0.0.as_str(), sender) {
                return Some(i);
            }
            i = i + 1;
        }
        proof {
            let e = index_entries(v@);
            if has_key(e, (sender@, nonce)) {
                let k = choose|k: int| 0 <= k < e.len() && (#[trigger] e[k]).0 == (sender@, nonce);
                assert(e[k].0 == (v@[k].0.0@, v@[k].0.1));
            }
        }
        None
    }

    /// Whether `(sender, nonce)` has a pending transaction in the index.
    pub fn index_contains(&self, sender: &str, nonce: u64) -> (b: bool)
        requires
            self.wf(),
        ensures
            b == self.index().contains_key((sender@, nonce)),
    {
        match self.index_find(sender, nonce) {
            Some(i) => {
                proof {
                    lemma_to_map_index(index_entries(self.by_sender_nonce@), i as int);
                }
                true
            },
            None => false,
        }
    }

    /// Whether `nonce` is among the remembered nonces of `sender`.
    pub fn is_known_nonce(&self, sender: &str, nonce: u64) -> (b: bool)
        requires
            self.wf(),
        ensures
            b == known_nonce(self.histories(), sender@, nonce),
    {
        match sfind(&self.nonce_history, sender) {
            Some(i) => {
                proof {
                    lemma_sentry(self.nonce_history@, i as int);
                }
                let h = &self.nonce_history[i].1;
                let mut k: usize = 0;
                while k < h.len()
                    invariant
                        k <= h@.len(),
                        forall|j: int| 0 <= j < k ==> h@[j] != nonce,
                        self.histories().contains_key(sender@),
                        self.histories()[sender@] == h@,
                    decreases h@.len() - k,
                {
                    if h[k] == nonce {
                        proof {
                            assert(h@[k as int] == nonce);
                        }
                        return true;
                    }
                    k = k + 1;
                }
                false
            },
            None => false,
        }
    }

    /// Remembers `nonce` for `sender`, forgetting the oldest beyond the limit.
    pub fn record_nonce(&mut self, sender: &str, nonce: u64)
        requires
            old(self).wf(),
        ensures
            final(self).wf(),
            final(self).histories() == record_spec(old(self).histories(), sender@, nonce),
            final(self)@ == old(self)@,
            final(self).arrivals() == old(self).arrivals(),
            final(self).last_nonces() == old(self).last_nonces(),
            final(self).index() == old(self).index(),
            final(self).capacity() == old(self).capacity(),
            final(self).next_stamp() == old(self).next_stamp(),
            final(self).is_dirty_spec() == old(self).is_dirty_spec(),
            final(self).path() == old(self).path(),
    {
        let mut h: Vec<u64> = match sfind(&self.nonce_history, sender) {
            Some(i) => {
                proof {
                    lemma_sentry(self.nonce_history@, i as int);
                }
                self.nonce_history[i].1.clone()
            },
            None => Vec::new(),
        };
        h.push(nonce);
        let ghost full = h@;
        while h.len() > NONCE_HISTORY_MAX_PER_SENDER
            invariant
                full.len() >= h@.len(),
                h@.len() >= NONCE_HISTORY_MAX_PER_SENDER || h@.len() == full.len(),
                h@ == full.subrange(full.len() - h@.len(), full.len() as int),
            decreases h@.len(),
        {
            h.remove(0);
        }
        proof {
            if full.len() <= NONCE_HISTORY_MAX_PER_SENDER {
                assert(full.subrange(0, full.len() as int) =~= full);
            }
            assert(h@ == trim_history(full));
        }
        sset(&mut self.nonce_history, sender, h);
        proof {
            assert(self@ == old(self)@);
            assert(self.arrivals() == old(self).arrivals());
        }
    }

    /// The highest nonce accepted from `sender`, if any.
    pub fn get_last_nonce(&self, sender: &str) -> (r: Option<u64>)
        requires
            self.wf(),
        ensures
            r == if self.last_nonces().contains_key(sender@) {
                Some(self.last_nonces()[sender@])
            } else {
                None
            },
    {
        match sfind(&self.last_nonce, sender) {
            Some(i) => {
                proof {
                    lemma_sentry(self.last_nonce@, i as int);
                }
                Some(self.last_nonce[i].1)
            },
            None => None,
        }
    }

    /// Raises the last nonce of `sender` to `nonce` (and remembers it) when it is
    /// above the current one (0 when none).
    pub fn set_last_nonce(&mut self, sender: &str, nonce: u64)
        requires
            old(self).wf(),
        ensures
            final(self).wf(),
            ({
                let cur = if old(self).last_nonces().contains_key(sender@) { old(self).last_nonces()[sender@] } else { 0 };
                if nonce > cur {
                    &&& final(self).last_nonces() == old(self).last_nonces().insert(sender@, nonce)
                    &&& final(self).histories() == record_spec(old(self).histories(), sender@, nonce)
                    &&& final(self).is_dirty_spec()
                } else {
                    &&& final(self).last_nonces() == old(self).last_nonces()
                    &&& final(self).histories() == old(self).histories()
                    &&& final(self).is_dirty_spec() == old(self).is_dirty_spec()
                }
            }),
            final(self)@ == old(self)@,
            final(self).arrivals() == old(self).arrivals(),
            final(self).index() == old(self).index(),
            final(self).capacity() == old(self).capacity(),
            final(self).next_stamp() == old(self).next_stamp(),
            final(self).path() == old(self).path(),
    {
        let cur = match self.get_last_nonce(sender) {
            Some(n) => n,
            None => 0,
        };
        if nonce > cur {
            sset(&mut self.last_nonce, sender, nonce);
            proof {
                assert(self@ == old(self)@);
                assert(self.arrivals() == old(self).arrivals());
            }
            self.record_nonce(sender, nonce);
            self.dirty = true;
        }
    }

    /// Adds a transaction when `accepts` holds: it becomes pending with the next
    /// arrival stamp, is indexed by `(sender, nonce)`, and its nonce is recorded
    /// as the sender's last.
    pub fn add(&mut self, tx: Transaction) -> (ok: bool)
        requires
            old(self).wf(),
            old(self).next_stamp() < u64::MAX,
        ensures
            final(self).wf(),
            ok == old(self).accepts(tx@),
            ok ==> {
                &&& final(self)@ == old(self)@.insert(tx@.hash, tx@)
                &&& final(self).arrivals() == old(self).arrivals().insert(tx@.hash, old(self).next_stamp())
                &&& final(self).next_stamp() == old(self).next_stamp() + 1
                &&& final(self).index() == old(self).index().insert((tx@.sender, tx@.nonce), tx@.hash)
                &&& final(self).histories() == record_spec(old(self).histories(), tx@.sender, tx@.nonce)
                &&& final(self).last_nonces() == old(self).last_nonces().insert(tx@.sender, tx@.nonce)
                &&& final(self).is_dirty_spec()
            },
            !ok ==> {
                &&& final(self)@ == old(self)@
                &&& final(self).arrivals() == old(self).arrivals()
                &&& final(self).next_stamp() == old(self).next_stamp()
                &&& final(self).index() == old(self).index()
                &&& final(self).histories() == old(self).histories()
                &&& final(self).last_nonces() == old(self).last_nonces()
                &&& final(self).is_dirty_spec() == old(self).is_dirty_spec()
            },
            final(self).model() == add_spec(old(self).model(), tx@),
            final(self).capacity() == old(self).capacity(),
            final(self).path() == old(self).path(),
    {
        proof {
            lemma_entries_len(hentries(self.pending@));
        }
        if self.pending.len() >= self.max_size {
            return false;
        }
        if self.contains(&tx.hash) {
            return false;
        }
        if self.index_contains(tx.sender.as_str(), tx.nonce) {
            return false;
        }
        if self.is_known_nonce(tx.sender.as_str(), tx.nonce) {
            return false;
        }
        match self.get_last_nonce(tx.sender.as_str()) {
            Some(last) => {
                if tx.nonce <= last {
                    return false;
                }
            },
            None => {},
        }
        let ts = self.next_timestamp;
        let hash: [u8; 32] = tx.hash;
        let sender = tx.sender.clone();
        let nonce = tx.nonce;
        let ghost tv = tx@;
        hset(&mut self.pending, &hash, tx);
        hset(&mut self.arrival_time, &hash, ts);
        proof {
            let e = index_entries(self.by_sender_nonce@);
            assert(!has_key(e, (sender@, nonce)));
            lemma_to_map_push(e, (sender@, nonce), hash@);
        }
        self.by_sender_nonce.push(((sender.clone(), nonce), hash));
        proof {
            assert(index_entries(self.by_sender_nonce@) =~= index_entries(old(self).by_sender_nonce@).push(((sender@, nonce), hash@)));
            assert forall|h: Seq<u8>| #[trigger] to_map(hentries(self.pending@)).contains_key(h) implies to_map(hentries(self.pending@))[h].hash == h by {
                if h != hash@ {
                    assert(old(self)@.contains_key(h));
                }
            }
            assert forall|h: Seq<u8>| #[trigger] to_map(hentries(self.arrival_time@)).contains_key(h) implies to_map(hentries(self.pending@)).contains_key(h)
                && to_map(hentries(self.arrival_time@))[h] < ts + 1 by {
                if h != hash@ {
                    assert(old(self).arrivals().contains_key(h));
                }
            }
        }
        self.next_timestamp = ts + 1;
        self.record_nonce(sender.as_str(), nonce);
        sset(&mut self.last_nonce, sender.as_str(), nonce);
        self.dirty = true;
        true
    }

    /// Removes a pending transaction (with its arrival stamp and index entry)
    /// and returns it.
    pub fn remove(&mut self, hash: &[u8; 32]) -> (r: Option<Transaction>)
        requires
            old(self).wf(),
        ensures
            final(self).wf(),
            match r {
                Some(t) => {
                    &&& old(self)@.contains_key(hash@)
                    &&& t@ == old(self)@[hash@]
                    &&& t@.hash == hash@
                    &&& final(self)@ == old(self)@.remove(hash@)
                    &&& final(self).arrivals() == old(self).arrivals().remove(hash@)
                    &&& final(self).index() == old(self).index().remove((t@.sender, t@.nonce))
                    &&& final(self).is_dirty_spec()
                },
                None => {
                    &&& !old(self)@.contains_key(hash@)
                    &&& final(self)@ == old(self)@
                    &&& final(self).arrivals() == old(self).arrivals()
                    &&& final(self).index() == old(self).index()
                    &&& final(self).is_dirty_spec() == old(self).is_dirty_spec()
                },
            },
            final(self).histories() == old(self).histories(),
            final(self).last_nonces() == old(self).last_nonces(),
            final(self).next_stamp() == old(self).next_stamp(),
            final(self).capacity() == old(self).capacity(),
            final(self).path() == old(self).path(),
    {
        if !self.contains(hash) {
            return None;
        }
        let removed = hremove(&mut self.pending, hash);
        let _ = hremove(&mut self.arrival_time, hash);
        match removed {
            Some(t) => {
                index_remove(&mut self.by_sender_nonce, t.sender.as_str(), t.nonce);
                proof {
                    assert forall|h: Seq<u8>| #[trigger] to_map(hentries(self.arrival_time@)).contains_key(h) implies to_map(hentries(self.pending@)).contains_key(h)
                        && to_map(hentries(self.arrival_time@))[h] < self.next_timestamp by {
                        assert(old(self).arrivals().contains_key(h));
                    }
                }
                self.dirty = true;
                Some(t)
            },
            None => {
                None
            },
        }
    }

    /// Removes the listed pending transactions (in order; absent hashes are
    /// skipped) and returns the removed ones.
    pub fn remove_batch(&mut self, hashes: &[[u8; 32]]) -> (removed: Vec<Transaction>)
        requires
            old(self).wf(),
        ensures
            final(self).wf(),
            final(self)@ == old(self)@.remove_keys(hash_views(hashes@).to_set()),
            final(self).arrivals() == old(self).arrivals().remove_keys(hash_views(hashes@).to_set()),
            final(self).index() == old(self).index().remove_keys(sender_nonce_keys(old(self)@, hash_views(hashes@).to_set())),
            final(self).model() == remove_spec(old(self).model(), hash_views(hashes@).to_set()),
            forall|i: int| 0 <= i < removed@.len() ==> old(self)@.contains_key((#[trigger] removed@[i])@.hash)
                && old(self)@[removed@[i]@.hash] == removed@[i]@,
            forall|h: Seq<u8>| old(self)@.contains_key(h) && #[trigger] hash_views(hashes@).contains(h)
                ==> exists|i: int| 0 <= i < removed@.len() && (#[trigger] removed@[i])@.hash == h,
            final(self).is_dirty_spec() == (old(self).is_dirty_spec() || removed@.len() > 0),
            final(self).histories() == old(self).histories(),
            final(self).last_nonces() == old(self).last_nonces(),
            final(self).next_stamp() == old(self).next_stamp(),
            final(self).capacity() == old(self).capacity(),
            final(self).path() == old(self).path(),
    {
        let mut removed: Vec<Transaction> = Vec::new();
        let ghost hv = hash_views(hashes@);
        let mut i: usize = 0;
        while i < hashes.len()
            invariant
                self.wf(),
                i <= hashes@.len(),
                hv == hash_views(hashes@),
                self@ == old(self)@.remove_keys(hv.take(i as int).to_set()),
                self.arrivals() == old(self).arrivals().remove_keys(hv.take(i as int).to_set()),
                self.index() == old(self).index().remove_keys(sender_nonce_keys(old(self)@, hv.take(i as int).to_set())),
                forall|k: int| 0 <= k < removed@.len() ==> old(self)@.contains_key((#[trigger] removed@[k])@.hash)
                    && old(self)@[removed@[k]@.hash] == removed@[k]@ && hv.take(i as int).contains(removed@[k]@.hash),
                forall|h: Seq<u8>| old(self)@.contains_key(h) && #[trigger] hv.take(i as int).contains(h)
                    ==> exists|k: int| 0 <= k < removed@.len() && (#[trigger] removed@[k])@.hash == h,
                self.is_dirty_spec() == (old(self).is_dirty_spec() || removed@.len() > 0),
                self.histories() == old(self).histories(),
                self.last_nonces() == old(self).last_nonces(),
                self.next_stamp() == old(self).next_stamp(),
                self.capacity() == old(self).capacity(),
                self.path() == old(self).path(),
            decreases hashes@.len() - i,
        {
            let ghost before = self@;
            let ghost before_index = self.index();
            let ghost prev_removed = removed@;
            let r = self.remove(&hashes[i]);
            proof {
                assert(hv.take(i + 1) =~= hv.take(i as int).push(hv[i as int]));
                hv.take(i as int).lemma_push_to_set_commute(hv[i as int]);
                assert(hv[i as int] == hashes@[i as int]@);
                assert(hv.take(i + 1).to_set() =~= hv.take(i as int).to_set().insert(hashes@[i as int]@));
                assert(self@ =~= old(self)@.remove_keys(hv.take(i + 1).to_set()));
                assert(self.arrivals() =~= old(self).arrivals().remove_keys(hv.take(i + 1).to_set()));
            }
            proof {
                let prev = hv.take(i as int).to_set();
                let next = hv.take(i + 1).to_set();
                let h = hashes@[i as int]@;
                let ks0 = sender_nonce_keys(old(self)@, prev);
                let ks1 = sender_nonce_keys(old(self)@, next);
                match r {
                    Some(ref t) => {
                        assert(old(self)@.contains_key(h) && old(self)@[h] == t@);
                        assert(ks1 =~= ks0.insert((t@.sender, t@.nonce))) by {
                            assert forall|k: (Seq<char>, u64)| ks1.contains(k) implies ks0.insert((t@.sender, t@.nonce)).contains(k) by {
                                let w = choose|w: Seq<u8>| #[trigger] next.contains(w) && old(self)@.contains_key(w)
                                    && k == (old(self)@[w].sender, old(self)@[w].nonce);
                                if w != h {
                                    assert(prev.contains(w));
                                }
                            }
                            assert forall|k: (Seq<char>, u64)| ks0.insert((t@.sender, t@.nonce)).contains(k) implies ks1.contains(k) by {
                                if k == (t@.sender, t@.nonce) {
                                    assert(next.contains(h));
                                } else {
                                    let w = choose|w: Seq<u8>| #[trigger] prev.contains(w) && old(self)@.contains_key(w)
                                        && k == (old(self)@[w].sender, old(self)@[w].nonce);
                                    assert(next.contains(w));
                                }
                            }
                        }
                        assert(self.index() =~= old(self).index().remove_keys(ks1));
                    },
                    None => {
                        assert(ks1 =~= ks0) by {
                            assert forall|k: (Seq<char>, u64)| ks1.contains(k) implies ks0.contains(k) by {
                                let w = choose|w: Seq<u8>| #[trigger] next.contains(w) && old(self)@.contains_key(w)
                                    && k == (old(self)@[w].sender, old(self)@[w].nonce);
                                if w == h && !prev.contains(w) {
                                    assert(before.contains_key(h));
                                }
                                assert(prev.contains(w));
                            }
                            assert forall|k: (Seq<char>, u64)| ks0.contains(k) implies ks1.contains(k) by {
                                let w = choose|w: Seq<u8>| #[trigger] prev.contains(w) && old(self)@.contains_key(w)
                                    && k == (old(self)@[w].sender, old(self)@[w].nonce);
                                assert(next.contains(w));
                            }
                        }
                    },
                }
            }
            match r {
                Some(t) => {
                    proof {
                        assert(t@.hash == hashes@[i as int]@);
                        assert(old(self)@.contains_key(t@.hash));
                    }
                    removed.push(t);
                },
                None => {},
            }
            proof {
                assert forall|k: int| 0 <= k < removed@.len() implies hv.take(i + 1).contains(#[trigger] removed@[k]@.hash) by {
                    if k < prev_removed.len() {
                        assert(removed@[k] == prev_removed[k]);
                        let tk = hv.take(i as int);
                        let q = choose|q: int| 0 <= q < tk.len() && tk[q] == prev_removed[k]@.hash;
                        assert(hv.take(i + 1)[q] == tk[q]);
                    } else {
                        assert(hv.take(i + 1)[i as int] == hv[i as int]);
                    }
                }
                assert forall|h: Seq<u8>| old(self)@.contains_key(h) && #[trigger] hv.take(i + 1).contains(h)
                    implies exists|k: int| 0 <= k < removed@.len() && (#[trigger] removed@[k])@.hash == h by {
                    if hv.take(i as int).contains(h) {
                        let k = choose|k: int| 0 <= k < prev_removed.len() && (#[trigger] prev_removed[k])@.hash == h;
                        assert(removed@[k] == prev_removed[k]);
                    } else {
                        let tk = hv.take(i + 1);
                        let q = choose|q: int| 0 <= q < tk.len() && #[trigger] tk[q] == h;
                        if q < i {
                            assert(hv.take(i as int)[q] == h);
                        }
                        assert(q == i);
                        assert(before.contains_key(h));
                        assert(removed@[removed@.len() - 1]@.hash == h);
                    }
                }
            }
            i = i + 1;
        }
        proof {
            assert(hv.take(hashes@.len() as int) =~= hv);
            let hs = hv.to_set();
            if removed@.len() > 0 {
                assert(hs.contains(removed@[0]@.hash) && old(self)@.contains_key(removed@[0]@.hash));
            }
            if exists|h: Seq<u8>| #[trigger] hs.contains(h) && old(self)@.contains_key(h) {
                let h = choose|h: Seq<u8>| #[trigger] hs.contains(h) && old(self)@.contains_key(h);
                assert(hv.contains(h));
            }
        }
        removed
    }

    /// The pending transaction with this hash.
    pub fn get(&self, hash: &[u8; 32]) -> (r: Option<&Transaction>)
        requires
            self.wf(),
        ensures
            match r {
                Some(t) => self@.contains_key(hash@) && t@ == self@[hash@],
                None => !self@.contains_key(hash@),
            },
    {
        match hfind(&self.pending, hash) {
            Some(i) => {
                proof {
                    lemma_hentry(self.pending@, i as int);
                }
                Some(&self.pending[i].1)
            },
            None => None,
        }
    }

    /// All pending transactions (in unspecified order).
    pub fn get_all(&self) -> (r: Vec<&Transaction>)
        requires
            self.wf(),
        ensures
            r@.len() == self@.len(),
            forall|i: int| 0 <= i < r@.len() ==> self@.contains_key((#[trigger] r@[i])@.hash) && self@[r@[i]@.hash] == r@[i]@,
            forall|h: Seq<u8>| #[trigger] self@.contains_key(h) ==> exists|i: int| 0 <= i < r@.len() && (#[trigger] r@[i])@.hash == h,
    {
        proof {
            lemma_entries_len(hentries(self.pending@));
        }
        let mut r: Vec<&Transaction> = Vec::new();
        let mut i: usize = 0;
        while i < self.pending.len()
            invariant
                i <= self.pending@.len(),
                r@.len() == i,
                keys_unique(hentries(self.pending@)),
                forall|h: Seq<u8>| #[trigger] self@.contains_key(h) ==> self@[h].hash == h,
                forall|k: int| 0 <= k < i ==> (#[trigger] r@[k]) == &self.pending@[k].1,
            decreases self.pending@.len() - i,
        {
            r.push(&self.pending[i].1);
            i = i + 1;
        }
        proof {
            assert forall|k: int| 0 <= k < r@.len() implies self@.contains_key((#[trigger] r@[k])@.hash) && self@[r@[k]@.hash] == r@[k]@ by {
                lemma_hentry(self.pending@, k);
            }
            assert forall|h: Seq<u8>| #[trigger] self@.contains_key(h) implies exists|k: int| 0 <= k < r@.len() && (#[trigger] r@[k])@.hash == h by {
                let e = hentries(self.pending@);
                let k = choose|k: int| 0 <= k < e.len() && (#[trigger] e[k]).0 == h;
                lemma_hentry(self.pending@, k);
                assert(r@[k]@.hash == h);
            }
        }
        r
    }

    /// Hashes of all pending transactions (in unspecified order, no duplicates).
    pub fn get_all_hashes(&self) -> (r: Vec<[u8; 32]>)
        requires
            self.wf(),
        ensures
            r@.len() == self@.len(),
            hash_views(r@).to_set() == self@.dom(),
            hash_views(r@).no_duplicates(),
    {
        proof {
            lemma_entries_len(hentries(self.pending@));
        }
        let mut r: Vec<[u8; 32]> = Vec::new();
        let mut i: usize = 0;
        while i < self.pending.len()
            invariant
                i <= self.pending@.len(),
                r@.len() == i,
                forall|k: int| 0 <= k < i ==> (#[trigger] r@[k])@ == self.pending@[k].0@,
            decreases self.pending@.len() - i,
        {
            let h: [u8; 32] = self.pending[i].0;
            r.push(h);
            i = i + 1;
        }
        proof {
            let e = hentries(self.pending@);
            let rv = hash_views(r@);
            assert forall|h: Seq<u8>| rv.to_set().contains(h) <==> self@.dom().contains(h) by {
                if rv.to_set().contains(h) {
                    assert(rv.contains(h));
                    let k = choose|k: int| 0 <= k < rv.len() && rv[k] == h;
                    lemma_hentry(self.pending@, k);
                }
                if self@.dom().contains(h) {
                    let k = choose|k: int| 0 <= k < e.len() && (#[trigger] e[k]).0 == h;
                    assert(rv[k] == h);
                    assert(rv.contains(h));
                }
            }
            assert(rv.to_set() =~= self@.dom());
            assert forall|a: int, b: int| 0 <= a < rv.len() && 0 <= b < rv.len() && a != b implies rv[a] != rv[b] by {
                if a < b {
                    assert(e[a].0 != e[b].0);
                } else {
                    assert(e[b].0 != e[a].0);
                }
            }
        }
        r
    }

    /// The pending transaction with the smallest arrival stamp, if any.
    pub fn get_oldest_tx(&self) -> (r: Option<&Transaction>)
        requires
            self.wf(),
        ensures
            match r {
                Some(t) => self.arrivals().contains_key(t@.hash) && self@.contains_key(t@.hash)
                    && self@[t@.hash] == t@
                    && forall|h: Seq<u8>| #[trigger] self.arrivals().contains_key(h) ==> self.arrivals()[t@.hash] <= self.arrivals()[h],
                None => self@.len() == 0 || self.arrivals().len() == 0,
            },
    {
        proof {
            lemma_entries_len(hentries(self.pending@));
            lemma_entries_len(hentries(self.arrival_time@));
        }
        if self.pending.len() == 0 {
            return None;
        }
        if self.arrival_time.len() == 0 {
            return None;
        }
        let mut best: usize = 0;
        let mut i: usize = 1;
        while i < self.arrival_time.len()
            invariant
                1 <= i <= self.arrival_time@.len(),
                best < self.arrival_time@.len(),
                forall|k: int| 0 <= k < i ==> self.arrival_time@[best as int].1 <= (#[trigger] self.arrival_time@[k]).1,
            decreases self.arrival_time@.len() - i,
        {
            if self.arrival_time[i].1 < self.arrival_time[best].1 {
                best = i;
            }
            i = i + 1;
        }
        let h: [u8; 32] = self.arrival_time[best].0;
        proof {
            lemma_hentry(self.arrival_time@, best as int);
            assert forall|q: Seq<u8>| #[trigger] self.arrivals().contains_key(q) implies self.arrivals()[h@] <= self.arrivals()[q] by {
                let e = hentries(self.arrival_time@);
                let k = choose|k: int| 0 <= k < e.len() && (#[trigger] e[k]).0 == q;
                lemma_hentry(self.arrival_time@, k);
            }
        }
        self.get(&h)
    }

    /// All transactions with an arrival stamp, oldest first.
    pub fn get_all_by_arrival(&self) -> (r: Vec<&Transaction>)
        requires
            self.wf(),
        ensures
            r@.len() == self.arrivals().len(),
            forall|i: int| 0 <= i < r@.len() ==> self.arrivals().contains_key((#[trigger] r@[i])@.hash)
                && self@.contains_key(r@[i]@.hash) && self@[r@[i]@.hash] == r@[i]@,
            forall|i: int, j: int| 0 <= i < j < r@.len() ==> self.arrivals()[(#[trigger] r@[i])@.hash]
                <= self.arrivals()[(#[trigger] r@[j])@.hash],
            forall|h: Seq<u8>| #[trigger] self.arrivals().contains_key(h) ==> exists|i: int| 0 <= i < r@.len() && (#[trigger] r@[i])@.hash == h,
    {
        proof {
            lemma_entries_len(hentries(self.arrival_time@));
        }
        let ghost am = self.arrivals();
        let mut rest: Vec<([u8; 32], u64)> = Vec::new();
        let mut k: usize = 0;
        while k < self.arrival_time.len()
            invariant
                k <= self.arrival_time@.len(),
                rest@ == self.arrival_time@.take(k as int),
            decreases self.arrival_time@.len() - k,
        {
            rest.push(self.arrival_time[k]);
            proof {
                assert(self.arrival_time@.take(k + 1) =~= self.arrival_time@.take(k as int).push(self.arrival_time@[k as int]));
            }
            k = k + 1;
        }
        proof {
            assert(self.arrival_time@.take(self.arrival_time@.len() as int) =~= self.arrival_time@);
            assert forall|i: int| 0 <= i < rest@.len() implies am.contains_key((#[trigger] rest@[i]).0@) && am[rest@[i].0@] == rest@[i].1 by {
                lemma_hentry(self.arrival_time@, i);
            }
        }
        let mut r: Vec<&Transaction> = Vec::new();
        while rest.len() > 0
            invariant
                self.wf(),
                keys_unique(hentries(rest@)),
                r@.len() + rest@.len() == am.len(),
                forall|i: int| 0 <= i < rest@.len() ==> am.contains_key((#[trigger] rest@[i]).0@) && am[rest@[i].0@] == rest@[i].1,
                forall|i: int| 0 <= i < r@.len() ==> am.contains_key((#[trigger] r@[i])@.hash)
                    && self@.contains_key(r@[i]@.hash) && self@[r@[i]@.hash] == r@[i]@,
                forall|i: int, j: int| 0 <= i < r@.len() && 0 <= j < rest@.len() ==> (#[trigger] r@[i])@.hash != (#[trigger] rest@[j]).0@
                    && am[r@[i]@.hash] <= rest@[j].1,
                forall|i: int, j: int| 0 <= i < j < r@.len() ==> am[(#[trigger] r@[i])@.hash] <= am[(#[trigger] r@[j])@.hash],
                forall|h: Seq<u8>| #[trigger] am.contains_key(h) ==> has_key(hentries(rest@), h)
                    || exists|i: int| 0 <= i < r@.len() && (#[trigger] r@[i])@.hash == h,
                am == self.arrivals(),
                forall|h: Seq<u8>| #[trigger] am.contains_key(h) ==> self@.contains_key(h),
                forall|h: Seq<u8>| #[trigger] self@.contains_key(h) ==> self@[h].hash == h,
            decreases rest@.len(),
        {
            let mut best: usize = 0;
            let mut i: usize = 1;
            while i < rest.len()
                invariant
                    1 <= i <= rest@.len(),
                    best < rest@.len(),
                    forall|q: int| 0 <= q < i ==> rest@[best as int].1 <= (#[trigger] rest@[q]).1,
                decreases rest@.len() - i,
            {
                if rest[i].1 < rest[best].1 {
                    best = i;
                }
                i = i + 1;
            }
            let ghost old_rest = rest@;
            let ghost old_r = r@;
            let (h, _t) = rest.remove(best);
            proof {
                let e = hentries(old_rest);
                assert(hentries(rest@) =~= e.remove(best as int));
                lemma_to_map_remove(e, best as int);
            }
            match self.get(&h) {
                Some(tx) => {
                    r.push(tx);
                },
                None => {
                    proof {
                        assert(false);
                    }
                },
            }
            proof {
                assert(r@[r@.len() - 1]@.hash == h@);
                assert forall|i: int, j: int| 0 <= i < r@.len() && 0 <= j < rest@.len() implies (#[trigger] r@[i])@.hash != (#[trigger] rest@[j]).0@
                    && am[r@[i]@.hash] <= rest@[j].1 by {
                    let j2 = if j < best { j } else { j + 1 };
                    assert(rest@[j] == old_rest[j2]);
                    if i == old_r.len() {
                        let e = hentries(old_rest);
                        if j2 < best {
                            assert(e[j2].0 != e[best as int].0);
                        } else {
                            assert(e[best as int].0 != e[j2].0);
                        }
                    } else {
                        assert(r@[i] == old_r[i]);
                    }
                }
                assert forall|i: int| 0 <= i < rest@.len() implies am.contains_key((#[trigger] rest@[i]).0@) && am[rest@[i].0@] == rest@[i].1 by {
                    let i2 = if i < best { i } else { i + 1 };
                    assert(rest@[i] == old_rest[i2]);
                }
                assert forall|h2: Seq<u8>| #[trigger] am.contains_key(h2) implies has_key(hentries(rest@), h2)
                    || exists|i: int| 0 <= i < r@.len() && (#[trigger] r@[i])@.hash == h2 by {
                    let e = hentries(old_rest);
                    if has_key(e, h2) {
                        let q = choose|q: int| 0 <= q < e.len() && (#[trigger] e[q]).0 == h2;
                        if q == best {
                            assert(r@[old_r.len() as int]@.hash == h2);
                        } else if q < best {
                            assert(hentries(rest@)[q].0 == h2);
                        } else {
                            assert(hentries(rest@)[q - 1].0 == h2);
                        }
                    } else {
                        let w = choose|w: int| 0 <= w < old_r.len() && (#[trigger] old_r[w])@.hash == h2;
                        assert(r@[w] == old_r[w]);
                    }
                }
            }
        }
        proof {
            assert forall|h: Seq<u8>| #[trigger] am.contains_key(h) implies exists|i: int| 0 <= i < r@.len() && (#[trigger] r@[i])@.hash == h by {
                assert(!has_key(hentries(rest@), h));
            }
        }
        r
    }

    /// The arrival stamp the next accepted transaction receives.
    pub fn next_arrival_stamp(&self) -> (s: u64)
        ensures
            s == self.next_stamp(),
    {
        self.next_timestamp
    }

    /// Whether a transaction with this hash is pending.
    pub fn contains(&self, hash: &[u8; 32]) -> (b: bool)
        requires
            self.wf(),
        ensures
            b == self@.contains_key(hash@),
    {
        match hfind(&self.pending, hash) {
            Some(i) => {
                proof {
                    lemma_hentry(self.pending@, i as int);
                }
                true
            },
            None => false,
        }
    }

    /// Number of pending transactions.
    pub fn len(&self) -> (n: usize)
        requires
            self.wf(),
        ensures
            n == self@.len(),
    {
        proof {
            lemma_entries_len(hentries(self.pending@));
        }
        self.pending.len()
    }

    /// Whether nothing is pending.
    pub fn is_empty(&self) -> (b: bool)
        requires
            self.wf(),
        ensures
            b == (self@.len() == 0),
    {
        self.len() == 0
    }

    /// Whether there are unsaved changes.
    pub fn is_dirty(&self) -> (b: bool)
        requires
            self.wf(),
        ensures
            b == self.is_dirty_spec(),
    {
        self.dirty
    }

    /// Records that the pool was written out.
    pub fn mark_clean(&mut self)
        requires
            old(self).wf(),
        ensures
            final(self).wf(),
            final(self)@ == old(self)@,
            final(self).arrivals() == old(self).arrivals(),
            final(self).histories() == old(self).histories(),
            final(self).last_nonces() == old(self).last_nonces(),
            final(self).index() == old(self).index(),
            final(self).capacity() == old(self).capacity(),
            final(self).next_stamp() == old(self).next_stamp(),
            final(self).path() == old(self).path(),
            !final(self).is_dirty_spec(),
    {
        self.dirty = false;
        proof {
            assert(self@ == old(self)@);
            assert(self.arrivals() == old(self).arrivals());
        }
    }

    /// The pool as plain data: each pending transaction, arrival stamp, nonce
    /// history and last nonce once.
    pub fn to_data(&self) -> (d: MempoolData)
        requires
            self.wf(),
        ensures
            last_wins(tx_views(d.pending@).map_values(|t: TxView| (t.hash, t))) == self@,
            last_wins(hentries(d.arrival_time@)) == self.arrivals(),
            last_wins(sentries(d.nonce_history@)) == self.histories(),
            last_wins(sentries(d.last_nonce@)) == self.last_nonces(),
            forall|h: Seq<u8>| #[trigger] self.arrivals().contains_key(h) ==> self@.contains_key(h),
    {
        let mut pending: Vec<Transaction> = Vec::new();
        let mut i: usize = 0;
        while i < self.pending.len()
            invariant
                i <= self.pending@.len(),
                pending@.len() == i,
                forall|k: int| 0 <= k < i ==> (#[trigger] pending@[k])@ == self.pending@[k].1@,
            decreases self.pending@.len() - i,
        {
            pending.push(self.pending[i].1.duplicate());
            i = i + 1;
        }
        let mut arrival_time: Vec<([u8; 32], u64)> = Vec::new();
        let mut j: usize = 0;
        while j < self.arrival_time.len()
            invariant
                j <= self.arrival_time@.len(),
                arrival_time@ == self.arrival_time@.subrange(0, j as int),
            decreases self.arrival_time@.len() - j,
        {
            arrival_time.push(self.arrival_time[j]);
            proof {
                assert(self.arrival_time@.subrange(0, j + 1) =~= self.arrival_time@.subrange(0, j as int).push(self.arrival_time@[j as int]));
            }
            j = j + 1;
        }
        let mut nonce_history: Vec<(String, Vec<u64>)> = Vec::new();
        let mut k: usize = 0;
        while k < self.nonce_history.len()
            invariant
                k <= self.nonce_history@.len(),
                nonce_history@.len() == k,
                forall|q: int| 0 <= q < k ==> (#[trigger] nonce_history@[q]).0@ == self.nonce_history@[q].0@
                    && nonce_history@[q].1@ == self.nonce_history@[q].1@,
            decreases self.nonce_history@.len() - k,
        {
            nonce_history.push((self.nonce_history[k].0.clone(), copy_u64s(&self.nonce_history[k].1)));
            k = k + 1;
        }
        let mut last_nonce: Vec<(String, u64)> = Vec::new();
        let mut q: usize = 0;
        while q < self.last_nonce.len()
            invariant
                q <= self.last_nonce@.len(),
                last_nonce@.len() == q,
                forall|z: int| 0 <= z < q ==> (#[trigger] last_nonce@[z]).0@ == self.last_nonce@[z].0@
                    && last_nonce@[z].1 == self.last_nonce@[z].1,
            decreases self.last_nonce@.len() - q,
        {
            last_nonce.push((self.last_nonce[q].0.clone(), self.last_nonce[q].1));
            q = q + 1;
        }
        let d = MempoolData { pending, arrival_time, nonce_history, last_nonce };
        proof {
            let he = hentries(self.pending@);
            assert(tx_views(d.pending@).map_values(|t: TxView| (t.hash, t)) =~= he) by {
                assert forall|z: int| 0 <= z < he.len() implies #[trigger] he[z].0 == he[z].1.hash by {
                    lemma_hentry(self.pending@, z);
                }
            }
            lemma_last_wins_unique(he);
            assert(d.arrival_time@ =~= self.arrival_time@);
            lemma_last_wins_unique(hentries(self.arrival_time@));
            assert(sentries(d.nonce_history@) =~= sentries(self.nonce_history@));
            lemma_last_wins_unique(sentries(self.nonce_history@));
            assert(sentries(d.last_nonce@) =~= sentries(self.last_nonce@));
            lemma_last_wins_unique(sentries(self.last_nonce@));
        }
        d
    }

    /// Replaces the pool's contents by `data` (a later entry for the same key
    /// overriding an earlier one): the pending transactions with their
    /// `(sender, nonce)` index, the arrival stamps of the pending transactions
    /// (stamps of others are dropped), the nonce histories and the last nonces.
    /// When `data` has arrival stamps, the next stamp follows the greatest.
    pub fn load_data(&mut self, data: &MempoolData)
        requires
            old(self).wf(),
            forall|i: int| 0 <= i < data.arrival_time@.len() ==> (#[trigger] data.arrival_time@[i]).1 < u64::MAX,
        ensures
            final(self).wf(),
            final(self)@ == last_wins(tx_views(data.pending@).map_values(|t: TxView| (t.hash, t))),
            final(self).index() == last_wins(tx_views(data.pending@).map_values(|t: TxView| ((t.sender, t.nonce), t.hash))),
            final(self).arrivals() == last_wins(hentries(data.arrival_time@)).restrict(final(self)@.dom()),
            final(self).histories() == last_wins(sentries(data.nonce_history@)),
            final(self).last_nonces() == last_wins(sentries(data.last_nonce@)),
            ({
                let am = last_wins(hentries(data.arrival_time@));
                if am.dom().len() > 0 || data.arrival_time@.len() > 0 {
                    &&& exists|h: Seq<u8>| #[trigger] am.contains_key(h) && am[h] + 1 == final(self).next_stamp()
                    &&& forall|h: Seq<u8>| #[trigger] am.contains_key(h) ==> am[h] < final(self).next_stamp()
                } else {
                    final(self).next_stamp() == old(self).next_stamp()
                }
            }),
            final(self).capacity() == old(self).capacity(),
            final(self).path() == old(self).path(),
            final(self).is_dirty_spec() == old(self).is_dirty_spec(),
    {
        let ghost tv = tx_views(data.pending@);
        let ghost pk = tv.map_values(|t: TxView| (t.hash, t));
        let ghost ik = tv.map_values(|t: TxView| ((t.sender, t.nonce), t.hash));
        let mut pending: Vec<([u8; 32], Transaction)> = Vec::new();
        let mut index: Vec<((String, u64), [u8; 32])> = Vec::new();
        let mut i: usize = 0;
        while i < data.pending.len()
            invariant
                i <= data.pending@.len(),
                tv == tx_views(data.pending@),
                pk == tv.map_values(|t: TxView| (t.hash, t)),
                ik == tv.map_values(|t: TxView| ((t.sender, t.nonce), t.hash)),
                keys_unique(hentries(pending@)),
                keys_unique(index_entries(index@)),
                to_map(hentries(pending@)) == last_wins(pk.take(i as int)),
                to_map(index_entries(index@)) == last_wins(ik.take(i as int)),
                forall|h: Seq<u8>| #[trigger] to_map(hentries(pending@)).contains_key(h) ==> to_map(hentries(pending@))[h].hash == h,
            decreases data.pending@.len() - i,
        {
            let t = data.pending[i].duplicate();
            let h: [u8; 32] = t.hash;
            let ghost m0 = to_map(hentries(pending@));
            index_set(&mut index, t.sender.as_str(), t.nonce, &h);
            hset(&mut pending, &h, t);
            proof {
                assert(pk.take(i + 1).drop_last() =~= pk.take(i as int));
                assert(ik.take(i + 1).drop_last() =~= ik.take(i as int));
                assert forall|x: Seq<u8>| #[trigger] to_map(hentries(pending@)).contains_key(x) implies to_map(hentries(pending@))[x].hash == x by {
                    if x != h@ {
                        assert(m0.contains_key(x));
                    }
                }
            }
            i = i + 1;
        }
        proof {
            assert(pk.take(data.pending@.len() as int) =~= pk);
            assert(ik.take(data.pending@.len() as int) =~= ik);
        }
        let ghost ae = hentries(data.arrival_time@);
        let mut all_arrivals: Vec<([u8; 32], u64)> = Vec::new();
        let mut j: usize = 0;
        while j < data.arrival_time.len()
            invariant
                j <= data.arrival_time@.len(),
                ae == hentries(data.arrival_time@),
                keys_unique(hentries(all_arrivals@)),
                to_map(hentries(all_arrivals@)) == last_wins(ae.take(j as int)),
                forall|k: int| 0 <= k < all_arrivals@.len() ==> (#[trigger] all_arrivals@[k]).1 < u64::MAX,
                forall|k: int| 0 <= k < data.arrival_time@.len() ==> (#[trigger] data.arrival_time@[k]).1 < u64::MAX,
            decreases data.arrival_time@.len() - j,
        {
            let ghost a0 = all_arrivals@;
            hset(&mut all_arrivals, &data.arrival_time[j].0, data.arrival_time[j].1);
            proof {
                assert(ae.take(j + 1).drop_last() =~= ae.take(j as int));
                assert forall|k: int| 0 <= k < all_arrivals@.len() implies (#[trigger] all_arrivals@[k]).1 < u64::MAX by {
                    let e = hentries(all_arrivals@);
                    lemma_hentry(all_arrivals@, k);
                    let v = to_map(e)[all_arrivals@[k].0@];
                    if all_arrivals@[k].0@ != data.arrival_time@[j as int].0@ {
                        let e0 = hentries(a0);
                        assert(to_map(e0).contains_key(all_arrivals@[k].0@));
                        let q = choose|q: int| 0 <= q < e0.len() && (#[trigger] e0[q]).0 == all_arrivals@[k].0@;
                        lemma_hentry(a0, q);
                    }
                }
            }
            j = j + 1;
        }
        proof {
            assert(ae.take(data.arrival_time@.len() as int) =~= ae);
        }
        let ghost am = to_map(hentries(all_arrivals@));
        let ghost pm = to_map(hentries(pending@));
        let mut arrivals: Vec<([u8; 32], u64)> = Vec::new();
        let mut max_seen: Option<u64> = None;
        let mut k: usize = 0;
        while k < all_arrivals.len()
            invariant
                k <= all_arrivals@.len(),
                keys_unique(hentries(all_arrivals@)),
                am == to_map(hentries(all_arrivals@)),
                pm == to_map(hentries(pending@)),
                keys_unique(hentries(pending@)),
                keys_unique(hentries(arrivals@)),
                forall|q: int| 0 <= q < all_arrivals@.len() ==> (#[trigger] all_arrivals@[q]).1 < u64::MAX,
                forall|h: Seq<u8>| #[trigger] to_map(hentries(arrivals@)).contains_key(h) <==> pm.contains_key(h)
                    && exists|q: int| 0 <= q < k && (#[trigger] all_arrivals@[q]).0@ == h,
                forall|h: Seq<u8>| #[trigger] to_map(hentries(arrivals@)).contains_key(h) ==> to_map(hentries(arrivals@))[h] == am[h],
                match max_seen {
                    Some(mx) => k > 0 && (exists|q: int| 0 <= q < k && (#[trigger] all_arrivals@[q]).1 == mx)
                        && forall|q: int| 0 <= q < k ==> (#[trigger] all_arrivals@[q]).1 <= mx,
                    None => k == 0,
                },
            decreases all_arrivals@.len() - k,
        {
            let (h, t) = all_arrivals[k];
            proof {
                lemma_hentry(all_arrivals@, k as int);
            }
            max_seen = match max_seen {
                Some(mx) => if t > mx { Some(t) } else { Some(mx) },
                None => Some(t),
            };
            let ghost r0 = arrivals@;
            match hfind(&pending, &h) {
                Some(pi) => {
                    proof {
                        lemma_hentry(pending@, pi as int);
                        assert(!has_key(hentries(r0), h@)) by {
                            if has_key(hentries(r0), h@) {
                                let z = choose|z: int| 0 <= z < hentries(r0).len() && (#[trigger] hentries(r0)[z]).0 == h@;
                                lemma_hentry(r0, z);
                                let q = choose|q: int| 0 <= q < k && (#[trigger] all_arrivals@[q]).0@ == h@;
                                assert(hentries(all_arrivals@)[q].0 != hentries(all_arrivals@)[k as int].0);
                            }
                        }
                    }
                    arrivals.push((h, t));
                    proof {
                        assert(hentries(arrivals@) =~= hentries(r0).push((h@, t)));
                        lemma_to_map_push(hentries(r0), h@, t);
                    }
                },
                None => {},
            }
            proof {
                assert forall|x: Seq<u8>| #[trigger] to_map(hentries(arrivals@)).contains_key(x) <==> pm.contains_key(x)
                    && exists|q: int| 0 <= q < k + 1 && (#[trigger] all_arrivals@[q]).0@ == x by {
                    if pm.contains_key(x) && exists|q: int| 0 <= q < k + 1 && (#[trigger] all_arrivals@[q]).0@ == x {
                        let q = choose|q: int| 0 <= q < k + 1 && (#[trigger] all_arrivals@[q]).0@ == x;
                        if q < k {
                            assert(to_map(hentries(r0)).contains_key(x));
                        }
                    }
                    if to_map(hentries(arrivals@)).contains_key(x) && x != h@ {
                        assert(to_map(hentries(r0)).contains_key(x));
                        let q = choose|q: int| 0 <= q < k && (#[trigger] all_arrivals@[q]).0@ == x;
                        assert(0 <= q < k + 1);
                    }
                }
                if let Some(mx) = max_seen {
                    assert(exists|q: int| 0 <= q < k + 1 && (#[trigger] all_arrivals@[q]).1 == mx);
                }
            }
            k = k + 1;
        }
        let mut history: Vec<(String, Vec<u64>)> = Vec::new();
        let mut q: usize = 0;
        let ghost he = sentries(data.nonce_history@);
        while q < data.nonce_history.len()
            invariant
                q <= data.nonce_history@.len(),
                he == sentries(data.nonce_history@),
                keys_unique(sentries(history@)),
                to_map(sentries(history@)) == last_wins(he.take(q as int)),
            decreases data.nonce_history@.len() - q,
        {
            sset(&mut history, data.nonce_history[q].0.as_str(), copy_u64s(&data.nonce_history[q].1));
            proof {
                assert(he.take(q + 1).drop_last() =~= he.take(q as int));
            }
            q = q + 1;
        }
        let mut last: Vec<(String, u64)> = Vec::new();
        let mut z: usize = 0;
        let ghost le = sentries(data.last_nonce@);
        while z < data.last_nonce.len()
            invariant
                z <= data.last_nonce@.len(),
                le == sentries(data.last_nonce@),
                keys_unique(sentries(last@)),
                to_map(sentries(last@)) == last_wins(le.take(z as int)),
            decreases data.last_nonce@.len() - z,
        {
            sset(&mut last, data.last_nonce[z].0.as_str(), data.last_nonce[z].1);
            proof {
                assert(le.take(z + 1).drop_last() =~= le.take(z as int));
            }
            z = z + 1;
        }
        proof {
            assert(he.take(data.nonce_history@.len() as int) =~= he);
            assert(le.take(data.last_nonce@.len() as int) =~= le);
            assert(to_map(hentries(arrivals@)) =~= am.restrict(pm.dom())) by {
                assert forall|x: Seq<u8>| #[trigger] to_map(hentries(arrivals@)).contains_key(x) <==> am.restrict(pm.dom()).contains_key(x) by {
                    if am.contains_key(x) {
                        let e = hentries(all_arrivals@);
                        let w = choose|w: int| 0 <= w < e.len() && (#[trigger] e[w]).0 == x;
                        assert(all_arrivals@[w].0@ == x);
                    }
                    if to_map(hentries(arrivals@)).contains_key(x) {
                        let w = choose|w: int| 0 <= w < all_arrivals@.len() && (#[trigger] all_arrivals@[w]).0@ == x;
                        lemma_hentry(all_arrivals@, w);
                    }
                }
            }
        }
        let next = match max_seen {
            Some(mx) => mx + 1,
            None => self.next_timestamp,
        };
        proof {
            match max_seen {
                Some(mx) => {
                    let w = choose|w: int| 0 <= w < all_arrivals@.len() && (#[trigger] all_arrivals@[w]).1 == mx;
                    lemma_hentry(all_arrivals@, w);
                    assert(am.contains_key(all_arrivals@[w].0@) && am[all_arrivals@[w].0@] + 1 == next);
                    assert forall|x: Seq<u8>| #[trigger] am.contains_key(x) implies am[x] < next by {
                        let e = hentries(all_arrivals@);
                        let v = choose|v: int| 0 <= v < e.len() && (#[trigger] e[v]).0 == x;
                        lemma_hentry(all_arrivals@, v);
                    }
                },
                None => {
                    assert(all_arrivals@.len() == 0);
                    assert(am =~= Map::<Seq<u8>, u64>::empty());
                    if data.arrival_time@.len() > 0 {
                        assert(ae.len() > 0);
                        assert(am.contains_key(ae.last().0));
                    }
                },
            }
        }
        self.pending = pending;
        self.by_sender_nonce = index;
        self.arrival_time = arrivals;
        self.nonce_history = history;
        self.last_nonce = last;
        self.next_timestamp = next;
    }

    /// The file path given at construction.
    pub fn file_path(&self) -> (p: &String)
        requires
            self.wf(),
        ensures
            p@ == self.path(),
    {
        &self.file_path
    }
}

/// Removes the index entry of `(sender, nonce)`, if any.
fn index_remove(v: &mut Vec<((String, u64), [u8; 32])>, sender: &str, nonce: u64)
    requires
        keys_unique(index_entries(old(v)@)),
    ensures
        keys_unique(index_entries(final(v)@)),
        to_map(index_entries(final(v)@)) == to_map(index_entries(old(v)@)).remove((sender@, nonce)),
{
    let mut i: usize = 0;
    while i < v.len()
        invariant
            i <= v@.len(),
            v@ == old(v)@,
            keys_unique(index_entries(old(v)@)),
            forall|k: int| 0 <= k < i ==> !((#[trigger] v@[k]).0.0@ == sender@ && v@[k].0.1 == nonce),
        decreases v@.len() - i,
    {
        if v[i].0.1 == nonce && str_eq(v[i].0.0.as_str(), sender) {
            let ghost e = index_entries(v@);
            v.remove(i);
            proof {
                assert(index_entries(v@) =~= e.remove(i as int));
                lemma_to_map_remove(e, i as int);
            }
            return;
        }
        i = i + 1;
    }
    proof {
        let e = index_entries(v@);
        if has_key(e, (sender@, nonce)) {
            let k = choose|k: int| 0 <= k < e.len() && (#[trigger] e[k]).0 == (sender@, nonce);
            assert(e[k].0 == (v@[k].0.0@, v@[k].0.1));
        }
        assert(to_map(e).remove((sender@, nonce)) =~= to_map(e));
    }
}

/// The pool never holds more transactions than its capacity: offering a
/// transaction to a pool within capacity leaves it within capacity.
pub proof fn law_capacity_respected(m: MempoolModel, t: TxView)
    requires
        m.pending.dom().finite(),
        m.pending.len() <= m.capacity,
    ensures
        add_spec(m, t).pending.len() <= m.capacity,
        add_spec(m, t).capacity == m.capacity,
{
}

/// A sender's last nonce only grows: accepting a transaction makes its nonce
/// the sender's last, and that nonce is above the previous last.
pub proof fn law_last_nonce_increases(m: MempoolModel, t: TxView)
    requires
        accepts_spec(m, t),
    ensures
        add_spec(m, t).last.contains_key(t.sender),
        add_spec(m, t).last[t.sender] == t.nonce,
        m.last.contains_key(t.sender) ==> m.last[t.sender] < add_spec(m, t).last[t.sender],
{
}

/// An accepted nonce is remembered: right after accepting `t`, its nonce is
/// among the sender's known nonces.
pub proof fn law_accepted_nonce_known(m: MempoolModel, t: TxView)
    requires
        accepts_spec(m, t),
    ensures
        known_nonce(add_spec(m, t).histories, t.sender, t.nonce),
{
    let h = history_of(m.histories, t.sender).push(t.nonce);
    let th = trim_history(h);
    assert(th[th.len() - 1] == t.nonce);
    assert(history_of(add_spec(m, t).histories, t.sender) == th);
}

/// A copy of a list of numbers.
fn copy_u64s(v: &Vec<u64>) -> (r: Vec<u64>)
    ensures
        r@ == v@,
{
    let mut r: Vec<u64> = Vec::new();
    let mut i: usize = 0;
    while i < v.len()
        invariant
            i <= v@.len(),
            r@ == v@.subrange(0, i as int),
        decreases v@.len() - i,
    {
        r.push(v[i]);
        proof {
            assert(v@.subrange(0, i + 1) =~= v@.subrange(0, i as int).push(v@[i as int]));
        }
        i = i + 1;
    }
    proof {
        assert(v@.subrange(0, v@.len() as int) =~= v@);
    }
    r
}

/// Sets the index entry of `(sender, nonce)` to `hash`, adding it if absent.
fn index_set(v: &mut Vec<((String, u64), [u8; 32])>, sender: &str, nonce: u64, hash: &[u8; 32])
    requires
        keys_unique(index_entries(old(v)@)),
    ensures
        keys_unique(index_entries(final(v)@)),
        to_map(index_entries(final(v)@)) == to_map(index_entries(old(v)@)).insert((sender@, nonce), hash@),
{
    let ghost e = index_entries(v@);
    let mut i: usize = 0;
    while i < v.len()
        invariant
            i <= v@.len(),
            v@ == old(v)@,
            e == index_entries(v@),
            keys_unique(e),
            forall|k: int| 0 <= k < i ==> !((#[trigger] v@[k]).0.0@ == sender@ && v@[k].0.1 == nonce),
        decreases v@.len() - i,
    {
        if v[i].0.1 == nonce && str_eq(v[i].0.0.as_str(), sender) {
            let key = (v[i].0.0.clone(), nonce);
            v.set(i, (key, *hash));
            proof {
                assert(index_entries(v@) =~= e.update(i as int, (e[i as int].0, hash@)));
                lemma_to_map_update(e, i as int, hash@);
            }
            return;
        }
        i = i + 1;
    }
    proof {
        assert(!has_key(e, (sender@, nonce))) by {
            if has_key(e, (sender@, nonce)) {
                let k = choose|k: int| 0 <= k < e.len() && (#[trigger] e[k]).0 == (sender@, nonce);
                assert(e[k].0 == (v@[k].0.0@, v@[k].0.1));
            }
        }
        lemma_to_map_push(e, (sender@, nonce), hash@);
    }
    v.push(((sender.to_owned(), nonce), *hash));
    proof {
        assert(index_entries(v@) =~= e.push(((sender@, nonce), hash@)));
    }
}

/// Reloading written-out pool data gives back the pool's pending transactions,
/// their arrival stamps, the nonce histories and the last nonces: `to_data`
/// writes lists whose override maps are the pool's (and a pool stamps only
/// pending transactions), and `load_data` installs those maps, keeping the
/// stamps of pending transactions.
pub proof fn law_pool_reload(src: MempoolModel, data: MempoolData)
    requires
        last_wins(tx_views(data.pending@).map_values(|t: TxView| (t.hash, t))) == src.pending,
        last_wins(hentries(data.arrival_time@)) == src.arrivals,
        last_wins(sentries(data.nonce_history@)) == src.histories,
        last_wins(sentries(data.last_nonce@)) == src.last,
        forall|h: Seq<u8>| #[trigger] src.arrivals.contains_key(h) ==> src.pending.contains_key(h),
    ensures
        last_wins(tx_views(data.pending@).map_values(|t: TxView| (t.hash, t))) == src.pending,
        last_wins(hentries(data.arrival_time@)).restrict(src.pending.dom()) == src.arrivals,
        last_wins(sentries(data.nonce_history@)) == src.histories,
        last_wins(sentries(data.last_nonce@)) == src.last,
{
    assert(src.arrivals.restrict(src.pending.dom()) =~= src.arrivals);
}

} // verus!
