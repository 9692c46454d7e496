//! Conflict votes: when two transactions with the same `(sender, nonce)` reach
//! nodes in a race, each node votes for one candidate (the smallest hash, a
//! rule every honest node applies alike); once the voting window has passed,
//! the votes decide the winner and the other candidates are dropped.
use vstd::prelude::*;
use crate::config::CONFLICT_VOTE_WINDOW;
use crate::keyed::{bytes_lt, hash_lt, hash_views, hentries, hfind, hset, lemma_bytes_lt_total, lemma_bytes_lt_trans, lemma_hentry, sentries, sset};
use crate::maps::{has_key, keys_unique, lemma_entries_len, lemma_to_map_index, lemma_to_map_push, lemma_to_map_remove, lemma_to_map_update, to_map};
use crate::strings::str_eq;
use crate::transaction::{Transaction, TxView};

verus! {

/// A node's vote in a `(sender, nonce)` conflict.
#[derive(Debug)]
pub struct ConflictVote {
    pub voter: String,
    /// Sender of the conflicting transactions.
    pub sender: String,
    /// Their common nonce.
    pub nonce: u64,
    /// The candidate voted for.
    pub favored_tx: [u8; 32],
    /// Step at which the vote was cast.
    pub step: u64,
}

/// What observing a transaction found.
#[derive(Debug)]
pub enum ConflictStatus {
    /// The first transaction seen for its `(sender, nonce)`.
    FirstSeen,
    /// A conflict: this vote is to be sent to the peers.
    Conflict(ConflictVote),
    /// This very transaction was seen before.
    Duplicate,
}

/// One conflict: its candidates, the votes cast, and when it started.
struct ConflictState {
    candidates: Vec<([u8; 32], Transaction)>,
    votes: Vec<(String, ([u8; 32], u64))>,
    started_at_step: u64,
}

/// The mathematical content of a conflict.
pub struct ConflictView {
    /// Candidate transactions by hash.
    pub candidates: Map<Seq<u8>, TxView>,
    /// Each voter's choice and the step of its vote.
    pub votes: Map<Seq<char>, (Seq<u8>, u64)>,
    /// Step at which the conflict started.
    pub started_at_step: u64,
}

impl View for ConflictState {
    type V = ConflictView;

    closed spec fn view(&self) -> ConflictView {
        ConflictView {
            candidates: to_map(hentries(self.candidates@)),
            votes: to_map(sentries(self.votes@)),
            started_at_step: self.started_at_step,
        }
    }
}

/// A conflict with nothing recorded yet, started at `step`.
pub open spec fn fresh_conflict(step: u64) -> ConflictView {
    ConflictView { candidates: Map::empty(), votes: Map::empty(), started_at_step: step }
}

/// The conflict recorded under `key`, or a fresh one started at `step`.
pub open spec fn conflict_or_fresh(m: Map<(Seq<char>, u64), ConflictView>, key: (Seq<char>, u64), step: u64) -> ConflictView {
    if m.contains_key(key) {
        m[key]
    } else {
        fresh_conflict(step)
    }
}

/// `h` is the smallest key of `c` (in the byte order of hashes).
pub open spec fn is_min_key(c: Map<Seq<u8>, TxView>, h: Seq<u8>) -> bool {
    c.contains_key(h) && forall|k: Seq<u8>| #[trigger] c.contains_key(k) ==> !bytes_lt(k, h)
}

/// Whether the voting window of a conflict started at `started` has passed at `now`.
pub open spec fn window_passed(started: u64, now: u64) -> bool {
    now >= started + CONFLICT_VOTE_WINDOW
}

/// Abstract entries of the conflict table.
spec fn conflict_entries(v: Seq<((String, u64), ConflictState)>) -> Seq<((Seq<char>, u64), ConflictView)> {
    v.map_values(|e: ((String, u64), ConflictState)| ((e.0.0@, e.0.1), e.1@))
}

/// Abstract entries of the table of resolved conflicts.
spec fn resolved_entries(v: Seq<((String, u64), Vec<[u8; 32]>)>) -> Seq<((Seq<char>, u64), Set<Seq<u8>>)> {
    v.map_values(|e: ((String, u64), Vec<[u8; 32]>)| ((e.0.0@, e.0.1), hash_views(e.1@).to_set()))
}

/// The conflicts a node is tracking, by `(sender, nonce)`, and the candidate
/// hashes of the conflicts it has resolved.
pub struct ConflictResolver {
    conflicts: Vec<((String, u64), ConflictState)>,
    resolved: Vec<((String, u64), Vec<[u8; 32]>)>,
}

impl View for ConflictResolver {
    type V = Map<(Seq<char>, u64), ConflictView>;

    closed spec fn view(&self) -> Map<(Seq<char>, u64), ConflictView> {
        to_map(conflict_entries(self.conflicts@))
    }
}

impl ConflictResolver {
    /// Keys are unique at every level, and each resolved conflict lists its
    /// candidates once each.
    pub closed spec fn wf(&self) -> bool {
        &&& keys_unique(conflict_entries(self.conflicts@))
        &&& forall|i: int| 0 <= i < self.conflicts@.len() ==> keys_unique(hentries(#[trigger] self.conflicts@[i].1.candidates@))
            && keys_unique(sentries(self.conflicts@[i].1.votes@))
        &&& keys_unique(resolved_entries(self.resolved@))
        &&& forall|i: int, a: int, b: int| 0 <= i < self.resolved@.len() && 0 <= a < b < self.resolved@[i].1@.len()
            ==> (#[trigger] self.resolved@[i].1@[a])@ != (#[trigger] self.resolved@[i].1@[b])@
    }

    /// The candidate hashes of each conflict resolved here, by `(sender, nonce)`.
    pub closed spec fn resolved(&self) -> Map<(Seq<char>, u64), Set<Seq<u8>>> {
        to_map(resolved_entries(self.resolved@))
    }

    /// No conflicts.
    pub fn new() -> (r: Self)
        ensures
            r.wf(),
            r@ == Map::<(Seq<char>, u64), ConflictView>::empty(),
            r.resolved() == Map::<(Seq<char>, u64), Set<Seq<u8>>>::empty(),
    {
        let r = ConflictResolver { conflicts: Vec::new(), resolved: Vec::new() };
        proof {
            assert(r@ =~= Map::<(Seq<char>, u64), ConflictView>::empty());
            assert(r.resolved() =~= Map::<(Seq<char>, u64), Set<Seq<u8>>>::empty());
        }
        r
    }

    /// Position of the resolved conflict of `(sender, nonce)`.
    fn find_resolved(&self, sender: &str, nonce: u64) -> (r: Option<usize>)
        requires
            self.wf(),
        ensures
            match r {
                Some(i) => i < self.resolved@.len() && self.resolved().contains_key((sender@, nonce))
                    && hash_views(self.resolved@[i as int].1@).to_set() == self.resolved()[(sender@, nonce)]
                    && self.resolved@[i as int].0.0@ == sender@ && self.resolved@[i as int].0.1 == nonce,
                None => !self.resolved().contains_key((sender@, nonce)),
            },
    {
        let mut i: usize = 0;
        while i < self.resolved.len()
            invariant
                self.wf(),
                i <= self.resolved@.len(),
                forall|k: int| 0 <= k < i ==> !((#[trigger] self.resolved@[k]).0.0@ == sender@ && self.resolved@[k].0.1 == nonce),
            decreases self.resolved@.len() - i,
        {
            if self.resolved[i].0.1 == nonce && str_eq(self.resolved[i].0.0.as_str(), sender) {
                proof {
                    lemma_to_map_index(resolved_entries(self.resolved@), i as int);
                }
                return Some(i);
            }
            i = i + 1;
        }
        proof {
            let e = resolved_entries(self.resolved@);
            if has_key(e, (sender@, nonce)) {
                let k = choose|k: int| 0 <= k < e.len() && (#[trigger] e[k]).0 == (sender@, nonce);
                assert(self.resolved@[k].0.0@ == sender@ && self.resolved@[k].0.1 == nonce);
            }
        }
        None
    }

    /// Records `hs` (distinct hashes) as the candidates of the resolved
    /// conflict of `(sender, nonce)`.
    fn set_resolved(&mut self, sender: &str, nonce: u64, hs: Vec<[u8; 32]>)
        requires
            old(self).wf(),
            forall|a: int, b: int| 0 <= a < b < hs@.len() ==> (#[trigger] hs@[a])@ != (#[trigger] hs@[b])@,
        ensures
            final(self).wf(),
            final(self).conflicts == old(self).conflicts,
            final(self).resolved() == old(self).resolved().insert((sender@, nonce), hash_views(hs@).to_set()),
    {
        let ghost e0 = resolved_entries(self.resolved@);
        let ghost r0 = self.resolved@;
        let ghost val = hash_views(hs@).to_set();
        match self.find_resolved(sender, nonce) {
            Some(i) => {
                let key = (sender.to_owned(), nonce);
                self.resolved.set(i, (key, hs));
                proof {
                    lemma_to_map_index(e0, i as int);
                    assert(e0[i as int].0 == (sender@, nonce));
                    assert(resolved_entries(self.resolved@) =~= e0.update(i as int, (e0[i as int].0, val)));
                    lemma_to_map_update(e0, i as int, val);
                    assert forall|q: int, a: int, b: int| 0 <= q < self.resolved@.len() && 0 <= a < b < self.resolved@[q].1@.len()
                        implies (#[trigger] self.resolved@[q].1@[a])@ != (#[trigger] self.resolved@[q].1@[b])@ by {
                        if q != i {
                            assert(self.resolved@[q] == r0[q]);
                        }
                    }
                }
            },
            None => {
                let key = (sender.to_owned(), nonce);
                self.resolved.push((key, hs));
                proof {
                    assert(!has_key(e0, (sender@, nonce))) by {
                        if has_key(e0, (sender@, nonce)) {
                            let k = choose|k: int| 0 <= k < e0.len() && (#[trigger] e0[k]).0 == (sender@, nonce);
                            lemma_to_map_index(e0, k);
                        }
                    }
                    assert(resolved_entries(self.resolved@) =~= e0.push(((sender@, nonce), val)));
                    lemma_to_map_push(e0, (sender@, nonce), val);
                    assert forall|q: int, a: int, b: int| 0 <= q < self.resolved@.len() && 0 <= a < b < self.resolved@[q].1@.len()
                        implies (#[trigger] self.resolved@[q].1@[a])@ != (#[trigger] self.resolved@[q].1@[b])@ by {
                        if q < r0.len() {
                            assert(self.resolved@[q] == r0[q]);
                        }
                    }
                }
            },
        }
    }

    /// Position of the conflict of `(sender, nonce)`.
    fn find(&self, sender: &str, nonce: u64) -> (r: Option<usize>)
        requires
            self.wf(),
        ensures
            match r {
                Some(i) => i < self.conflicts@.len() && self@.contains_key((sender@, nonce))
                    && self.conflicts@[i as int].1@ == self@[(sender@, nonce)]
                    && self.conflicts@[i as int].0.0@ == sender@ && self.conflicts@[i as int].0.1 == nonce,
                None => !self@.contains_key((sender@, nonce)),
            },
    {
        let mut i: usize = 0;
        while i < self.conflicts.len()
            invariant
                self.wf(),
                i <= self.conflicts@.len(),
                forall|k: int| 0 <= k < i ==> !((#[trigger] self.conflicts@[k]).0.0@ == sender@ && self.conflicts@[k].0.1 == nonce),
            decreases self.conflicts@.len() - i,
        {
            if self.conflicts[i].0.1 == nonce && str_eq(self.conflicts[i].0.0.as_str(), sender) {
                proof {
                    lemma_to_map_index(conflict_entries(self.conflicts@), i as int);
                }
                return Some(i);
            }
            i = i + 1;
        }
        proof {
            let e = conflict_entries(self.conflicts@);
            if has_key(e, (sender@, nonce)) {
                let k = choose|k: int| 0 <= k < e.len() && (#[trigger] e[k]).0 == (sender@, nonce);
                assert(e[k].0 == (self.conflicts@[k].0.0@, self.conflicts@[k].0.1));
            }
        }
        None
    }

    /// The position of the conflict of `(sender, nonce)`, adding a fresh one
    /// started at `step` when there is none.
    fn find_or_insert(&mut self, sender: &str, nonce: u64, step: u64) -> (i: usize)
        requires
            old(self).wf(),
        ensures
            final(self).wf(),
            final(self)@ == old(self)@.insert((sender@, nonce), conflict_or_fresh(old(self)@, (sender@, nonce), step)),
            final(self).resolved == old(self).resolved,
            i < final(self).conflicts@.len(),
            final(self).conflicts@[i as int].0.0@ == sender@,
            final(self).conflicts@[i as int].0.1 == nonce,
            final(self).conflicts@[i as int].1@ == conflict_or_fresh(old(self)@, (sender@, nonce), step),
    {
        match self.find(sender, nonce) {
            Some(i) => {
                proof {
                    assert(self@.insert((sender@, nonce), self@[(sender@, nonce)]) =~= self@);
                }
                i
            },
            None => {
                let st = ConflictState { candidates: Vec::new(), votes: Vec::new(), started_at_step: step };
                proof {
                    assert(st@.candidates =~= Map::<Seq<u8>, TxView>::empty());
                    assert(st@.votes =~= Map::<Seq<char>, (Seq<u8>, u64)>::empty());
                }
                let ghost e = conflict_entries(self.conflicts@);
                self.conflicts.push(((sender.to_owned(), nonce), st));
                proof {
                    assert(conflict_entries(self.conflicts@) =~= e.push(((sender@, nonce), fresh_conflict(step))));
                    lemma_to_map_push(e, (sender@, nonce), fresh_conflict(step));
                    assert forall|k: int| 0 <= k < self.conflicts@.len() implies keys_unique(hentries(#[trigger] self.conflicts@[k].1.candidates@))
                        && keys_unique(sentries(self.conflicts@[k].1.votes@)) by {
                        if k < old(self).conflicts@.len() {
                            assert(self.conflicts@[k] == old(self).conflicts@[k]);
                        }
                    }
                }
                self.conflicts.len() - 1
            },
        }
    }

    /// Records a transaction that may conflict, seen by `observer` at `step`.
    /// The `(sender, nonce)` gets a conflict (started at `step`) if it had none. A
    /// hash already among the candidates is a duplicate. Otherwise the transaction
    /// becomes a candidate; if there were candidates before, the observer votes
    /// for the smallest candidate hash and the vote is returned.
    pub fn observe(&mut self, tx: &Transaction, observer: &str, current_step: u64) -> (r: ConflictStatus)
        requires
            old(self).wf(),
        ensures
            final(self).wf(),
            final(self).resolved() == old(self).resolved(),
            final(self)@.contains_key((tx@.sender, tx.nonce)),
            old(self)@.contains_key((tx@.sender, tx.nonce)) ==> final(self)@[(tx@.sender, tx.nonce)].started_at_step
                == old(self)@[(tx@.sender, tx.nonce)].started_at_step,
            !old(self)@.contains_key((tx@.sender, tx.nonce)) ==> final(self)@[(tx@.sender, tx.nonce)].started_at_step == current_step,
            forall|k: (Seq<char>, u64)| k != (tx@.sender, tx.nonce) ==> #[trigger] final(self)@.contains_key(k) == old(self)@.contains_key(k)
                && (old(self)@.contains_key(k) ==> final(self)@[k] == old(self)@[k]),
            ({
                let key = (tx@.sender, tx.nonce);
                let st0 = conflict_or_fresh(old(self)@, key, current_step);
                let c1 = st0.candidates.insert(tx@.hash, tx@);
                if st0.candidates.contains_key(tx@.hash) {
                    &&& r is Duplicate
                    &&& final(self)@ == old(self)@.insert(key, st0)
                } else if st0.candidates.len() == 0 {
                    &&& r is FirstSeen
                    &&& final(self)@ == old(self)@.insert(key, ConflictView { candidates: c1, ..st0 })
                } else {
                    &&& r matches ConflictStatus::Conflict(v) && v.voter@ == observer@ && v.sender@ == tx@.sender
                        && v.nonce == tx.nonce && is_min_key(c1, v.favored_tx@) && v.step == current_step
                        && final(self)@ == old(self)@.insert(key, ConflictView {
                            candidates: c1,
                            votes: st0.votes.insert(observer@, (v.favored_tx@, current_step)),
                            ..st0
                        })
                }
            }),
    {
        let i = self.find_or_insert(tx.sender.as_str(), tx.nonce, current_step);
        let ghost m1 = self@;
        let ghost st0 = self.conflicts@[i as int].1@;
        proof {
            assert(keys_unique(hentries(self.conflicts@[i as int].1.candidates@)));
        }
        match hfind(&self.conflicts[i].1.candidates, &tx.hash) {
            Some(j) => {
                proof {
                    lemma_hentry(self.conflicts@[i as int].1.candidates@, j as int);
                }
                return ConflictStatus::Duplicate;
            },
            None => {},
        }
        proof {
            lemma_entries_len(hentries(self.conflicts@[i as int].1.candidates@));
        }
        let was_conflict = self.conflicts[i].1.candidates.len() > 0;
        let ghost e0 = conflict_entries(self.conflicts@);
        let ghost c0 = self.conflicts@;
        let (key, mut st) = self.conflicts.remove(i);
        hset(&mut st.candidates, &tx.hash, tx.duplicate());
        let mut favored: [u8; 32] = tx.hash;
        if was_conflict {
            proof {
                lemma_entries_len(hentries(st.candidates@));
            }
            favored = min_candidate(&st.candidates);
            sset(&mut st.votes, observer, (favored, current_step));
        }
        let ghost stv = st@;
        self.conflicts.insert(i, (key, st));
        proof {
            assert(self.conflicts@ =~= c0.update(i as int, self.conflicts@[i as int]));
            assert(conflict_entries(self.conflicts@) =~= e0.update(i as int, (e0[i as int].0, stv)));
            lemma_to_map_update(e0, i as int, stv);
            lemma_to_map_index(e0, i as int);
            assert forall|k: int| 0 <= k < self.conflicts@.len() implies keys_unique(hentries(#[trigger] self.conflicts@[k].1.candidates@))
                && keys_unique(sentries(self.conflicts@[k].1.votes@)) by {
                if k != i {
                    assert(self.conflicts@[k] == c0[k]);
                }
            }
        }
        if was_conflict {
            ConflictStatus::Conflict(ConflictVote {
                voter: observer.to_owned(),
                sender: tx.sender.clone(),
                nonce: tx.nonce,
                favored_tx: favored,
                step: current_step,
            })
        } else {
            ConflictStatus::FirstSeen
        }
    }

    /// Records a vote received from a peer: the voter's choice replaces any
    /// earlier one; a conflict unknown here is started at the vote's step.
    pub fn record_vote(&mut self, vote: ConflictVote)
        requires
            old(self).wf(),
        ensures
            final(self).wf(),
            final(self).resolved() == old(self).resolved(),
            final(self)@.contains_key((vote.sender@, vote.nonce)),
            old(self)@.contains_key((vote.sender@, vote.nonce)) ==> final(self)@[(vote.sender@, vote.nonce)].started_at_step
                == old(self)@[(vote.sender@, vote.nonce)].started_at_step
                && final(self)@[(vote.sender@, vote.nonce)].candidates == old(self)@[(vote.sender@, vote.nonce)].candidates,
            !old(self)@.contains_key((vote.sender@, vote.nonce)) ==> final(self)@[(vote.sender@, vote.nonce)].started_at_step == vote.step,
            final(self)@[(vote.sender@, vote.nonce)].votes.contains_key(vote.voter@),
            final(self)@[(vote.sender@, vote.nonce)].votes[vote.voter@] == (vote.favored_tx@, vote.step),
            forall|k: (Seq<char>, u64)| k != (vote.sender@, vote.nonce) ==> #[trigger] final(self)@.contains_key(k) == old(self)@.contains_key(k)
                && (old(self)@.contains_key(k) ==> final(self)@[k] == old(self)@[k]),
            ({
                let key = (vote.sender@, vote.nonce);
                let st0 = conflict_or_fresh(old(self)@, key, vote.step);
                final(self)@ == old(self)@.insert(key, ConflictView {
                    votes: st0.votes.insert(vote.voter@, (vote.favored_tx@, vote.step)),
                    ..st0
                })
            }),
    {
        let i = self.find_or_insert(vote.sender.as_str(), vote.nonce, vote.step);
        let ghost e0 = conflict_entries(self.conflicts@);
        let ghost c0 = self.conflicts@;
        let (key, mut st) = self.conflicts.remove(i);
        sset(&mut st.votes, vote.voter.as_str(), (vote.favored_tx, vote.step));
        let ghost stv = st@;
        self.conflicts.insert(i, (key, st));
        proof {
            assert(self.conflicts@ =~= c0.update(i as int, self.conflicts@[i as int]));
            assert(conflict_entries(self.conflicts@) =~= e0.update(i as int, (e0[i as int].0, stv)));
            lemma_to_map_update(e0, i as int, stv);
            lemma_to_map_index(e0, i as int);
            assert forall|k: int| 0 <= k < self.conflicts@.len() implies keys_unique(hentries(#[trigger] self.conflicts@[k].1.candidates@))
                && keys_unique(sentries(self.conflicts@[k].1.votes@)) by {
                if k != i {
                    assert(self.conflicts@[k] == c0[k]);
                }
            }
        }
    }

    /// When the conflict of `(sender, nonce)` exists and its voting window has
    /// passed at `current_step`, removes it and returns its votes as
    /// `(voter, favored hash)`, each voter once; otherwise returns `None` and
    /// changes nothing. (Weighing the votes by reputation is the caller's part.)
    pub fn take_expired(&mut self, sender: &str, nonce: u64, current_step: u64) -> (r: Option<Vec<(String, [u8; 32])>>)
        requires
            old(self).wf(),
        ensures
            final(self).wf(),
            ({
                let key = (sender@, nonce);
                if old(self)@.contains_key(key) && window_passed(old(self)@[key].started_at_step, current_step) {
                    &&& r is Some
                    &&& final(self)@ == old(self)@.remove(key)
                    &&& final(self).resolved() == old(self).resolved().insert(key, old(self)@[key].candidates.dom())
                    &&& keys_unique(sentries(r->0@))
                    &&& forall|v: Seq<char>| #[trigger] to_map(sentries(r->0@)).contains_key(v) <==> old(self)@[key].votes.contains_key(v)
                    &&& forall|v: Seq<char>| #[trigger] to_map(sentries(r->0@)).contains_key(v) ==> to_map(sentries(r->0@))[v] == old(self)@[key].votes[v].0
                } else {
                    &&& r is None
                    &&& final(self)@ == old(self)@
                    &&& final(self).resolved() == old(self).resolved()
                }
            }),
    {
        let i = match self.find(sender, nonce) {
            Some(i) => i,
            None => return None,
        };
        let started = self.conflicts[i].1.started_at_step;
        if !(current_step >= started && current_step - started >= CONFLICT_VOTE_WINDOW) {
            return None;
        }
        let ghost e0 = conflict_entries(self.conflicts@);
        let ghost c0 = self.conflicts@;
        proof {
            assert(keys_unique(sentries(c0[i as int].1.votes@)));
            assert(keys_unique(hentries(c0[i as int].1.candidates@)));
        }
        let (_key, st) = self.conflicts.remove(i);
        proof {
            assert(conflict_entries(self.conflicts@) =~= e0.remove(i as int));
            lemma_to_map_remove(e0, i as int);
            assert forall|k: int| 0 <= k < self.conflicts@.len() implies keys_unique(hentries(#[trigger] self.conflicts@[k].1.candidates@))
                && keys_unique(sentries(self.conflicts@[k].1.votes@)) by {
                if k < i {
                    assert(self.conflicts@[k] == c0[k]);
                    assert(keys_unique(hentries(old(self).conflicts@[k].1.candidates@)));
                } else {
                    assert(self.conflicts@[k] == c0[k + 1]);
                    assert(keys_unique(hentries(old(self).conflicts@[k + 1].1.candidates@)));
                }
            }
        }
        let ghost ce = hentries(st.candidates@);
        let mut hs: Vec<[u8; 32]> = Vec::new();
        let mut k: usize = 0;
        while k < st.candidates.len()
            invariant
                k <= st.candidates@.len(),
                ce == hentries(st.candidates@),
                hs@.len() == k,
                forall|q: int| 0 <= q < k ==> (#[trigger] hs@[q])@ == ce[q].0,
            decreases st.candidates@.len() - k,
        {
            hs.push(st.candidates[k].0);
            k = k + 1;
        }
        proof {
            assert forall|a: int, b: int| 0 <= a < b < hs@.len() implies (#[trigger] hs@[a])@ != (#[trigger] hs@[b])@ by {
                assert(ce[a].0 != ce[b].0);
            }
            assert(hash_views(hs@).to_set() =~= st@.candidates.dom()) by {
                assert forall|h: Seq<u8>| hash_views(hs@).to_set().contains(h) <==> #[trigger] st@.candidates.dom().contains(h) by {
                    if hash_views(hs@).to_set().contains(h) {
                        let q = choose|q: int| 0 <= q < hash_views(hs@).len() && hash_views(hs@)[q] == h;
                        assert(ce[q].0 == h);
                    }
                    if st@.candidates.dom().contains(h) {
                        let q = choose|q: int| 0 <= q < ce.len() && (#[trigger] ce[q]).0 == h;
                        assert(hash_views(hs@)[q] == h);
                    }
                }
            }
        }
        self.set_resolved(sender, nonce, hs);
        let mut out: Vec<(String, [u8; 32])> = Vec::new();
        let mut k: usize = 0;
        while k < st.votes.len()
            invariant
                k <= st.votes@.len(),
                keys_unique(sentries(st.votes@)),
                out@.len() == k,
                forall|q: int| 0 <= q < k ==> (#[trigger] out@[q]).0@ == st.votes@[q].0@ && out@[q].1 == st.votes@[q].1.0,
            decreases st.votes@.len() - k,
        {
            out.push((st.votes[k].0.clone(), st.votes[k].1.0));
            k = k + 1;
        }
        proof {
            let so = sentries(out@);
            let sv = sentries(st.votes@);
            assert forall|a: int, b: int| 0 <= a < b < so.len() implies (#[trigger] so[a]).0 != (#[trigger] so[b]).0 by {
                assert(sv[a].0 != sv[b].0);
            }
            assert forall|v: Seq<char>| #[trigger] to_map(so).contains_key(v) <==> to_map(sv).contains_key(v) by {
                if to_map(so).contains_key(v) {
                    let q = choose|q: int| 0 <= q < so.len() && (#[trigger] so[q]).0 == v;
                    assert(sv[q].0 == v);
                }
                if to_map(sv).contains_key(v) {
                    let q = choose|q: int| 0 <= q < sv.len() && (#[trigger] sv[q]).0 == v;
                    assert(so[q].0 == v);
                }
            }
            assert forall|v: Seq<char>| #[trigger] to_map(so).contains_key(v) implies to_map(so)[v] == to_map(sv)[v].0 by {
                let q = choose|q: int| 0 <= q < so.len() && (#[trigger] so[q]).0 == v;
                lemma_to_map_index(so, q);
                lemma_to_map_index(sv, q);
            }
        }
        Some(out)
    }

    /// The `(sender, nonce)` of every conflict whose voting window has passed
    /// at `current_step`, each once (in unspecified order).
    pub fn expired_conflicts(&self, current_step: u64) -> (r: Vec<(String, u64)>)
        requires
            self.wf(),
        ensures
            forall|i: int| 0 <= i < r@.len() ==> self@.contains_key(((#[trigger] r@[i]).0@, r@[i].1))
                && window_passed(self@[(r@[i].0@, r@[i].1)].started_at_step, current_step),
            forall|k: (Seq<char>, u64)| #[trigger] self@.contains_key(k) && window_passed(self@[k].started_at_step, current_step)
                ==> exists|i: int| 0 <= i < r@.len() && (r@[i].0@, r@[i].1) == k,
            forall|i: int, j: int| 0 <= i < j < r@.len() ==> ((#[trigger] r@[i]).0@, r@[i].1) != ((#[trigger] r@[j]).0@, r@[j].1),
    {
        let ghost e = conflict_entries(self.conflicts@);
        let mut r: Vec<(String, u64)> = Vec::new();
        let ghost mut idx: Seq<int> = Seq::empty();
        let mut k: usize = 0;
        while k < self.conflicts.len()
            invariant
                self.wf(),
                e == conflict_entries(self.conflicts@),
                k <= self.conflicts@.len(),
                idx.len() == r@.len(),
                forall|i: int| 0 <= i < idx.len() ==> 0 <= #[trigger] idx[i] < k && (r@[i].0@, r@[i].1) == e[idx[i]].0
                    && window_passed(e[idx[i]].1.started_at_step, current_step),
                forall|i: int, j: int| 0 <= i < j < idx.len() ==> #[trigger] idx[i] < #[trigger] idx[j],
                forall|q: int| 0 <= q < k && window_passed((#[trigger] e[q]).1.started_at_step, current_step)
                    ==> exists|i: int| 0 <= i < idx.len() && idx[i] == q,
            decreases self.conflicts@.len() - k,
        {
            let ghost idx0 = idx;
            let started = self.conflicts[k].1.started_at_step;
            if current_step >= started && current_step - started >= CONFLICT_VOTE_WINDOW {
                r.push((self.conflicts[k].0.0.clone(), self.conflicts[k].0.1));
                proof {
                    idx = idx.push(k as int);
                }
            }
            proof {
                assert forall|q: int| 0 <= q < k + 1 && window_passed((#[trigger] e[q]).1.started_at_step, current_step)
                    implies exists|i: int| 0 <= i < idx.len() && idx[i] == q by {
                    if q < k {
                        let i = choose|i: int| 0 <= i < idx0.len() && idx0[i] == q;
                        assert(idx[i] == q);
                    } else {
                        assert(idx[idx.len() - 1] == k);
                    }
                }
            }
            k = k + 1;
        }
        proof {
            assert forall|i: int| 0 <= i < r@.len() implies self@.contains_key(((#[trigger] r@[i]).0@, r@[i].1))
                && window_passed(self@[(r@[i].0@, r@[i].1)].started_at_step, current_step) by {
                lemma_to_map_index(e, idx[i]);
            }
            assert forall|kk: (Seq<char>, u64)| #[trigger] self@.contains_key(kk) && window_passed(self@[kk].started_at_step, current_step)
                implies exists|i: int| 0 <= i < r@.len() && (r@[i].0@, r@[i].1) == kk by {
                let q = choose|q: int| 0 <= q < e.len() && (#[trigger] e[q]).0 == kk;
                lemma_to_map_index(e, q);
                let i = choose|i: int| 0 <= i < idx.len() && idx[i] == q;
            }
            assert forall|i: int, j: int| 0 <= i < j < r@.len() implies ((#[trigger] r@[i]).0@, r@[i].1) != ((#[trigger] r@[j]).0@, r@[j].1) by {
                assert(e[idx[i]].0 != e[idx[j]].0);
            }
        }
        r
    }

    /// The candidates of the conflict of `(sender, nonce)` other than `winner`,
    /// each once: of the pending conflict if there is one, otherwise of the
    /// resolved one (empty when there is neither).
    pub fn losers_for(&mut self, sender: &str, nonce: u64, winner: [u8; 32]) -> (r: Vec<[u8; 32]>)
        requires
            old(self).wf(),
        ensures
            final(self).wf(),
            final(self)@ == old(self)@,
            final(self).resolved() == old(self).resolved(),
            ({
                let key = (sender@, nonce);
                let c: Set<Seq<u8>> = if old(self)@.contains_key(key) {
                    old(self)@[key].candidates.dom()
                } else if old(self).resolved().contains_key(key) {
                    old(self).resolved()[key]
                } else {
                    Set::empty()
                };
                &&& forall|i: int| 0 <= i < r@.len() ==> c.contains((#[trigger] r@[i])@) && r@[i]@ != winner@
                &&& forall|h: Seq<u8>| #[trigger] c.contains(h) && h != winner@ ==> exists|i: int| 0 <= i < r@.len() && r@[i]@ == h
                &&& forall|i: int, j: int| 0 <= i < j < r@.len() ==> (#[trigger] r@[i])@ != (#[trigger] r@[j])@
            }),
    {
        let mut r: Vec<[u8; 32]> = Vec::new();
        let i = match self.find(sender, nonce) {
            Some(i) => i,
            None => {
                match self.find_resolved(sender, nonce) {
                    None => {
                        return r;
                    },
                    Some(j) => {
                        let hs = &self.resolved[j].1;
                        proof {
                            assert(forall|a: int, b: int| 0 <= a < b < hs@.len() ==> (#[trigger] hs@[a])@ != (#[trigger] hs@[b])@);
                        }
                        let ghost mut idx: Seq<int> = Seq::empty();
                        let mut k: usize = 0;
                        while k < hs.len()
                            invariant
                                forall|a: int, b: int| 0 <= a < b < hs@.len() ==> (#[trigger] hs@[a])@ != (#[trigger] hs@[b])@,
                                k <= hs@.len(),
                                idx.len() == r@.len(),
                                forall|q: int| 0 <= q < idx.len() ==> 0 <= #[trigger] idx[q] < k && r@[q]@ == hs@[idx[q]]@ && r@[q]@ != winner@,
                                forall|a: int, b: int| 0 <= a < b < idx.len() ==> #[trigger] idx[a] < #[trigger] idx[b],
                                forall|q: int| 0 <= q < k && (#[trigger] hs@[q])@ != winner@ ==> exists|a: int| 0 <= a < idx.len() && idx[a] == q,
                            decreases hs@.len() - k,
                        {
                            let ghost idx0 = idx;
                            if !crate::keyed::hash_eq(&hs[k], &winner) {
                                r.push(hs[k]);
                                proof {
                                    idx = idx.push(k as int);
                                }
                            }
                            proof {
                                assert forall|q: int| 0 <= q < k + 1 && (#[trigger] hs@[q])@ != winner@ implies exists|a: int| 0 <= a < idx.len()
                                    && idx[a] == q by {
                                    if q < k {
                                        let a = choose|a: int| 0 <= a < idx0.len() && idx0[a] == q;
                                        assert(idx[a] == q);
                                    } else {
                                        assert(idx[idx.len() - 1] == k);
                                    }
                                }
                            }
                            k = k + 1;
                        }
                        proof {
                            let c = hash_views(hs@).to_set();
                            assert forall|q: int| 0 <= q < r@.len() implies c.contains((#[trigger] r@[q])@) && r@[q]@ != winner@ by {
                                assert(hash_views(hs@)[idx[q]] == r@[q]@);
                            }
                            assert forall|h: Seq<u8>| #[trigger] c.contains(h) && h != winner@ implies exists|a: int| 0 <= a < r@.len() && r@[a]@ == h by {
                                let q = choose|q: int| 0 <= q < hash_views(hs@).len() && hash_views(hs@)[q] == h;
                                assert(hs@[q]@ == h);
                                let a = choose|a: int| 0 <= a < idx.len() && idx[a] == q;
                            }
                            assert forall|a: int, b: int| 0 <= a < b < r@.len() implies (#[trigger] r@[a])@ != (#[trigger] r@[b])@ by {
                                assert(hs@[idx[a]]@ != hs@[idx[b]]@);
                            }
                        }
                        return r;
                    },
                }
            },
        };
        let cands = &self.conflicts[i].1.candidates;
        proof {
            assert(keys_unique(hentries(cands@)));
        }
        let ghost e = hentries(cands@);
        let ghost mut idx: Seq<int> = Seq::empty();
        let mut k: usize = 0;
        while k < cands.len()
            invariant
                keys_unique(e),
                e == hentries(cands@),
                k <= cands@.len(),
                idx.len() == r@.len(),
                forall|q: int| 0 <= q < idx.len() ==> 0 <= #[trigger] idx[q] < k && r@[q]@ == e[idx[q]].0 && r@[q]@ != winner@,
                forall|a: int, b: int| 0 <= a < b < idx.len() ==> #[trigger] idx[a] < #[trigger] idx[b],
                forall|q: int| 0 <= q < k && (#[trigger] e[q]).0 != winner@ ==> exists|a: int| 0 <= a < idx.len() && idx[a] == q,
            decreases cands@.len() - k,
        {
            let ghost idx0 = idx;
            if !crate::keyed::hash_eq(&cands[k].0, &winner) {
                r.push(cands[k].0);
                proof {
                    idx = idx.push(k as int);
                }
            }
            proof {
                assert forall|q: int| 0 <= q < k + 1 && (#[trigger] e[q]).0 != winner@ implies exists|a: int| 0 <= a < idx.len()
                    && idx[a] == q by {
                    if q < k {
                        let a = choose|a: int| 0 <= a < idx0.len() && idx0[a] == q;
                        assert(idx[a] == q);
                    } else {
                        assert(idx[idx.len() - 1] == k);
                    }
                }
            }
            k = k + 1;
        }
        proof {
            let c = to_map(e);
            assert forall|q: int| 0 <= q < r@.len() implies c.contains_key((#[trigger] r@[q])@) && r@[q]@ != winner@ by {
                lemma_to_map_index(e, idx[q]);
            }
            assert forall|h: Seq<u8>| #[trigger] c.contains_key(h) && h != winner@ implies exists|a: int| 0 <= a < r@.len() && r@[a]@ == h by {
                let q = choose|q: int| 0 <= q < e.len() && (#[trigger] e[q]).0 == h;
                let a = choose|a: int| 0 <= a < idx.len() && idx[a] == q;
            }
            assert forall|a: int, b: int| 0 <= a < b < r@.len() implies (#[trigger] r@[a])@ != (#[trigger] r@[b])@ by {
                assert(e[idx[a]].0 != e[idx[b]].0);
            }
        }
        r
    }

    /// Number of conflicts being tracked.
    pub fn pending_count(&self) -> (n: usize)
        requires
            self.wf(),
        ensures
            n == self@.len(),
    {
        proof {
            crate::maps::lemma_entries_len(conflict_entries(self.conflicts@));
        }
        self.conflicts.len()
    }
}

impl Default for ConflictResolver {
    fn default() -> (r: Self)
        ensures
            r.wf(),
            r@ == Map::<(Seq<char>, u64), ConflictView>::empty(),
    {
        Self::new()
    }
}

/// The smallest key of a non-empty candidate list.
fn min_candidate(c: &Vec<([u8; 32], Transaction)>) -> (h: [u8; 32])
    requires
        c@.len() > 0,
        keys_unique(hentries(c@)),
    ensures
        is_min_key(to_map(hentries(c@)), h@),
{
    let mut best: [u8; 32] = c[0].0;
    proof {
        lemma_bytes_lt_total(best@, best@);
    }
    let mut k: usize = 1;
    while k < c.len()
        invariant
            1 <= k <= c@.len(),
            exists|j: int| 0 <= j < k && c@[j].0@ == best@,
            forall|j: int| 0 <= j < k ==> !bytes_lt((#[trigger] c@[j]).0@, best@),
        decreases c@.len() - k,
    {
        if hash_lt(&c[k].0, &best) {
            proof {
                assert forall|j: int| 0 <= j < k + 1 implies !bytes_lt((#[trigger] c@[j]).0@, c@[k as int].0@) by {
                    lemma_bytes_lt_total(c@[j].0@, best@);
                    lemma_bytes_lt_total(c@[k as int].0@, best@);
                    if bytes_lt(c@[j].0@, c@[k as int].0@) {
                        lemma_bytes_lt_trans(c@[j].0@, c@[k as int].0@, best@);
                    }
                    lemma_bytes_lt_total(c@[k as int].0@, c@[k as int].0@);
                }
            }
            best = c[k].0;
        }
        k = k + 1;
    }
    proof {
        let m = to_map(hentries(c@));
        let j = choose|j: int| 0 <= j < c@.len() && c@[j].0@ == best@;
        lemma_hentry(c@, j);
        assert forall|x: Seq<u8>| #[trigger] m.contains_key(x) implies !bytes_lt(x, best@) by {
            let e = hentries(c@);
            let q = choose|q: int| 0 <= q < e.len() && (#[trigger] e[q]).0 == x;
            assert(c@[q].0@ == x);
        }
    }
    best
}

/// The voting window of a conflict runs from the step at which the conflict
/// was first recorded: taking up an existing conflict (for a later observation
/// or vote) gives it back unchanged, start step included; only a key with no
/// conflict gets a fresh one, started at the given step, with no candidates
/// and no votes.
pub proof fn law_conflict_start_is_kept(m: Map<(Seq<char>, u64), ConflictView>, key: (Seq<char>, u64), step: u64)
    ensures
        m.contains_key(key) ==> conflict_or_fresh(m, key, step) == m[key],
        m.contains_key(key) ==> conflict_or_fresh(m, key, step).started_at_step == m[key].started_at_step,
        !m.contains_key(key) ==> conflict_or_fresh(m, key, step).started_at_step == step
            && conflict_or_fresh(m, key, step).candidates.len() == 0
            && conflict_or_fresh(m, key, step).votes.len() == 0,
{
    if !m.contains_key(key) {
        assert(conflict_or_fresh(m, key, step).candidates =~= Map::<Seq<u8>, TxView>::empty());
        assert(conflict_or_fresh(m, key, step).votes =~= Map::<Seq<char>, (Seq<u8>, u64)>::empty());
    }
}

} // verus!
