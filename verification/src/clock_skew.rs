//! Passive clock-skew checker: measures how far a received transaction's time
//! stamp is from the local clock, classifies it, and keeps statistics per peer
//! and overall. It never rejects a transaction.
use vstd::prelude::*;
use crate::crypto::now_unix_secs;
use crate::keyed::{lemma_sentry, sentries, sfind, sset};
use crate::maps::{has_key, keys_unique, lemma_entries_len, to_map};

verus! {

/// Default warning threshold: 10 minutes, in milliseconds.
pub const DEFAULT_MAX_SKEW_MS: i64 = 600_000;

/// Default severe threshold: 1 hour, in milliseconds.
pub const SEVERE_SKEW_MS: i64 = 3_600_000;

/// Skew statistics of one peer or of all peers together.
#[derive(Clone, Copy, Debug)]
pub struct SkewStats {
    /// Transactions checked.
    pub total_checked: u64,
    /// Transactions whose skew exceeded the warning threshold.
    pub warnings: u64,
    /// Transactions whose skew exceeded the severe threshold.
    pub severe: u64,
    /// The skew of largest magnitude seen (ms; positive when the transaction is in the past).
    pub max_skew_ms: i64,
    /// Sum of all skews (for the mean).
    pub sum_skew_ms: i64,
}

impl View for SkewStats {
    type V = SkewStats;

    open spec fn view(&self) -> SkewStats {
        *self
    }
}

/// All counters zero.
pub open spec fn zero_stats() -> SkewStats {
    SkewStats { total_checked: 0, warnings: 0, severe: 0, max_skew_ms: 0, sum_skew_ms: 0 }
}

impl Default for SkewStats {
    fn default() -> (s: Self)
        ensures
            s == zero_stats(),
    {
        SkewStats { total_checked: 0, warnings: 0, severe: 0, max_skew_ms: 0, sum_skew_ms: 0 }
    }
}

/// How bad a skew is.
#[derive(Clone, Copy, Debug, PartialEq, Eq, Structural)]
pub enum SkewVerdict {
    /// Within the warning threshold.
    Normal,
    /// Beyond the warning threshold.
    Warning,
    /// Beyond the severe threshold.
    Severe,
}

impl SkewVerdict {
    /// Whether the verdict is a warning or worse.
    pub fn is_problem(&self) -> (b: bool)
        ensures
            b == (*self != SkewVerdict::Normal),
    {
        match self {
            SkewVerdict::Normal => false,
            _ => true,
        }
    }
}

/// Absolute value.
pub open spec fn abs(x: int) -> int {
    if x < 0 {
        -x
    } else {
        x
    }
}

/// The skew in milliseconds of a transaction stamped `ts` seen at `now`
/// (both in seconds, read as signed 64-bit values).
pub open spec fn skew_of(now: u64, ts: u64) -> int {
    ((now as i64) - (ts as i64)) * 1000
}

/// The verdict for a skew under the given thresholds.
pub open spec fn verdict_for(skew: int, max_skew: i64, severe_skew: i64) -> SkewVerdict {
    if abs(skew) > severe_skew {
        SkewVerdict::Severe
    } else if abs(skew) > max_skew {
        SkewVerdict::Warning
    } else {
        SkewVerdict::Normal
    }
}

/// Statistics after recording one more skew with its verdict.
pub open spec fn record(s: SkewStats, skew: i64, v: SkewVerdict) -> SkewStats {
    SkewStats {
        total_checked: (s.total_checked + 1) as u64,
        warnings: (s.warnings + if v != SkewVerdict::Normal { 1int } else { 0int }) as u64,
        severe: (s.severe + if v == SkewVerdict::Severe { 1int } else { 0int }) as u64,
        max_skew_ms: if abs(skew as int) > abs(s.max_skew_ms as int) { skew } else { s.max_skew_ms },
        sum_skew_ms: (s.sum_skew_ms + skew) as i64,
    }
}

/// The counters of `s` are ordered: every severe skew is also a warning, and
/// every warning is a checked transaction.
pub open spec fn stats_ordered(s: SkewStats) -> bool {
    s.severe <= s.warnings <= s.total_checked
}

/// Recording a skew keeps the counters ordered: severe <= warnings <= checked
/// holds of every statistics a checker keeps.
pub proof fn law_stats_stay_ordered(s: SkewStats, skew: i64, v: SkewVerdict)
    requires
        stats_ordered(s),
        record_fits(s, skew as int),
    ensures
        stats_ordered(record(s, skew, v)),
{
}

/// Recording `skew` into `s` stays within the counters' ranges.
pub open spec fn record_fits(s: SkewStats, skew: int) -> bool {
    &&& s.total_checked < u64::MAX
    &&& s.warnings < u64::MAX
    &&& s.severe < u64::MAX
    &&& i64::MIN <= s.sum_skew_ms + skew <= i64::MAX
}

/// The statistics of `sender` (zero if unknown).
pub open spec fn stats_of(m: Map<Seq<char>, SkewStats>, sender: Seq<char>) -> SkewStats {
    if m.contains_key(sender) {
        m[sender]
    } else {
        zero_stats()
    }
}

/// Records statistics of clock skew, overall and per peer.
pub struct ClockSkewChecker {
    max_skew_ms: i64,
    severe_skew_ms: i64,
    per_peer: Vec<(String, SkewStats)>,
    global: SkewStats,
}

/// What checking a transaction stamped `ts` from `sender` does when the clock
/// reads `now` (see `ClockSkewChecker::check_at`): when the skew and the
/// counters stay in range, the verdict is returned and recorded in the global
/// and the sender's statistics; otherwise `None` is returned and nothing
/// changes.
pub open spec fn checked_at(
    before: ClockSkewChecker,
    after: ClockSkewChecker,
    now: u64,
    ts: u64,
    sender: Seq<char>,
    r: Option<SkewVerdict>,
) -> bool {
    let skew = skew_of(now, ts);
    let ok = i64::MIN < skew <= i64::MAX && record_fits(before.global_spec(), skew)
        && record_fits(stats_of(before.peers(), sender), skew);
    let v = verdict_for(skew, before.max_skew(), before.severe_skew());
    if ok {
        &&& r == Some(v)
        &&& after.global_spec() == record(before.global_spec(), skew as i64, v)
        &&& after.peers() == before.peers().insert(sender, record(stats_of(before.peers(), sender), skew as i64, v))
    } else {
        &&& r is None
        &&& after.global_spec() == before.global_spec()
        &&& after.peers() == before.peers()
    }
}

impl ClockSkewChecker {
    /// Statistics per peer.
    pub closed spec fn peers(&self) -> Map<Seq<char>, SkewStats> {
        to_map(sentries(self.per_peer@))
    }

    /// Statistics over all peers.
    pub closed spec fn global_spec(&self) -> SkewStats {
        self.global
    }

    /// Warning threshold (ms).
    pub closed spec fn max_skew(&self) -> i64 {
        self.max_skew_ms
    }

    /// Severe threshold (ms).
    pub closed spec fn severe_skew(&self) -> i64 {
        self.severe_skew_ms
    }

    /// Peer names are unique and no recorded maximum is `i64::MIN` (so its
    /// magnitude is representable).
    pub closed spec fn wf(&self) -> bool {
        &&& keys_unique(sentries(self.per_peer@))
        &&& self.global.max_skew_ms != i64::MIN
        &&& stats_ordered(self.global)
        &&& forall|p: Seq<char>| #[trigger] self.peers().contains_key(p) ==> self.peers()[p].max_skew_ms != i64::MIN
            && stats_ordered(self.peers()[p])
    }

    /// A checker with explicit warning and severe thresholds.
    pub fn with_thresholds(max_skew_ms: i64, severe_skew_ms: i64) -> (c: Self)
        ensures
            c.wf(),
            c.max_skew() == max_skew_ms,
            c.severe_skew() == severe_skew_ms,
            c.global_spec() == zero_stats(),
            c.peers() == Map::<Seq<char>, SkewStats>::empty(),
    {
        let c = ClockSkewChecker { max_skew_ms, severe_skew_ms, per_peer: Vec::new(), global: SkewStats::default() };
        proof {
            assert(c.peers() =~= Map::<Seq<char>, SkewStats>::empty());
        }
        c
    }

    /// A checker warning beyond `max_skew_ms`, severe beyond five times that
    /// (at least 5 seconds).
    pub fn new(max_skew_ms: i64) -> (c: Self)
        requires
            i64::MIN <= max_skew_ms * 5 <= i64::MAX,
        ensures
            c.wf(),
            c.max_skew() == max_skew_ms,
            c.severe_skew() == if max_skew_ms * 5 >= 5000 { max_skew_ms * 5 } else { 5000 },
            c.global_spec() == zero_stats(),
            c.peers() == Map::<Seq<char>, SkewStats>::empty(),
    {
        let five = max_skew_ms * 5;
        let severe = if five >= 5000 { five } else { 5000 };
        Self::with_thresholds(max_skew_ms, severe)
    }

    /// A checker with the default thresholds (10 minutes, 1 hour).
    pub fn with_default() -> (c: Self)
        ensures
            c.wf(),
            c.max_skew() == DEFAULT_MAX_SKEW_MS,
            c.severe_skew() == SEVERE_SKEW_MS,
            c.global_spec() == zero_stats(),
            c.peers() == Map::<Seq<char>, SkewStats>::empty(),
    {
        Self::with_thresholds(DEFAULT_MAX_SKEW_MS, SEVERE_SKEW_MS)
    }

    /// The statistics of `sender` (zero if unknown).
    fn peer_or_default(&self, sender: &str) -> (s: SkewStats)
        requires
            self.wf(),
        ensures
            s == stats_of(self.peers(), sender@),
    {
        match sfind(&self.per_peer, sender) {
            Some(i) => {
                proof {
                    lemma_sentry(self.per_peer@, i as int);
                }
                self.per_peer[i].1
            },
            None => SkewStats::default(),
        }
    }

    /// Classifies a transaction stamped `tx_timestamp_secs` from `sender`, seen
    /// when the clock reads `now_secs`, and records it. Returns `None`, changing
    /// nothing, when the skew or a counter would leave its 64-bit range.
    pub fn check_at(&mut self, now_secs: u64, tx_timestamp_secs: u64, sender: &str) -> (r: Option<SkewVerdict>)
        requires
            old(self).wf(),
        ensures
            final(self).wf(),
            final(self).max_skew() == old(self).max_skew(),
            final(self).severe_skew() == old(self).severe_skew(),
            ({
                let skew = skew_of(now_secs, tx_timestamp_secs);
                let ok = i64::MIN < skew <= i64::MAX && record_fits(old(self).global_spec(), skew)
                    && record_fits(stats_of(old(self).peers(), sender@), skew);
                let v = verdict_for(skew, old(self).max_skew(), old(self).severe_skew());
                if ok {
                    &&& r == Some(v)
                    &&& final(self).global_spec() == record(old(self).global_spec(), skew as i64, v)
                    &&& final(self).peers() == old(self).peers().insert(sender@, record(stats_of(old(self).peers(), sender@), skew as i64, v))
                } else {
                    &&& r is None
                    &&& final(self).global_spec() == old(self).global_spec()
                    &&& final(self).peers() == old(self).peers()
                }
            }),
    {
        let now_i = now_secs as i64;
        let tx_i = tx_timestamp_secs as i64;
        let diff = match now_i.checked_sub(tx_i) {
            Some(d) => d,
            None => return None,
        };
        let skew_ms = match diff.checked_mul(1000) {
            Some(s) => s,
            None => return None,
        };
        if skew_ms == i64::MIN {
            return None;
        }
        let g = self.global;
        let p = self.peer_or_default(sender);
        if g.total_checked == u64::MAX || g.warnings == u64::MAX || g.severe == u64::MAX {
            return None;
        }
        if p.total_checked == u64::MAX || p.warnings == u64::MAX || p.severe == u64::MAX {
            return None;
        }
        let g_sum = match g.sum_skew_ms.checked_add(skew_ms) {
            Some(x) => x,
            None => return None,
        };
        let p_sum = match p.sum_skew_ms.checked_add(skew_ms) {
            Some(x) => x,
            None => return None,
        };
        let a = if skew_ms < 0 { -skew_ms } else { skew_ms };
        let verdict = if a > self.severe_skew_ms {
            SkewVerdict::Severe
        } else if a > self.max_skew_ms {
            SkewVerdict::Warning
        } else {
            SkewVerdict::Normal
        };
        self.global = record_exec(g, skew_ms, a, g_sum, verdict);
        let np = record_exec(p, skew_ms, a, p_sum, verdict);
        let ghost peers0 = self.peers();
        sset(&mut self.per_peer, sender, np);
        proof {
            assert forall|q: Seq<char>| #[trigger] self.peers().contains_key(q) implies self.peers()[q].max_skew_ms != i64::MIN by {
                if q != sender@ {
                    assert(peers0.contains_key(q));
                }
            }
        }
        Some(verdict)
    }

    /// Classifies a received transaction against the local clock and records
    /// it (see `check_at`; the clock reading is not known in advance).
    pub fn check(&mut self, tx_timestamp_secs: u64, sender: &str) -> (r: Option<SkewVerdict>)
        requires
            old(self).wf(),
        ensures
            final(self).wf(),
            final(self).max_skew() == old(self).max_skew(),
            final(self).severe_skew() == old(self).severe_skew(),
            exists|now: u64| #![trigger skew_of(now, tx_timestamp_secs)]
                checked_at(*old(self), *final(self), now, tx_timestamp_secs, sender@, r),
    {
        let now = now_unix_secs();
        self.check_at(now, tx_timestamp_secs, sender)
    }

    /// The overall statistics.
    pub fn global_stats(&self) -> (s: SkewStats)
        requires
            self.wf(),
        ensures
            s == self.global_spec(),
            stats_ordered(s),
    {
        self.global
    }

    /// The statistics of `sender`, if it was ever checked.
    pub fn peer_stats(&self, sender: &str) -> (r: Option<SkewStats>)
        requires
            self.wf(),
        ensures
            r matches Some(st) ==> stats_ordered(st),
            r == if self.peers().contains_key(sender@) {
                Some(self.peers()[sender@])
            } else {
                None
            },
    {
        match sfind(&self.per_peer, sender) {
            Some(i) => {
                proof {
                    lemma_sentry(self.per_peer@, i as int);
                    assert(self.peers().contains_key(sender@));
                }
                Some(self.per_peer[i].1)
            },
            None => None,
        }
    }

    /// The peers with at least one warning, most warnings first, at most `n` of
    /// them (peers with equal counts in unspecified order).
    pub fn top_offenders(&self, n: usize) -> (r: Vec<(String, SkewStats)>)
        requires
            self.wf(),
        ensures
            r@.len() <= n,
            keys_unique(sentries(r@)),
            forall|i: int| 0 <= i < r@.len() ==> self.peers().contains_key((#[trigger] r@[i]).0@)
                && self.peers()[r@[i].0@] == r@[i].1 && r@[i].1.warnings > 0,
            forall|i: int, j: int| 0 <= i < j < r@.len() ==> (#[trigger] r@[i]).1.warnings >= (#[trigger] r@[j]).1.warnings,
            forall|p: Seq<char>| #[trigger] self.peers().contains_key(p) && self.peers()[p].warnings > 0
                && !has_key(sentries(r@), p) ==> forall|i: int| 0 <= i < r@.len() ==> (#[trigger] r@[i]).1.warnings >= self.peers()[p].warnings,
            r@.len() < n ==> forall|p: Seq<char>| #[trigger] self.peers().contains_key(p) && self.peers()[p].warnings > 0
                ==> has_key(sentries(r@), p),
    {
        let ghost pm = self.peers();
        let mut all: Vec<(String, SkewStats)> = Vec::new();
        let mut k: usize = 0;
        while k < self.per_peer.len()
            invariant
                self.wf(),
                pm == self.peers(),
                k <= self.per_peer@.len(),
                keys_unique(sentries(all@)),
                forall|i: int| 0 <= i < all@.len() ==> pm.contains_key((#[trigger] all@[i]).0@) && pm[all@[i].0@] == all@[i].1
                    && all@[i].1.warnings > 0,
                forall|p: Seq<char>| #[trigger] has_key(sentries(all@), p) <==> exists|q: int| 0 <= q < k
                    && (#[trigger] self.per_peer@[q]).0@ == p && self.per_peer@[q].1.warnings > 0,
            decreases self.per_peer@.len() - k,
        {
            let ghost a0 = all@;
            proof {
                lemma_sentry(self.per_peer@, k as int);
            }
            if self.per_peer[k].1.warnings > 0 {
                proof {
                    assert(!has_key(sentries(a0), self.per_peer@[k as int].0@)) by {
                        if has_key(sentries(a0), self.per_peer@[k as int].0@) {
                            let q = choose|q: int| 0 <= q < k && (#[trigger] self.per_peer@[q]).0@ == self.per_peer@[k as int].0@
                                && self.per_peer@[q].1.warnings > 0;
                            assert(sentries(self.per_peer@)[q].0 != sentries(self.per_peer@)[k as int].0);
                        }
                    }
                }
                all.push((self.per_peer[k].0.clone(), self.per_peer[k].1));
                proof {
                    assert(sentries(all@) =~= sentries(a0).push((self.per_peer@[k as int].0@, self.per_peer@[k as int].1)));
                    crate::maps::lemma_to_map_push(sentries(a0), self.per_peer@[k as int].0@, self.per_peer@[k as int].1);
                }
            }
            proof {
                assert forall|p: Seq<char>| #[trigger] has_key(sentries(all@), p) <==> exists|q: int| 0 <= q < k + 1
                    && (#[trigger] self.per_peer@[q]).0@ == p && self.per_peer@[q].1.warnings > 0 by {
                    if has_key(sentries(all@), p) {
                        let i = choose|i: int| 0 <= i < sentries(all@).len() && (#[trigger] sentries(all@)[i]).0 == p;
                        if i < a0.len() {
                            assert(sentries(a0)[i].0 == p);
                            assert(has_key(sentries(a0), p));
                            let q = choose|q: int| 0 <= q < k && (#[trigger] self.per_peer@[q]).0@ == p && self.per_peer@[q].1.warnings > 0;
                            assert(0 <= q < k + 1);
                        } else {
                            assert(self.per_peer@[k as int].0@ == p);
                            assert(self.per_peer@[k as int].1.warnings > 0);
                        }
                    }
                    if exists|q: int| 0 <= q < k + 1 && (#[trigger] self.per_peer@[q]).0@ == p && self.per_peer@[q].1.warnings > 0 {
                        let q = choose|q: int| 0 <= q < k + 1 && (#[trigger] self.per_peer@[q]).0@ == p && self.per_peer@[q].1.warnings > 0;
                        if q < k {
                            assert(has_key(sentries(a0), p));
                            let i = choose|i: int| 0 <= i < sentries(a0).len() && (#[trigger] sentries(a0)[i]).0 == p;
                            assert(sentries(all@)[i].0 == p);
                        } else {
                            assert(sentries(all@)[sentries(all@).len() - 1].0 == p);
                        }
                    }
                }
            }
            k = k + 1;
        }
        proof {
            assert forall|p: Seq<char>| #[trigger] pm.contains_key(p) && pm[p].warnings > 0 implies has_key(sentries(all@), p) by {
                let e = sentries(self.per_peer@);
                let q = choose|q: int| 0 <= q < e.len() && (#[trigger] e[q]).0 == p;
                lemma_sentry(self.per_peer@, q);
                assert(self.per_peer@[q].0@ == p);
            }
        }
        let mut r: Vec<(String, SkewStats)> = Vec::new();
        while r.len() < n && all.len() > 0
            invariant
                pm == self.peers(),
                r@.len() <= n,
                keys_unique(sentries(all@)),
                keys_unique(sentries(r@)),
                forall|i: int| 0 <= i < all@.len() ==> pm.contains_key((#[trigger] all@[i]).0@) && pm[all@[i].0@] == all@[i].1
                    && all@[i].1.warnings > 0,
                forall|i: int| 0 <= i < r@.len() ==> pm.contains_key((#[trigger] r@[i]).0@) && pm[r@[i].0@] == r@[i].1
                    && r@[i].1.warnings > 0,
                forall|p: Seq<char>| #[trigger] pm.contains_key(p) && pm[p].warnings > 0 ==> has_key(sentries(all@), p)
                    || has_key(sentries(r@), p),
                forall|p: Seq<char>| !(#[trigger] has_key(sentries(all@), p) && has_key(sentries(r@), p)),
                forall|i: int, j: int| 0 <= i < j < r@.len() ==> (#[trigger] r@[i]).1.warnings >= (#[trigger] r@[j]).1.warnings,
                forall|i: int, j: int| 0 <= i < r@.len() && 0 <= j < all@.len() ==> (#[trigger] r@[i]).1.warnings
                    >= (#[trigger] all@[j]).1.warnings,
            decreases all@.len(),
        {
            let mut best: usize = 0;
            let mut q: usize = 1;
            while q < all.len()
                invariant
                    1 <= q <= all@.len(),
                    best < all@.len(),
                    forall|j: int| 0 <= j < q ==> all@[best as int].1.warnings >= (#[trigger] all@[j]).1.warnings,
                decreases all@.len() - q,
            {
                if all[q].1.warnings > all[best].1.warnings {
                    best = q;
                }
                q = q + 1;
            }
            let ghost a0 = all@;
            let ghost r0 = r@;
            let e = all.remove(best);
            proof {
                assert(all@ =~= a0.remove(best as int));
                assert(sentries(all@) =~= sentries(a0).remove(best as int));
                assert(e == a0[best as int]);
                assert(!has_key(sentries(r0), e.0@)) by {
                    assert(sentries(a0)[best as int].0 == e.0@);
                    assert(has_key(sentries(a0), e.0@));
                }
                assert(!has_key(sentries(all@), e.0@)) by {
                    if has_key(sentries(all@), e.0@) {
                        let i = choose|i: int| 0 <= i < sentries(all@).len() && (#[trigger] sentries(all@)[i]).0 == e.0@;
                        if i < best {
                            assert(sentries(a0)[i].0 != sentries(a0)[best as int].0);
                        } else {
                            assert(sentries(a0)[i + 1].0 != sentries(a0)[best as int].0);
                        }
                    }
                }
            }
            r.push(e);
            proof {
                assert(sentries(r@) =~= sentries(r0).push((e.0@, e.1)));
                crate::maps::lemma_to_map_push(sentries(r0), e.0@, e.1);
                assert forall|p: Seq<char>| #[trigger] pm.contains_key(p) && pm[p].warnings > 0 implies has_key(sentries(all@), p)
                    || has_key(sentries(r@), p) by {
                    if has_key(sentries(a0), p) {
                        let i = choose|i: int| 0 <= i < sentries(a0).len() && (#[trigger] sentries(a0)[i]).0 == p;
                        if i < best {
                            assert(sentries(all@)[i].0 == p);
                        } else if i > best {
                            assert(sentries(all@)[i - 1].0 == p);
                        } else {
                            assert(sentries(r@)[sentries(r@).len() - 1].0 == p);
                        }
                    } else {
                        let i = choose|i: int| 0 <= i < sentries(r0).len() && (#[trigger] sentries(r0)[i]).0 == p;
                        assert(sentries(r@)[i].0 == p);
                    }
                }
                assert forall|p: Seq<char>| !(#[trigger] has_key(sentries(all@), p) && has_key(sentries(r@), p)) by {
                    if has_key(sentries(all@), p) && has_key(sentries(r@), p) {
                        let i = choose|i: int| 0 <= i < sentries(all@).len() && (#[trigger] sentries(all@)[i]).0 == p;
                        let j = choose|j: int| 0 <= j < sentries(r@).len() && (#[trigger] sentries(r@)[j]).0 == p;
                        if j < r0.len() {
                            let ia = if i < best { i } else { i + 1 };
                            assert(sentries(a0)[ia].0 == p);
                            assert(sentries(r0)[j].0 == p);
                            assert(has_key(sentries(a0), p));
                            assert(has_key(sentries(r0), p));
                        } else {
                            assert(p == e.0@);
                        }
                    }
                }
                assert forall|i: int, j: int| 0 <= i < r@.len() && 0 <= j < all@.len() implies (#[trigger] r@[i]).1.warnings
                    >= (#[trigger] all@[j]).1.warnings by {
                    let ja = if j < best { j } else { j + 1 };
                    assert(all@[j] == a0[ja]);
                }
            }
        }
        proof {
            assert forall|p: Seq<char>| #[trigger] pm.contains_key(p) && pm[p].warnings > 0 && !has_key(sentries(r@), p)
                implies forall|i: int| 0 <= i < r@.len() ==> (#[trigger] r@[i]).1.warnings >= pm[p].warnings by {
                assert(has_key(sentries(all@), p));
                let j = choose|j: int| 0 <= j < sentries(all@).len() && (#[trigger] sentries(all@)[j]).0 == p;
                assert(all@[j].1 == pm[p]);
                assert forall|i: int| 0 <= i < r@.len() implies (#[trigger] r@[i]).1.warnings >= pm[p].warnings by {
                    assert(r@[i].1.warnings >= all@[j].1.warnings);
                }
            }
            if r@.len() < n {
                assert forall|p: Seq<char>| #[trigger] pm.contains_key(p) && pm[p].warnings > 0 implies has_key(sentries(r@), p) by {
                    if has_key(sentries(all@), p) {
                        let i = choose|i: int| 0 <= i < sentries(all@).len() && (#[trigger] sentries(all@)[i]).0 == p;
                    }
                }
            }
        }
        r
    }

    /// Clears all statistics.
    pub fn reset(&mut self)
        ensures
            final(self).wf(),
            final(self).global_spec() == zero_stats(),
            final(self).peers() == Map::<Seq<char>, SkewStats>::empty(),
            final(self).max_skew() == old(self).max_skew(),
            final(self).severe_skew() == old(self).severe_skew(),
    {
        self.global = SkewStats::default();
        self.per_peer = Vec::new();
        proof {
            assert(self.peers() =~= Map::<Seq<char>, SkewStats>::empty());
        }
    }
}

/// `record` computed from the skew, its magnitude and the new sum.
fn record_exec(s: SkewStats, skew: i64, a: i64, sum: i64, v: SkewVerdict) -> (r: SkewStats)
    requires
        s.max_skew_ms != i64::MIN,
        skew != i64::MIN,
        a == abs(skew as int),
        sum == s.sum_skew_ms + skew,
        record_fits(s, skew as int),
    ensures
        r == record(s, skew, v),
        r.max_skew_ms != i64::MIN,
{
    let m = s.max_skew_ms;
    let am = if m < 0 { -m } else { m };
    SkewStats {
        total_checked: s.total_checked + 1,
        warnings: if v != SkewVerdict::Normal { s.warnings + 1 } else { s.warnings },
        severe: if v == SkewVerdict::Severe { s.severe + 1 } else { s.severe },
        max_skew_ms: if a > am { skew } else { m },
        sum_skew_ms: sum,
    }
}

} // verus!
