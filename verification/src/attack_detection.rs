//! The bookkeeping of the attack detectors: clusters of nodes whose predictions
//! coincide (coordination), and streaks of nodes that keep copying another
//! node's prediction (clones). Which predictions are close is measured by the
//! caller; here it is given as pairs of proposal indices or as flags.
use vstd::prelude::*;
use crate::config::{CLONE_STREAK_THRESHOLD, COORDINATION_MIN_CLUSTER};
use crate::keyed::{lemma_sentry, sentries, sfind, sset};
use crate::maps::{keys_unique, to_map};

verus! {

/// `e` is an equivalence relation on indices that relates both ends of every edge.
pub open spec fn equiv_with_edges(e: spec_fn(int, int) -> bool, edges: Seq<(usize, usize)>) -> bool {
    &&& forall|x: int| #[trigger] e(x, x)
    &&& forall|x: int, y: int| #[trigger] e(x, y) ==> e(y, x)
    &&& forall|x: int, y: int, z: int| #[trigger] e(x, y) && #[trigger] e(y, z) ==> e(x, z)
    &&& forall|k: int| 0 <= k < edges.len() ==> e(#[trigger] edges[k].0 as int, edges[k].1 as int)
}

/// `x` and `y` are in the same cluster: related by every equivalence relation
/// that relates the ends of each edge (the least such relation).
pub open spec fn same_cluster(edges: Seq<(usize, usize)>, x: int, y: int) -> bool {
    forall|e: spec_fn(int, int) -> bool| #[trigger] equiv_with_edges(e, edges) ==> e(x, y)
}

/// Number of indices below `n` in the cluster of `i`.
pub open spec fn cluster_size(n: nat, edges: Seq<(usize, usize)>, i: int) -> nat {
    Seq::new(n, |j: int| j).filter(|j: int| same_cluster(edges, i, j)).len()
}

/// Which of `n` proposals belong to a coordinated cluster: `close` lists the
/// pairs of proposals whose predictions are close, and a proposal is flagged
/// when its cluster (under the transitive closure of closeness) has at least
/// `COORDINATION_MIN_CLUSTER` members.
pub fn coordinated_members(n: usize, close: &Vec<(usize, usize)>) -> (flags: Vec<bool>)
    requires
        forall|k: int| 0 <= k < close@.len() ==> (#[trigger] close@[k]).0 < n && close@[k].1 < n,
    ensures
        flags@.len() == n,
        forall|i: int| 0 <= i < n ==> #[trigger] flags@[i] == (cluster_size(n as nat, close@, i) >= COORDINATION_MIN_CLUSTER),
{
    let ghost edges = close@;
    let mut labels: Vec<usize> = Vec::new();
    let mut k: usize = 0;
    while k < n
        invariant
            k <= n,
            labels@.len() == k,
            forall|q: int| 0 <= q < k ==> labels@[q] == q,
        decreases n - k,
    {
        labels.push(k);
        k = k + 1;
    }
    proof {
        assert forall|x: int, y: int| 0 <= x < n && 0 <= y < n && labels@[x] == labels@[y] implies same_cluster(edges, x, y) by {
            assert(x == y);
            assert forall|e: spec_fn(int, int) -> bool| #[trigger] equiv_with_edges(e, edges) implies e(x, y) by {
                assert(e(x, x));
            }
        }
    }
    let mut t: usize = 0;
    while t < close.len()
        invariant
            edges == close@,
            forall|q: int| 0 <= q < edges.len() ==> (#[trigger] edges[q]).0 < n && edges[q].1 < n,
            labels@.len() == n,
            t <= edges.len(),
            forall|q: int| 0 <= q < t ==> labels@[(#[trigger] edges[q]).0 as int] == labels@[edges[q].1 as int],
            forall|x: int, y: int| 0 <= x < n && 0 <= y < n && #[trigger] labels@[x] == #[trigger] labels@[y]
                ==> same_cluster(edges, x, y),
        decreases edges.len() - t,
    {
        let a = close[t].0;
        let b = close[t].1;
        let la = labels[a];
        let lb = labels[b];
        if la != lb {
            let ghost old_labels = labels@;
            let mut q: usize = 0;
            while q < n
                invariant
                    labels@.len() == n,
                    old_labels.len() == n,
                    q <= n,
                    forall|z: int| 0 <= z < q ==> #[trigger] labels@[z] == if old_labels[z] == lb { la } else { old_labels[z] },
                    forall|z: int| q <= z < n ==> #[trigger] labels@[z] == old_labels[z],
                decreases n - q,
            {
                if labels[q] == lb {
                    labels.set(q, la);
                }
                q = q + 1;
            }
            proof {
                assert(old_labels[a as int] == la && old_labels[b as int] == lb);
                assert forall|z: int| 0 <= z < n implies #[trigger] labels@[z] == if old_labels[z] == lb { la } else { old_labels[z] } by {}
                assert forall|x: int, y: int| 0 <= x < n && 0 <= y < n && #[trigger] labels@[x] == #[trigger] labels@[y]
                    implies same_cluster(edges, x, y) by {
                    let ox = old_labels[x];
                    let oy = old_labels[y];
                    if ox == oy {
                        assert(same_cluster(edges, x, y));
                    } else {
                        assert forall|e: spec_fn(int, int) -> bool| #[trigger] equiv_with_edges(e, edges) implies e(x, y) by {
                            assert(e(a as int, b as int)) by {
                                assert(edges[t as int].0 == a && edges[t as int].1 == b);
                            }
                            assert(e(b as int, a as int));
                            if ox == lb {
                                assert(oy == la);
                                assert(same_cluster(edges, x, b as int));
                                assert(same_cluster(edges, a as int, y));
                                assert(e(x, b as int));
                                assert(e(a as int, y));
                                assert(e(x, a as int));
                            } else {
                                assert(oy == lb);
                                assert(ox == la);
                                assert(same_cluster(edges, x, a as int));
                                assert(same_cluster(edges, b as int, y));
                                assert(e(x, a as int));
                                assert(e(b as int, y));
                                assert(e(x, b as int));
                            }
                        }
                    }
                }
                assert forall|q2: int| 0 <= q2 < t + 1 implies labels@[(#[trigger] edges[q2]).0 as int] == labels@[edges[q2].1 as int] by {
                    if q2 < t {
                        assert(old_labels[edges[q2].0 as int] == old_labels[edges[q2].1 as int]);
                    }
                }
            }
        }
        t = t + 1;
    }
    let ghost fin = labels@;
    proof {
        let e = |x: int, y: int| fin[x] == fin[y];
        assert(equiv_with_edges(e, edges));
        assert forall|x: int, y: int| 0 <= x < n && 0 <= y < n implies (#[trigger] same_cluster(edges, x, y)) == (fin[x] == fin[y]) by {
            if same_cluster(edges, x, y) {
                assert(equiv_with_edges(e, edges));
                assert(e(x, y));
            }
        }
    }
    let mut flags: Vec<bool> = Vec::new();
    let mut i: usize = 0;
    while i < n
        invariant
            labels@ == fin,
            fin.len() == n,
            forall|x: int, y: int| 0 <= x < n && 0 <= y < n ==> (#[trigger] same_cluster(edges, x, y)) == (fin[x] == fin[y]),
            i <= n,
            flags@.len() == i,
            forall|p: int| 0 <= p < i ==> #[trigger] flags@[p] == (cluster_size(n as nat, edges, p) >= COORDINATION_MIN_CLUSTER),
        decreases n - i,
    {
        let ghost f = |j: int| same_cluster(edges, i as int, j);
        let mut count: usize = 0;
        let mut j: usize = 0;
        while j < n
            invariant
                labels@ == fin,
                fin.len() == n,
                forall|x: int, y: int| 0 <= x < n && 0 <= y < n ==> (#[trigger] same_cluster(edges, x, y)) == (fin[x] == fin[y]),
                i < n,
                f == (|j: int| same_cluster(edges, i as int, j)),
                j <= n,
                count == Seq::new(j as nat, |z: int| z).filter(f).len(),
                count <= j,
            decreases n - j,
        {
            proof {
                let s1 = Seq::new((j + 1) as nat, |z: int| z);
                assert(s1.drop_last() =~= Seq::new(j as nat, |z: int| z));
                assert(s1.last() == j);
                s1.filter_lemma(f);
                reveal(Seq::filter);
                assert(f(j as int) == (fin[i as int] == fin[j as int]));
            }
            if labels[j] == labels[i] {
                count = count + 1;
            }
            j = j + 1;
        }
        flags.push(count >= COORDINATION_MIN_CLUSTER);
        i = i + 1;
    }
    flags
}

/// Counts of detections per node.
pub struct CoordinationDetector {
    detection_count: Vec<(String, u32)>,
}

/// The count of `node` (0 if absent).
pub open spec fn count_in(m: Map<Seq<char>, u32>, node: Seq<char>) -> int {
    if m.contains_key(node) {
        m[node] as int
    } else {
        0
    }
}

/// The counts after adding one for each flagged entry of `nodes`, in order.
pub open spec fn bump_flagged(m: Map<Seq<char>, u32>, nodes: Seq<Seq<char>>, flags: Seq<bool>) -> Map<Seq<char>, u32>
    decreases nodes.len(),
{
    if nodes.len() == 0 {
        m
    } else {
        let m0 = bump_flagged(m, nodes.drop_last(), flags.drop_last());
        if flags.last() {
            m0.insert(nodes.last(), (count_in(m0, nodes.last()) + 1) as u32)
        } else {
            m0
        }
    }
}

/// The views of a list of names.
pub open spec fn name_views(v: Seq<String>) -> Seq<Seq<char>> {
    v.map_values(|s: String| s@)
}

/// The entries of `nodes` whose flag is set, in order.
pub open spec fn flagged_names(nodes: Seq<Seq<char>>, flags: Seq<bool>) -> Seq<Seq<char>>
    decreases nodes.len(),
{
    if nodes.len() == 0 {
        Seq::empty()
    } else {
        flagged_names(nodes.drop_last(), flags.drop_last()) + if flags.last() {
            seq![nodes.last()]
        } else {
            Seq::empty()
        }
    }
}

/// A count stays below `u32::MAX` after at most `k` more increments.
pub open spec fn room_for(m: Map<Seq<char>, u32>, k: int) -> bool {
    forall|s: Seq<char>| #[trigger] count_in(m, s) + k <= u32::MAX
}

/// Bumping at most `k` entries keeps counts within `room_for(m, k)`'s bound.
proof fn lemma_bump_room(m: Map<Seq<char>, u32>, nodes: Seq<Seq<char>>, flags: Seq<bool>, k: int)
    requires
        room_for(m, k),
        nodes.len() <= k,
        flags.len() == nodes.len(),
    ensures
        room_for(bump_flagged(m, nodes, flags), k - nodes.len()),
    decreases nodes.len(),
{
    if nodes.len() > 0 {
        lemma_bump_room(m, nodes.drop_last(), flags.drop_last(), k);
        let m0 = bump_flagged(m, nodes.drop_last(), flags.drop_last());
        let m1 = bump_flagged(m, nodes, flags);
        assert forall|s: Seq<char>| #[trigger] count_in(m1, s) + (k - nodes.len()) <= u32::MAX by {
            assert(count_in(m0, s) + (k - (nodes.len() - 1)) <= u32::MAX);
        }
    }
}

impl CoordinationDetector {
    /// Detections per node.
    pub closed spec fn counts(&self) -> Map<Seq<char>, u32> {
        to_map(sentries(self.detection_count@))
    }

    /// Node names are unique.
    pub closed spec fn wf(&self) -> bool {
        keys_unique(sentries(self.detection_count@))
    }

    /// No detections yet.
    pub fn new() -> (d: Self)
        ensures
            d.wf(),
            d.counts() == Map::<Seq<char>, u32>::empty(),
    {
        let d = CoordinationDetector { detection_count: Vec::new() };
        proof {
            assert(d.counts() =~= Map::<Seq<char>, u32>::empty());
        }
        d
    }

    /// Flags the proposals (sent by `senders`, in order) that belong to a
    /// coordinated cluster (see `coordinated_members`), counts a detection for
    /// each, and returns the flagged senders in order.
    pub fn detect_clusters(&mut self, senders: &Vec<String>, close: &Vec<(usize, usize)>) -> (r: Vec<String>)
        requires
            old(self).wf(),
            forall|k: int| 0 <= k < close@.len() ==> (#[trigger] close@[k]).0 < senders@.len() && close@[k].1 < senders@.len(),
            room_for(old(self).counts(), senders@.len() as int),
        ensures
            final(self).wf(),
            ({
                let flags = Seq::new(senders@.len(), |i: int| cluster_size(senders@.len() as nat, close@, i) >= COORDINATION_MIN_CLUSTER);
                &&& final(self).counts() == bump_flagged(old(self).counts(), name_views(senders@), flags)
                &&& name_views(r@) == flagged_names(name_views(senders@), flags)
            }),
    {
        let flags = coordinated_members(senders.len(), close);
        let ghost fl = flags@;
        let ghost nv = name_views(senders@);
        let ghost spec_flags = Seq::new(senders@.len(), |i: int| cluster_size(senders@.len() as nat, close@, i) >= COORDINATION_MIN_CLUSTER);
        proof {
            assert(fl =~= spec_flags);
        }
        let ghost m0 = self.counts();
        let mut r: Vec<String> = Vec::new();
        let mut i: usize = 0;
        while i < senders.len()
            invariant
                self.wf(),
                fl == flags@,
                fl.len() == senders@.len(),
                nv == name_views(senders@),
                i <= senders@.len(),
                room_for(m0, senders@.len() as int),
                self.counts() == bump_flagged(m0, nv.take(i as int), fl.take(i as int)),
                name_views(r@) == flagged_names(nv.take(i as int), fl.take(i as int)),
            decreases senders@.len() - i,
        {
            proof {
                assert(nv.take(i + 1).drop_last() =~= nv.take(i as int));
                assert(fl.take(i + 1).drop_last() =~= fl.take(i as int));
                assert(nv.take(i + 1).last() == senders@[i as int]@);
                assert(fl.take(i + 1).last() == fl[i as int]);
                lemma_bump_room(m0, nv.take(i as int), fl.take(i as int), senders@.len() as int);
                assert(count_in(self.counts(), senders@[i as int]@) + (senders@.len() - i) <= u32::MAX);
            }
            if flags[i] {
                let c: u32 = match sfind(&self.detection_count, senders[i].as_str()) {
                    Some(k) => {
                        proof {
                            lemma_sentry(self.detection_count@, k as int);
                        }
                        self.detection_count[k].1
                    },
                    None => 0,
                };
                sset(&mut self.detection_count, senders[i].as_str(), c + 1);
                let ghost r0 = r@;
                r.push(senders[i].clone());
                proof {
                    assert(name_views(r@) =~= name_views(r0).push(senders@[i as int]@));
                }
            }
            i = i + 1;
        }
        proof {
            assert(nv.take(senders@.len() as int) =~= nv);
            assert(fl.take(senders@.len() as int) =~= fl);
        }
        r
    }

    /// Detections per node, as `(node, count)` pairs.
    pub fn detection_count(&self) -> (r: &Vec<(String, u32)>)
        requires
            self.wf(),
        ensures
            keys_unique(sentries(r@)),
            to_map(sentries(r@)) == self.counts(),
    {
        &self.detection_count
    }
}

/// Proposal `k` repeats an earlier one: some pair `(i, k)` of `close` with
/// `i < k` says that its prediction is close to that of proposal `i`.
pub open spec fn copies_earlier(close: Seq<(usize, usize)>, k: int) -> bool {
    exists|q: int| 0 <= q < close.len() && (#[trigger] close[q]).0 < close[q].1 && close[q].1 == k
}

/// The clone suspects among `n` proposals, given the pairs `close` of proposals
/// whose predictions are close: a proposal is suspect when it repeats the
/// prediction of a proposal that came before it. The one that came first is
/// the one copied, and is not marked for it.
pub fn clone_suspects(n: usize, close: &Vec<(usize, usize)>) -> (suspects: Vec<bool>)
    ensures
        suspects@.len() == n,
        forall|k: int| 0 <= k < n ==> #[trigger] suspects@[k] == copies_earlier(close@, k),
{
    let mut suspects: Vec<bool> = Vec::new();
    let mut k: usize = 0;
    while k < n
        invariant
            k <= n,
            suspects@.len() == k,
            forall|j: int| 0 <= j < k ==> !suspects@[j],
        decreases n - k,
    {
        suspects.push(false);
        k = k + 1;
    }
    let mut q: usize = 0;
    while q < close.len()
        invariant
            q <= close@.len(),
            suspects@.len() == n,
            forall|j: int| 0 <= j < n ==> #[trigger] suspects@[j] == copies_earlier(close@.take(q as int), j),
        decreases close@.len() - q,
    {
        let (a, b) = close[q];
        if a < b && b < n {
            suspects.set(b, true);
        }
        proof {
            let c1 = close@.take(q + 1);
            assert forall|j: int| 0 <= j < n implies #[trigger] suspects@[j] == copies_earlier(c1, j) by {
                if copies_earlier(close@.take(q as int), j) {
                    let w = choose|w: int| 0 <= w < q && (#[trigger] close@.take(q as int)[w]).0 < close@.take(q as int)[w].1 && close@.take(q as int)[w].1 == j;
                    assert(c1[w] == close@[w]);
                }
                if copies_earlier(c1, j) {
                    let w = choose|w: int| 0 <= w < q + 1 && (#[trigger] c1[w]).0 < c1[w].1 && c1[w].1 == j;
                    if w < q {
                        assert(close@.take(q as int)[w] == close@[w]);
                    }
                }
                if a < b && b < n && j == b {
                    assert(c1[q as int] == close@[q as int]);
                }
            }
        }
        q = q + 1;
    }
    proof {
        assert(close@.take(close@.len() as int) =~= close@);
    }
    suspects
}

/// Streaks of consecutive steps in which a node looked like a copy of another,
/// and the number of steps in which it was confirmed as a clone.
pub struct CloneDetector {
    clone_streak: Vec<(String, u32)>,
    confirmed_clones: Vec<(String, u32)>,
}

/// Streaks and confirmations after one node's step: its streak grows when it
/// is suspect and restarts at 0 otherwise; reaching `CLONE_STREAK_THRESHOLD`
/// confirms it once more.
pub open spec fn streak_step(st: Map<Seq<char>, u32>, conf: Map<Seq<char>, u32>, node: Seq<char>, suspect: bool) -> (
    Map<Seq<char>, u32>,
    Map<Seq<char>, u32>,
    bool,
) {
    let s = if suspect { count_in(st, node) + 1 } else { 0 };
    let st1 = st.insert(node, s as u32);
    if s >= CLONE_STREAK_THRESHOLD {
        (st1, conf.insert(node, (count_in(conf, node) + 1) as u32), true)
    } else {
        (st1, conf, false)
    }
}

/// Streaks, confirmations and the confirmed nodes (in order) after the steps of
/// `nodes` with suspicion flags `suspects`.
pub open spec fn streaks_all(st: Map<Seq<char>, u32>, conf: Map<Seq<char>, u32>, nodes: Seq<Seq<char>>, suspects: Seq<bool>) -> (
    Map<Seq<char>, u32>,
    Map<Seq<char>, u32>,
    Seq<Seq<char>>,
)
    decreases nodes.len(),
{
    if nodes.len() == 0 {
        (st, conf, Seq::empty())
    } else {
        let p = streaks_all(st, conf, nodes.drop_last(), suspects.drop_last());
        let q = streak_step(p.0, p.1, nodes.last(), suspects.last());
        (q.0, q.1, if q.2 { p.2.push(nodes.last()) } else { p.2 })
    }
}

/// After the steps of `nodes`, each count has grown by at most one per step.
proof fn lemma_streak_room(st: Map<Seq<char>, u32>, conf: Map<Seq<char>, u32>, nodes: Seq<Seq<char>>, suspects: Seq<bool>, k: int)
    requires
        room_for(st, k),
        room_for(conf, k),
        nodes.len() <= k,
        suspects.len() == nodes.len(),
    ensures
        room_for(streaks_all(st, conf, nodes, suspects).0, k - nodes.len()),
        room_for(streaks_all(st, conf, nodes, suspects).1, k - nodes.len()),
    decreases nodes.len(),
{
    if nodes.len() > 0 {
        lemma_streak_room(st, conf, nodes.drop_last(), suspects.drop_last(), k);
        let p = streaks_all(st, conf, nodes.drop_last(), suspects.drop_last());
        let q = streaks_all(st, conf, nodes, suspects);
        assert forall|x: Seq<char>| #[trigger] count_in(q.0, x) + (k - nodes.len()) <= u32::MAX by {
            assert(count_in(p.0, x) + (k - (nodes.len() - 1)) <= u32::MAX);
        }
        assert forall|x: Seq<char>| #[trigger] count_in(q.1, x) + (k - nodes.len()) <= u32::MAX by {
            assert(count_in(p.1, x) + (k - (nodes.len() - 1)) <= u32::MAX);
        }
    }
}

impl CloneDetector {
    /// Current streak per node.
    pub closed spec fn streaks(&self) -> Map<Seq<char>, u32> {
        to_map(sentries(self.clone_streak@))
    }

    /// Confirmations per node.
    pub closed spec fn confirmed(&self) -> Map<Seq<char>, u32> {
        to_map(sentries(self.confirmed_clones@))
    }

    /// Node names are unique in both tables.
    pub closed spec fn wf(&self) -> bool {
        &&& keys_unique(sentries(self.clone_streak@))
        &&& keys_unique(sentries(self.confirmed_clones@))
    }

    /// No streaks yet.
    pub fn new() -> (d: Self)
        ensures
            d.wf(),
            d.streaks() == Map::<Seq<char>, u32>::empty(),
            d.confirmed() == Map::<Seq<char>, u32>::empty(),
    {
        let d = CloneDetector { clone_streak: Vec::new(), confirmed_clones: Vec::new() };
        proof {
            assert(d.streaks() =~= Map::<Seq<char>, u32>::empty());
            assert(d.confirmed() =~= Map::<Seq<char>, u32>::empty());
        }
        d
    }

    /// One step: `nodes[i]` sent a proposal and `suspects[i]` says whether it
    /// is a clone suspect (see `clone_suspects`). Updates the streaks in order and
    /// returns the nodes confirmed as clones at this step (in order).
    pub fn update_streaks(&mut self, nodes: &Vec<String>, suspects: &Vec<bool>) -> (r: Vec<String>)
        requires
            old(self).wf(),
            suspects@.len() == nodes@.len(),
            room_for(old(self).streaks(), nodes@.len() as int),
            room_for(old(self).confirmed(), nodes@.len() as int),
        ensures
            final(self).wf(),
            ({
                let p = streaks_all(old(self).streaks(), old(self).confirmed(), name_views(nodes@), suspects@);
                &&& final(self).streaks() == p.0
                &&& final(self).confirmed() == p.1
                &&& name_views(r@) == p.2
            }),
    {
        let ghost st0 = self.streaks();
        let ghost cf0 = self.confirmed();
        let ghost nv = name_views(nodes@);
        let ghost sv = suspects@;
        let mut r: Vec<String> = Vec::new();
        let mut i: usize = 0;
        while i < nodes.len()
            invariant
                self.wf(),
                nv == name_views(nodes@),
                sv == suspects@,
                sv.len() == nv.len(),
                i <= nodes@.len(),
                room_for(st0, nodes@.len() as int),
                room_for(cf0, nodes@.len() as int),
                self.streaks() == streaks_all(st0, cf0, nv.take(i as int), sv.take(i as int)).0,
                self.confirmed() == streaks_all(st0, cf0, nv.take(i as int), sv.take(i as int)).1,
                name_views(r@) == streaks_all(st0, cf0, nv.take(i as int), sv.take(i as int)).2,
            decreases nodes@.len() - i,
        {
            proof {
                assert(nv.take(i + 1).drop_last() =~= nv.take(i as int));
                assert(sv.take(i + 1).drop_last() =~= sv.take(i as int));
                assert(nv.take(i + 1).last() == nodes@[i as int]@);
                assert(sv.take(i + 1).last() == sv[i as int]);
                lemma_streak_room(st0, cf0, nv.take(i as int), sv.take(i as int), nodes@.len() as int);
                assert(count_in(self.streaks(), nodes@[i as int]@) + (nodes@.len() - i) <= u32::MAX);
                assert(count_in(self.confirmed(), nodes@[i as int]@) + (nodes@.len() - i) <= u32::MAX);
            }
            let node = nodes[i].as_str();
            let cur: u32 = match sfind(&self.clone_streak, node) {
                Some(k) => {
                    proof {
                        lemma_sentry(self.clone_streak@, k as int);
                    }
                    self.clone_streak[k].1
                },
                None => 0,
            };
            let s: u32 = if suspects[i] { cur + 1 } else { 0 };
            sset(&mut self.clone_streak, node, s);
            if s >= CLONE_STREAK_THRESHOLD {
                let c: u32 = match sfind(&self.confirmed_clones, node) {
                    Some(k) => {
                        proof {
                            lemma_sentry(self.confirmed_clones@, k as int);
                        }
                        self.confirmed_clones[k].1
                    },
                    None => 0,
                };
                sset(&mut self.confirmed_clones, node, c + 1);
                let ghost r0 = r@;
                r.push(nodes[i].clone());
                proof {
                    assert(name_views(r@) =~= name_views(r0).push(nodes@[i as int]@));
                }
            }
            i = i + 1;
        }
        proof {
            assert(nv.take(nodes@.len() as int) =~= nv);
            assert(sv.take(nodes@.len() as int) =~= sv);
        }
        r
    }

    /// Confirmations per node, as `(node, count)` pairs.
    pub fn confirmed_clones(&self) -> (r: &Vec<(String, u32)>)
        requires
            self.wf(),
        ensures
            keys_unique(sentries(r@)),
            to_map(sentries(r@)) == self.confirmed(),
    {
        &self.confirmed_clones
    }
}

} // verus!
