//! The fee pool: fees collected from finalized transactions, part of which is
//! shared out every epoch among the eligible nodes in proportion to how many
//! of their proposed transactions were finalized.
use vstd::prelude::*;
use crate::config::EPOCH_LENGTH;
use crate::keyed::{lemma_sentry, sentries, sset};
use crate::maps::{has_key, keys_unique, lemma_map_sum, lemma_seq_sum_insert, lemma_to_map_index, lemma_to_map_push, seq_sum, to_map};
use crate::state::{balance_of, balance_value, credit, sat_add, total_balance, StateManager};

verus! {

/// Fees collected and not yet distributed, with the history of distributions.
#[derive(Debug, Clone)]
pub struct FeePool {
    /// All fees ever collected.
    pub total_collected: u64,
    /// Fees not yet distributed.
    pub current_pool: u64,
    /// Step of the last epoch distribution.
    pub last_epoch_step: u64,
    /// `(step, amount)` of each distribution.
    pub distributed_per_epoch: Vec<(u64, u64)>,
}

/// `a + b`, saturating at `u64::MAX`.
pub open spec fn sat_add_u64(a: u64, b: u64) -> u64 {
    if a + b > u64::MAX {
        u64::MAX
    } else {
        (a + b) as u64
    }
}

/// Whether an epoch distribution is due at `step`.
pub open spec fn distribution_due(last_epoch_step: u64, step: u64) -> bool {
    step > 0 && step >= last_epoch_step + EPOCH_LENGTH
}

/// The count of an eligible node.
pub open spec fn count_of() -> spec_fn(u64) -> int {
    |c: u64| c as int
}

/// A node's share of `to_distribute` for `count` of `total` finalized proposals.
pub open spec fn share_of(to_distribute: u64, count: u64, total: int) -> int {
    (to_distribute * count) / total
}

/// The shares of the nodes in `e` (those that come to more than 0), in order.
pub open spec fn shares(to_distribute: u64, e: Seq<(Seq<char>, u64)>, total: int) -> Seq<(Seq<char>, u64)>
    decreases e.len(),
{
    if e.len() == 0 {
        Seq::empty()
    } else {
        let s = share_of(to_distribute, e.last().1, total);
        shares(to_distribute, e.drop_last(), total) + if s > 0 {
            seq![(e.last().0, s as u64)]
        } else {
            Seq::empty()
        }
    }
}

/// Sum of the amounts of a list of `(node, amount)`.
pub open spec fn amount_sum(e: Seq<(Seq<char>, u64)>) -> int {
    seq_sum(e, count_of())
}

/// The epoch rewards at `step` for an epoch last started at `last`: the amount
/// handed out and the shares of the nodes in `e` when a distribution is due, a
/// positive amount is to be shared and some node counts; else nothing.
pub open spec fn epoch_rewards(last: u64, step: u64, to_distribute: u64, e: Seq<(Seq<char>, u64)>) -> (int, Seq<(Seq<char>, u64)>) {
    if distribution_due(last, step) && to_distribute > 0 && amount_sum(e) > 0 {
        let sh = shares(to_distribute, e, amount_sum(e));
        (amount_sum(sh), sh)
    } else {
        (0, Seq::empty())
    }
}

impl FeePool {
    /// An empty pool.
    pub fn new() -> (p: Self)
        ensures
            p.total_collected == 0,
            p.current_pool == 0,
            p.last_epoch_step == 0,
            p.distributed_per_epoch@.len() == 0,
    {
        FeePool { total_collected: 0, current_pool: 0, last_epoch_step: 0, distributed_per_epoch: Vec::new() }
    }

    /// Adds finalized fees to the pool (both counters saturate).
    pub fn collect(&mut self, amount: u64)
        ensures
            final(self).total_collected == sat_add_u64(old(self).total_collected, amount),
            final(self).current_pool == sat_add_u64(old(self).current_pool, amount),
            final(self).last_epoch_step == old(self).last_epoch_step,
            final(self).distributed_per_epoch@ == old(self).distributed_per_epoch@,
    {
        self.total_collected = self.total_collected.saturating_add(amount);
        self.current_pool = self.current_pool.saturating_add(amount);
    }

    /// Whether an epoch distribution is due at `current_step`: a positive step
    /// at least `EPOCH_LENGTH` after the last distribution.
    pub fn should_distribute(&self, current_step: u64) -> (b: bool)
        ensures
            b == distribution_due(self.last_epoch_step, current_step),
    {
        current_step > 0 && current_step >= self.last_epoch_step && current_step - self.last_epoch_step >= EPOCH_LENGTH
    }

    /// The epoch rewards at `current_step`, without applying them. When a
    /// distribution is due, the epoch restarts at `current_step`; then, if
    /// `to_distribute` is positive and some node is eligible, each eligible node
    /// (`eligible` pairs a node with its count of finalized proposals) gets
    /// `to_distribute * count / total count`, and the nodes with a positive share
    /// are returned with the total handed out. Otherwise `(0, [])`.
    pub fn compute_epoch_rewards(&mut self, current_step: u64, to_distribute: u64, eligible: &Vec<(String, u64)>) -> (r: (u64, Vec<(String, u64)>))
        requires
            keys_unique(sentries(eligible@)),
            amount_sum(sentries(eligible@)) <= u64::MAX,
            forall|i: int| 0 <= i < eligible@.len() ==> to_distribute * (#[trigger] eligible@[i]).1 <= u64::MAX,
        ensures
            final(self).total_collected == old(self).total_collected,
            final(self).current_pool == old(self).current_pool,
            final(self).distributed_per_epoch@ == old(self).distributed_per_epoch@,
            final(self).last_epoch_step == if distribution_due(old(self).last_epoch_step, current_step) {
                current_step
            } else {
                old(self).last_epoch_step
            },
            ({
                let e = sentries(eligible@);
                if distribution_due(old(self).last_epoch_step, current_step) && to_distribute > 0 && amount_sum(e) > 0 {
                    &&& sentries(r.1@) == shares(to_distribute, e, amount_sum(e))
                    &&& r.0 == amount_sum(sentries(r.1@))
                    &&& r.0 <= to_distribute
                } else {
                    &&& r.0 == 0
                    &&& r.1@.len() == 0
                }
            }),
            (r.0 as int, sentries(r.1@)) == epoch_rewards(old(self).last_epoch_step, current_step, to_distribute, sentries(eligible@)),
    {
        if !self.should_distribute(current_step) {
            return (0, Vec::new());
        }
        self.last_epoch_step = current_step;
        if to_distribute == 0 || eligible.len() == 0 {
            proof {
                if eligible@.len() == 0 {
                    assert(sentries(eligible@).len() == 0);
                }
            }
            return (0, Vec::new());
        }
        let ghost e = sentries(eligible@);
        let mut total: u64 = 0;
        let mut k: usize = 0;
        while k < eligible.len()
            invariant
                e == sentries(eligible@),
                k <= eligible@.len(),
                total == amount_sum(e.take(k as int)),
                amount_sum(e) <= u64::MAX,
            decreases eligible@.len() - k,
        {
            proof {
                assert(e.take(k + 1).drop_last() =~= e.take(k as int));
                crate::maps::lemma_seq_sum_prefix(e, k + 1, count_of());
            }
            total = total + eligible[k].1;
            k = k + 1;
        }
        proof {
            assert(e.take(eligible@.len() as int) =~= e);
        }
        if total == 0 {
            return (0, Vec::new());
        }
        let mut distributed: Vec<(String, u64)> = Vec::new();
        let mut actually: u64 = 0;
        let mut j: usize = 0;
        while j < eligible.len()
            invariant
                e == sentries(eligible@),
                j <= eligible@.len(),
                total == amount_sum(e),
                total > 0,
                to_distribute > 0,
                forall|i: int| 0 <= i < eligible@.len() ==> to_distribute * (#[trigger] eligible@[i]).1 <= u64::MAX,
                sentries(distributed@) == shares(to_distribute, e.take(j as int), total as int),
                actually == amount_sum(sentries(distributed@)),
                actually <= (to_distribute * amount_sum(e.take(j as int))) / (total as int),
                amount_sum(e.take(j as int)) <= total,
            decreases eligible@.len() - j,
        {
            let c = eligible[j].1;
            let ghost d0 = sentries(distributed@);
            let ghost p0 = amount_sum(e.take(j as int));
            proof {
                assert(e.take(j + 1).drop_last() =~= e.take(j as int));
                assert(e.take(j + 1).last() == e[j as int]);
                crate::maps::lemma_seq_sum_prefix(e, j + 1, count_of());
                crate::maps::lemma_seq_sum_prefix(e.take(j as int), 0, count_of());
                assert(e.take(j as int).take(0) =~= Seq::<(Seq<char>, u64)>::empty());
                assert(amount_sum(e.take(j + 1)) == p0 + c);
                assert(to_distribute as int * p0 >= 0) by (nonlinear_arith)
                    requires
                        p0 >= 0,
                ;
                assert(to_distribute as int * c >= 0) by (nonlinear_arith);
                lemma_floor_add(to_distribute as int * p0, to_distribute as int * c, total as int);
                lemma_scaled_le(to_distribute as int, p0 + c, total as int);
                assert(to_distribute as int * p0 + to_distribute as int * c == to_distribute as int * (p0 + c)) by (nonlinear_arith);
            }
            let share = (to_distribute * c) / total;
            if share > 0 {
                distributed.push((eligible[j].0.clone(), share));
                actually = actually + share;
                proof {
                    assert(sentries(distributed@) =~= d0.push((e[j as int].0, share)));
                    assert(sentries(distributed@).drop_last() =~= d0);
                }
            }
            j = j + 1;
        }
        proof {
            assert(e.take(eligible@.len() as int) =~= e);
            lemma_scaled_le(to_distribute as int, amount_sum(e), total as int);
        }
        (actually, distributed)
    }

    /// Computes the epoch rewards (see `compute_epoch_rewards`) and, when some
    /// amount goes out, credits each node its share, takes the amount out of the
    /// pool (saturating) and records the distribution.
    pub fn distribute_epoch_rewards(
        &mut self,
        current_step: u64,
        to_distribute: u64,
        eligible: &Vec<(String, u64)>,
        state: &mut StateManager,
    ) -> (r: (u64, Vec<(String, u64)>))
        requires
            keys_unique(sentries(eligible@)),
            amount_sum(sentries(eligible@)) <= u64::MAX,
            forall|i: int| 0 <= i < eligible@.len() ==> to_distribute * (#[trigger] eligible@[i]).1 <= u64::MAX,
        ensures
            final(self).total_collected == old(self).total_collected,
            final(self).last_epoch_step == if distribution_due(old(self).last_epoch_step, current_step) {
                current_step
            } else {
                old(self).last_epoch_step
            },
            ({
                let e = sentries(eligible@);
                if distribution_due(old(self).last_epoch_step, current_step) && to_distribute > 0 && amount_sum(e) > 0 {
                    &&& sentries(r.1@) == shares(to_distribute, e, amount_sum(e))
                    &&& r.0 == amount_sum(sentries(r.1@))
                    &&& r.0 <= to_distribute
                } else {
                    &&& r.0 == 0
                    &&& r.1@.len() == 0
                }
            }),
            (r.0 as int, sentries(r.1@)) == epoch_rewards(old(self).last_epoch_step, current_step, to_distribute, sentries(eligible@)),
            r.0 > 0 && r.1@.len() > 0 ==> {
                &&& final(state)@ == credit_shares(old(state)@, sentries(r.1@))
                &&& final(self).current_pool == if old(self).current_pool >= r.0 { (old(self).current_pool - r.0) as u64 } else { 0 }
                &&& final(self).distributed_per_epoch@ == old(self).distributed_per_epoch@.push((current_step, r.0))
            },
            !(r.0 > 0 && r.1@.len() > 0) ==> {
                &&& *final(state) == *old(state)
                &&& final(self).current_pool == old(self).current_pool
                &&& final(self).distributed_per_epoch@ == old(self).distributed_per_epoch@
            },
    {
        let (amount, map) = self.compute_epoch_rewards(current_step, to_distribute, eligible);
        if amount > 0 && map.len() > 0 {
            let ghost s0 = state@;
            let ghost mv = sentries(map@);
            let mut k: usize = 0;
            while k < map.len()
                invariant
                    k <= map@.len(),
                    mv == sentries(map@),
                    state@ == credit_shares(s0, mv.take(k as int)),
                decreases map@.len() - k,
            {
                state.apply_reward(map[k].0.as_str(), map[k].1);
                proof {
                    assert(mv.take(k + 1).drop_last() =~= mv.take(k as int));
                }
                k = k + 1;
            }
            proof {
                assert(mv.take(map@.len() as int) =~= mv);
            }
            self.current_pool = self.current_pool.saturating_sub(amount);
            self.distributed_per_epoch.push((current_step, amount));
        }
        (amount, map)
    }

    /// The undistributed fees.
    pub fn pool_balance(&self) -> (b: u64)
        ensures
            b == self.current_pool,
    {
        self.current_pool
    }
}

impl Default for FeePool {
    fn default() -> (p: Self)
        ensures
            p.total_collected == 0,
            p.current_pool == 0,
            p.last_epoch_step == 0,
            p.distributed_per_epoch@.len() == 0,
    {
        Self::new()
    }
}

/// Balances after crediting each `(node, amount)` in order.
pub open spec fn credit_shares(m: Map<Seq<char>, u64>, s: Seq<(Seq<char>, u64)>) -> Map<Seq<char>, u64>
    decreases s.len(),
{
    if s.len() == 0 {
        m
    } else {
        credit(credit_shares(m, s.drop_last()), s.last().0, s.last().1)
    }
}

/// Flooring division is superadditive on non-negative numerators.
proof fn lemma_floor_add(a: int, b: int, d: int)
    requires
        a >= 0,
        b >= 0,
        d > 0,
    ensures
        a / d + b / d <= (a + b) / d,
{
    assert(a / d + b / d <= (a + b) / d) by (nonlinear_arith)
        requires
            a >= 0,
            b >= 0,
            d > 0,
    {
        assert(a == d * (a / d) + a % d);
        assert(b == d * (b / d) + b % d);
        assert(a + b == d * (a / d + b / d) + (a % d + b % d));
        assert(a % d >= 0 && b % d >= 0);
        assert(d * (a / d + b / d) <= a + b);
    }
}

/// `t * p / d <= t` when `p <= d`, and the quotient is non-negative.
proof fn lemma_scaled_le(t: int, p: int, d: int)
    requires
        t >= 0,
        0 <= p <= d,
        d > 0,
    ensures
        0 <= (t * p) / d <= t,
{
    assert(0 <= (t * p) / d <= t) by (nonlinear_arith)
        requires
            t >= 0,
            0 <= p <= d,
            d > 0,
    {
        assert(t * p <= t * d);
        assert(t * p >= 0);
    }
}

/// Crediting `shares` in order, none saturating, to balances listed by `s`
/// gives balances listed by some `t` whose sum is larger by the shares' total.
proof fn lemma_credit_shares_sum(m: Map<Seq<char>, u64>, s: Seq<(Seq<char>, u64)>, shares: Seq<(Seq<char>, u64)>) -> (t: Seq<(Seq<char>, u64)>)
    requires
        keys_unique(s),
        to_map(s) == m,
        forall|i: int| 0 <= i < shares.len()
            ==> balance_of(credit_shares(m, #[trigger] shares.take(i)), shares[i].0) + shares[i].1 <= u64::MAX,
    ensures
        keys_unique(t),
        to_map(t) == credit_shares(m, shares),
        seq_sum(t, balance_value()) == seq_sum(s, balance_value()) + amount_sum(shares),
    decreases shares.len(),
{
    if shares.len() == 0 {
        s
    } else {
        let d = shares.drop_last();
        assert forall|i: int| 0 <= i < d.len()
            implies balance_of(credit_shares(m, #[trigger] d.take(i)), d[i].0) + d[i].1 <= u64::MAX by {
            assert(d.take(i) =~= shares.take(i));
        }
        let t0 = lemma_credit_shares_sum(m, s, d);
        let k = shares.last().0;
        let a = shares.last().1;
        let m0 = credit_shares(m, d);
        assert(shares.take(shares.len() - 1) =~= d);
        assert(balance_of(credit_shares(m, shares.take(shares.len() - 1)), shares[shares.len() - 1].0) + shares[shares.len() - 1].1 <= u64::MAX);
        let t = lemma_seq_sum_insert(t0, k, sat_add(balance_of(m0, k), a), balance_value());
        t
    }
}

/// An epoch distribution moves exactly the amount it reports: crediting the
/// shares (none saturating) to balances listed by `s` raises the sum of all
/// balances by their total, the amount `distribute_epoch_rewards` returns and
/// takes out of the pool.
pub proof fn law_distribution_credits_its_total(m: Map<Seq<char>, u64>, s: Seq<(Seq<char>, u64)>, shares: Seq<(Seq<char>, u64)>)
    requires
        keys_unique(s),
        to_map(s) == m,
        forall|i: int| 0 <= i < shares.len()
            ==> balance_of(credit_shares(m, #[trigger] shares.take(i)), shares[i].0) + shares[i].1 <= u64::MAX,
    ensures
        total_balance(credit_shares(m, shares)) == total_balance(m) + amount_sum(shares),
{
    let t = lemma_credit_shares_sum(m, s, shares);
    lemma_map_sum(s, balance_value());
    lemma_map_sum(t, balance_value());
}

/// What an epoch distribution credits is what the computation gives:
/// `compute_epoch_rewards` and `distribute_epoch_rewards` both return
/// `epoch_rewards` of the pool's last epoch step and their arguments, and when
/// those shares are credited (none saturating) the sum of all balances rises by
/// exactly the amount returned, the amount taken out of the pool.
pub proof fn law_distribution_matches_computation(
    last: u64,
    step: u64,
    to_distribute: u64,
    e: Seq<(Seq<char>, u64)>,
    m: Map<Seq<char>, u64>,
    s: Seq<(Seq<char>, u64)>,
)
    requires
        keys_unique(s),
        to_map(s) == m,
        forall|i: int| 0 <= i < epoch_rewards(last, step, to_distribute, e).1.len()
            ==> balance_of(credit_shares(m, #[trigger] epoch_rewards(last, step, to_distribute, e).1.take(i)),
                epoch_rewards(last, step, to_distribute, e).1[i].0) + epoch_rewards(last, step, to_distribute, e).1[i].1 <= u64::MAX,
    ensures
        epoch_rewards(last, step, to_distribute, e).0 == amount_sum(epoch_rewards(last, step, to_distribute, e).1),
        total_balance(credit_shares(m, epoch_rewards(last, step, to_distribute, e).1))
            == total_balance(m) + epoch_rewards(last, step, to_distribute, e).0,
{
    let sh = epoch_rewards(last, step, to_distribute, e).1;
    law_distribution_credits_its_total(m, s, sh);
    if !(distribution_due(last, step) && to_distribute > 0 && amount_sum(e) > 0) {
        assert(amount_sum(sh) == 0) by {
            reveal_with_fuel(seq_sum, 1);
        }
    }
}

/// The shares of a list of distinct nodes name distinct nodes, each one of the list.
proof fn lemma_shares_unique(to_distribute: u64, e: Seq<(Seq<char>, u64)>, total: int)
    requires
        keys_unique(e),
    ensures
        keys_unique(shares(to_distribute, e, total)),
        forall|i: int| 0 <= i < shares(to_distribute, e, total).len()
            ==> exists|j: int| 0 <= j < e.len() && e[j].0 == (#[trigger] shares(to_distribute, e, total)[i]).0,
    decreases e.len(),
{
    if e.len() > 0 {
        let d = e.drop_last();
        assert(keys_unique(d)) by {
            assert forall|a: int, b: int| 0 <= a < b < d.len() implies (#[trigger] d[a]).0 != (#[trigger] d[b]).0 by {
                assert(d[a] == e[a] && d[b] == e[b]);
            }
        }
        lemma_shares_unique(to_distribute, d, total);
        let s0 = shares(to_distribute, d, total);
        let sh = shares(to_distribute, e, total);
        assert forall|i: int| 0 <= i < s0.len() implies (#[trigger] s0[i]).0 != e.last().0 by {
            let j = choose|j: int| 0 <= j < d.len() && d[j].0 == s0[i].0;
            assert(d[j] == e[j]);
        }
        assert forall|i: int| 0 <= i < sh.len() implies exists|j: int| 0 <= j < e.len() && e[j].0 == (#[trigger] sh[i]).0 by {
            if i < s0.len() {
                assert(sh[i] == s0[i]);
                let j = choose|j: int| 0 <= j < d.len() && d[j].0 == s0[i].0;
                assert(e[j] == d[j]);
            } else {
                assert(sh[i].0 == e[e.len() - 1].0);
            }
        }
        assert forall|a: int, b: int| 0 <= a < b < sh.len() implies (#[trigger] sh[a]).0 != (#[trigger] sh[b]).0 by {
            assert(sh[a] == s0[a]);
            if b < s0.len() {
                assert(sh[b] == s0[b]);
            }
        }
    }
}

/// Crediting distinct nodes (none saturating) adds each one's amount to its
/// balance and leaves every other balance as it was.
proof fn lemma_credit_shares_each(m: Map<Seq<char>, u64>, sh: Seq<(Seq<char>, u64)>)
    requires
        keys_unique(sh),
        forall|i: int| 0 <= i < sh.len() ==> balance_of(m, (#[trigger] sh[i]).0) + sh[i].1 <= u64::MAX,
    ensures
        forall|i: int| 0 <= i < sh.len()
            ==> balance_of(credit_shares(m, sh), (#[trigger] sh[i]).0) == balance_of(m, sh[i].0) + sh[i].1,
        forall|k: Seq<char>| (forall|i: int| 0 <= i < sh.len() ==> (#[trigger] sh[i]).0 != k)
            ==> #[trigger] balance_of(credit_shares(m, sh), k) == balance_of(m, k),
    decreases sh.len(),
{
    if sh.len() > 0 {
        let d = sh.drop_last();
        assert forall|i: int| 0 <= i < d.len() implies balance_of(m, (#[trigger] d[i]).0) + d[i].1 <= u64::MAX by {
            assert(d[i] == sh[i]);
        }
        assert(keys_unique(d)) by {
            assert forall|a: int, b: int| 0 <= a < b < d.len() implies (#[trigger] d[a]).0 != (#[trigger] d[b]).0 by {
                assert(d[a] == sh[a] && d[b] == sh[b]);
            }
        }
        lemma_credit_shares_each(m, d);
        let last = sh.last();
        assert forall|i: int| 0 <= i < d.len() implies (#[trigger] d[i]).0 != last.0 by {
            assert(d[i] == sh[i]);
        }
        assert(balance_of(credit_shares(m, d), last.0) == balance_of(m, last.0));
        assert(balance_of(m, sh[sh.len() - 1].0) + sh[sh.len() - 1].1 <= u64::MAX);
        assert forall|i: int| 0 <= i < sh.len()
            implies balance_of(credit_shares(m, sh), (#[trigger] sh[i]).0) == balance_of(m, sh[i].0) + sh[i].1 by {
            if i < d.len() {
                assert(d[i] == sh[i]);
            }
        }
        assert forall|k: Seq<char>| (forall|i: int| 0 <= i < sh.len() ==> (#[trigger] sh[i]).0 != k)
            implies #[trigger] balance_of(credit_shares(m, sh), k) == balance_of(m, k) by {
            assert forall|i: int| 0 <= i < d.len() implies (#[trigger] d[i]).0 != k by {
                assert(d[i] == sh[i]);
            }
            assert(sh[sh.len() - 1].0 != k);
            assert(balance_of(credit_shares(m, d), k) == balance_of(m, k));
            assert(credit_shares(m, sh) == credit(credit_shares(m, d), last.0, last.1));
        }
    }
}

/// An epoch distribution over distinct eligible nodes credits each node that
/// gets a share exactly its share and leaves every other balance unchanged,
/// when no credit saturates.
pub proof fn law_distribution_credits_each_node(
    last: u64,
    step: u64,
    to_distribute: u64,
    e: Seq<(Seq<char>, u64)>,
    m: Map<Seq<char>, u64>,
)
    requires
        keys_unique(e),
        forall|i: int| 0 <= i < epoch_rewards(last, step, to_distribute, e).1.len()
            ==> balance_of(m, (#[trigger] epoch_rewards(last, step, to_distribute, e).1[i]).0)
                + epoch_rewards(last, step, to_distribute, e).1[i].1 <= u64::MAX,
    ensures
        keys_unique(epoch_rewards(last, step, to_distribute, e).1),
        forall|i: int| 0 <= i < epoch_rewards(last, step, to_distribute, e).1.len()
            ==> balance_of(credit_shares(m, epoch_rewards(last, step, to_distribute, e).1),
                (#[trigger] epoch_rewards(last, step, to_distribute, e).1[i]).0)
                == balance_of(m, epoch_rewards(last, step, to_distribute, e).1[i].0) + epoch_rewards(last, step, to_distribute, e).1[i].1,
        forall|k: Seq<char>| (forall|i: int| 0 <= i < epoch_rewards(last, step, to_distribute, e).1.len()
            ==> (#[trigger] epoch_rewards(last, step, to_distribute, e).1[i]).0 != k)
            ==> #[trigger] balance_of(credit_shares(m, epoch_rewards(last, step, to_distribute, e).1), k) == balance_of(m, k),
{
    let sh = epoch_rewards(last, step, to_distribute, e).1;
    if distribution_due(last, step) && to_distribute > 0 && amount_sum(e) > 0 {
        lemma_shares_unique(to_distribute, e, amount_sum(e));
    }
    lemma_credit_shares_each(m, sh);
}

} // verus!
