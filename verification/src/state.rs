//! Account balances (in milliANGP) and the state root that commits to them.
use vstd::prelude::*;
use crate::config::GENESIS_BALANCE_MILLI;
use crate::crypto::{sha512_256, sha512_256_digest};
use crate::encoding::{push_bytes, push_str_bytes};
use crate::maps::{has_key, keys_unique, lemma_entries_len, lemma_seq_sum_insert, lemma_map_sum, map_sum, seq_sum, lemma_to_map_index, lemma_to_map_push, lemma_to_map_remove, lemma_to_map_update, last_wins, to_map};
use crate::strings::{chars_lt, lemma_chars_lt_total, lemma_chars_lt_trans, str_eq, str_lt};
use crate::transaction::{Transaction, TxView, encode_utf8_chars, total_cost_spec};

verus! {

/// The balances as plain data, for snapshots and persistence.
#[derive(Debug)]
pub struct StateData {
    pub balances: Vec<(String, u64)>,
}

/// The abstract content of a list of `(address, balance)` pairs.
pub open spec fn balance_entries(v: Seq<(String, u64)>) -> Seq<(Seq<char>, u64)> {
    v.map_values(|e: (String, u64)| (e.0@, e.1))
}

/// The balance of `a` in `m`; absent accounts hold 0.
pub open spec fn balance_of(m: Map<Seq<char>, u64>, a: Seq<char>) -> u64 {
    if m.contains_key(a) {
        m[a]
    } else {
        0
    }
}

/// `a + b`, saturating at `u64::MAX`.
pub open spec fn sat_add(a: u64, b: u64) -> u64 {
    if a + b > u64::MAX {
        u64::MAX
    } else {
        (a + b) as u64
    }
}

/// Adds `amount` (saturating) to the balance of `a`, creating the account if absent.
pub open spec fn credit(m: Map<Seq<char>, u64>, a: Seq<char>, amount: u64) -> Map<Seq<char>, u64> {
    m.insert(a, sat_add(balance_of(m, a), amount))
}

/// The balances after applying `t`, or `None` when the sender cannot pay
/// `amount + fee`: the sender is debited the total cost, then the receiver is
/// credited the amount (saturating).
pub open spec fn apply_tx_spec(m: Map<Seq<char>, u64>, t: TxView) -> Option<Map<Seq<char>, u64>> {
    let cost = total_cost_spec(t);
    let sb = balance_of(m, t.sender);
    if sb < cost {
        None
    } else {
        let m1 = m.insert(t.sender, (sb - cost) as u64);
        Some(credit(m1, t.receiver, t.amount))
    }
}

/// Entries sorted strictly by address.
pub open spec fn sorted_by_address(s: Seq<(Seq<char>, u64)>) -> bool {
    forall|i: int, j: int| 0 <= i < j < s.len() ==> chars_lt((#[trigger] s[i]).0, (#[trigger] s[j]).0)
}

/// The entries of `m` in increasing address order.
pub open spec fn canonical_entries(m: Map<Seq<char>, u64>) -> Seq<(Seq<char>, u64)> {
    choose|s: Seq<(Seq<char>, u64)>| sorted_by_address(s) && to_map(s) == m
}

/// Little-endian bytes of `v`, `n` bytes long.
pub open spec fn le_bytes(v: nat, n: nat) -> Seq<u8>
    decreases n,
{
    if n == 0 {
        Seq::empty()
    } else {
        seq![(v % 256) as u8] + le_bytes(v / 256, (n - 1) as nat)
    }
}

/// The bytes hashed into the state root: each address (UTF-8) followed by its
/// balance as 8 little-endian bytes, in the given order.
pub open spec fn root_preimage(s: Seq<(Seq<char>, u64)>) -> Seq<u8>
    decreases s.len(),
{
    if s.len() == 0 {
        Seq::empty()
    } else {
        root_preimage(s.drop_last()) + encode_utf8_chars(s.last().0) + le_bytes(s.last().1 as nat, 8)
    }
}

/// The state root of a balance map: SHA-512/256 of its entries in address order.
pub open spec fn state_root_of(m: Map<Seq<char>, u64>) -> Seq<u8> {
    sha512_256_digest(root_preimage(canonical_entries(m)))
}

/// Strictly sorted entries have distinct addresses.
proof fn lemma_sorted_unique(s: Seq<(Seq<char>, u64)>)
    requires
        sorted_by_address(s),
    ensures
        keys_unique(s),
{
    assert forall|i: int, j: int| 0 <= i < j < s.len() implies (#[trigger] s[i]).0 != (#[trigger] s[j]).0 by {
        lemma_chars_lt_total(s[i].0, s[i].0);
        assert(chars_lt(s[i].0, s[j].0));
    }
}

/// A map has at most one strictly sorted association list.
proof fn lemma_sorted_representation_unique(s1: Seq<(Seq<char>, u64)>, s2: Seq<(Seq<char>, u64)>)
    requires
        sorted_by_address(s1),
        sorted_by_address(s2),
        to_map(s1) == to_map(s2),
    ensures
        s1 == s2,
    decreases s1.len(),
{
    lemma_sorted_unique(s1);
    lemma_sorted_unique(s2);
    if s1.len() == 0 {
        if s2.len() > 0 {
            lemma_to_map_index(s2, 0);
        }
        assert(s1 =~= s2);
    } else {
        lemma_to_map_index(s1, 0);
        if s2.len() == 0 {
            assert(!has_key(s2, s1[0].0));
        }
        lemma_to_map_index(s2, 0);
        let k1 = s1[0].0;
        let k2 = s2[0].0;
        assert(has_key(s2, k1));
        assert(has_key(s1, k2));
        let j = choose|j: int| 0 <= j < s2.len() && (#[trigger] s2[j]).0 == k1;
        let i = choose|i: int| 0 <= i < s1.len() && (#[trigger] s1[i]).0 == k2;
        if k1 != k2 {
            assert(j > 0);
            assert(i > 0);
            assert(chars_lt(s2[0].0, s2[j].0));
            assert(chars_lt(s1[0].0, s1[i].0));
            lemma_chars_lt_total(k1, k2);
        }
        assert(s1[0] == s2[0]);
        lemma_to_map_remove(s1, 0);
        lemma_to_map_remove(s2, 0);
        let t1 = s1.remove(0);
        let t2 = s2.remove(0);
        assert(sorted_by_address(t1)) by {
            assert forall|a: int, b: int| 0 <= a < b < t1.len() implies chars_lt((#[trigger] t1[a]).0, (#[trigger] t1[b]).0) by {
                assert(t1[a] == s1[a + 1] && t1[b] == s1[b + 1]);
            }
        }
        assert(sorted_by_address(t2)) by {
            assert forall|a: int, b: int| 0 <= a < b < t2.len() implies chars_lt((#[trigger] t2[a]).0, (#[trigger] t2[b]).0) by {
                assert(t2[a] == s2[a + 1] && t2[b] == s2[b + 1]);
            }
        }
        lemma_sorted_representation_unique(t1, t2);
        assert(s1 =~= s2) by {
            assert forall|k: int| 0 <= k < s1.len() implies s1[k] == s2[k] by {
                if k > 0 {
                    assert(s1[k] == t1[k - 1]);
                    assert(s2[k] == t2[k - 1]);
                }
            }
        }
    }
}

/// Looks up the position of `addr`.
fn find_account(v: &Vec<(String, u64)>, addr: &str) -> (r: Option<usize>)
    ensures
        match r {
            Some(i) => i < v@.len() && v@[i as int].0@ == addr@,
            None => !has_key(balance_entries(v@), addr@),
        },
{
    let mut i: usize = 0;
    while i < v.len()
        invariant
            i <= v@.len(),
            forall|k: int| 0 <= k < i ==> (#[trigger] v@[k]).0@ != addr@,
        decreases v@.len() - i,
    {
        if str_eq(v[i].0.as_str(), addr) {
            return Some(i);
        }
        i = i + 1;
    }
    proof {
        let e = balance_entries(v@);
        if has_key(e, addr@) {
            let k = choose|k: int| 0 <= k < e.len() && (#[trigger] e[k]).0 == addr@;
            assert(e[k].0 == v@[k].0@);
        }
    }
    None
}

/// Sets the balance of `addr` to `val`, adding the account if absent.
fn set_account(v: &mut Vec<(String, u64)>, addr: &str, val: u64)
    requires
        keys_unique(balance_entries(old(v)@)),
    ensures
        keys_unique(balance_entries(final(v)@)),
        to_map(balance_entries(final(v)@)) == to_map(balance_entries(old(v)@)).insert(addr@, val),
{
    match find_account(v, addr) {
        Some(i) => {
            let name = v[i].0.clone();
            let ghost e = balance_entries(v@);
            v.set(i, (name, val));
            proof {
                assert(balance_entries(v@) =~= e.update(i as int, (e[i as int].0, val)));
                lemma_to_map_update(e, i as int, val);
            }
        },
        None => {
            let ghost e = balance_entries(v@);
            v.push((addr.to_owned(), val));
            proof {
                assert(balance_entries(v@) =~= e.push((addr@, val)));
                lemma_to_map_push(e, addr@, val);
            }
        },
    }
}

/// Reads the balance of `addr` (0 if absent).
fn read_account(v: &Vec<(String, u64)>, addr: &str) -> (b: u64)
    requires
        keys_unique(balance_entries(v@)),
    ensures
        b == balance_of(to_map(balance_entries(v@)), addr@),
{
    match find_account(v, addr) {
        Some(i) => {
            proof {
                lemma_to_map_index(balance_entries(v@), i as int);
            }
            v[i].1
        },
        None => 0,
    }
}

/// Account balances kept in memory; persistence is done by the caller, guided by
/// the dirty flag.
pub struct StateManager {
    balances: Vec<(String, u64)>,
    file_path: String,
    dirty: bool,
}

impl View for StateManager {
    type V = Map<Seq<char>, u64>;

    closed spec fn view(&self) -> Map<Seq<char>, u64> {
        to_map(balance_entries(self.balances@))
    }
}

impl StateManager {
    #[verifier::type_invariant]
    spec fn inv(&self) -> bool {
        keys_unique(balance_entries(self.balances@))
    }

    /// Whether there are changes not yet written out.
    pub closed spec fn is_dirty_spec(&self) -> bool {
        self.dirty
    }

    /// The file the balances are persisted to.
    pub closed spec fn path(&self) -> Seq<char> {
        self.file_path@
    }

    /// An empty state persisted at `file_path` (the caller loads any saved data).
    pub fn new(file_path: String) -> (s: Self)
        ensures
            s@ == Map::<Seq<char>, u64>::empty(),
            !s.is_dirty_spec(),
            s.path() == file_path@,
    {
        let s = StateManager { balances: Vec::new(), file_path, dirty: false };
        proof {
            assert(s@ =~= Map::<Seq<char>, u64>::empty());
        }
        s
    }

    /// The file path given at construction.
    pub fn file_path(&self) -> (p: &String)
        ensures
            p@ == self.path(),
    {
        &self.file_path
    }

    /// Balance of `addr`, 0 for unknown accounts.
    pub fn get_balance(&self, addr: &str) -> (b: u64)
        ensures
            b == balance_of(self@, addr@),
    {
        proof {
            use_type_invariant(self);
        }
        read_account(&self.balances, addr)
    }

    /// Whether `addr` has an account.
    pub fn contains_account(&self, addr: &str) -> (b: bool)
        ensures
            b == self@.contains_key(addr@),
    {
        proof {
            use_type_invariant(self);
        }
        match find_account(&self.balances, addr) {
            Some(i) => {
                proof {
                    lemma_to_map_index(balance_entries(self.balances@), i as int);
                }
                true
            },
            None => false,
        }
    }

    fn set_balance(&mut self, addr: &str, val: u64)
        ensures
            final(self)@ == old(self)@.insert(addr@, val),
            final(self).is_dirty_spec(),
            final(self).path() == old(self).path(),
    {
        proof {
            use_type_invariant(&*self);
        }
        let mut b: Vec<(String, u64)> = Vec::new();
        std::mem::swap(&mut b, &mut self.balances);
        set_account(&mut b, addr, val);
        self.balances = b;
        self.dirty = true;
    }

    /// Creates `amount` new milliANGP on `addr` (saturating).
    pub fn mint(&mut self, addr: &str, amount: u64)
        ensures
            final(self)@ == credit(old(self)@, addr@, amount),
            final(self).is_dirty_spec(),
            final(self).path() == old(self).path(),
    {
        let b = self.get_balance(addr);
        self.set_balance(addr, b.saturating_add(amount));
    }

    /// Sets `addr` to the genesis balance.
    pub fn genesis_allocate(&mut self, addr: &str)
        ensures
            final(self)@ == old(self)@.insert(addr@, GENESIS_BALANCE_MILLI),
            final(self).is_dirty_spec(),
            final(self).path() == old(self).path(),
    {
        self.set_balance(addr, GENESIS_BALANCE_MILLI);
    }

    /// Whether `addr` can pay `total_cost`.
    pub fn has_balance(&self, addr: &str, total_cost: u64) -> (b: bool)
        ensures
            b == (balance_of(self@, addr@) >= total_cost),
    {
        self.get_balance(addr) >= total_cost
    }

    /// Applies a transfer: fails (changing nothing) when the sender cannot pay
    /// `amount + fee`; otherwise debits the sender and credits the receiver.
    pub fn apply_tx(&mut self, tx: &Transaction) -> (ok: bool)
        ensures
            ok == apply_tx_spec(old(self)@, tx@) is Some,
            ok ==> final(self)@ == apply_tx_spec(old(self)@, tx@)->0 && final(self).is_dirty_spec(),
            !ok ==> final(self)@ == old(self)@ && final(self).is_dirty_spec() == old(self).is_dirty_spec(),
            final(self).path() == old(self).path(),
    {
        let cost = tx.total_cost();
        let sender_bal = self.get_balance(tx.sender.as_str());
        if sender_bal < cost {
            return false;
        }
        self.set_balance(tx.sender.as_str(), sender_bal - cost);
        let r = self.get_balance(tx.receiver.as_str());
        self.set_balance(tx.receiver.as_str(), r.saturating_add(tx.amount));
        true
    }

    /// Credits a reward to `node` (saturating).
    pub fn apply_reward(&mut self, node: &str, amount: u64)
        ensures
            final(self)@ == credit(old(self)@, node@, amount),
            final(self).is_dirty_spec(),
            final(self).path() == old(self).path(),
    {
        self.mint(node, amount);
    }

    /// Overwrites the balance of an existing account (used by slashing, whose
    /// factor is computed by the caller); unknown accounts are left alone.
    pub fn replace_existing_balance(&mut self, node: &str, new_balance: u64) -> (found: bool)
        ensures
            found == old(self)@.contains_key(node@),
            found ==> final(self)@ == old(self)@.insert(node@, new_balance) && final(self).is_dirty_spec(),
            !found ==> final(self)@ == old(self)@ && final(self).is_dirty_spec() == old(self).is_dirty_spec(),
            final(self).path() == old(self).path(),
    {
        if self.contains_account(node) {
            self.set_balance(node, new_balance);
            true
        } else {
            false
        }
    }

    /// Number of accounts.
    pub fn len(&self) -> (n: usize)
        ensures
            n == self@.len(),
    {
        proof {
            use_type_invariant(self);
            lemma_entries_len(balance_entries(self.balances@));
        }
        self.balances.len()
    }

    /// Whether there are unsaved changes.
    pub fn is_dirty(&self) -> (b: bool)
        ensures
            b == self.is_dirty_spec(),
    {
        self.dirty
    }

    /// Records that the balances changed and must be written out.
    pub fn mark_dirty(&mut self)
        ensures
            final(self)@ == old(self)@,
            final(self).is_dirty_spec(),
            final(self).path() == old(self).path(),
    {
        proof {
            use_type_invariant(&*self);
        }
        self.dirty = true;
    }

    /// Records that the balances were written out.
    pub fn mark_clean(&mut self)
        ensures
            final(self)@ == old(self)@,
            !final(self).is_dirty_spec(),
            final(self).path() == old(self).path(),
    {
        proof {
            use_type_invariant(&*self);
        }
        self.dirty = false;
    }

    /// The balances as plain data, one entry per account.
    pub fn to_data(&self) -> (d: StateData)
        ensures
            keys_unique(balance_entries(d.balances@)),
            to_map(balance_entries(d.balances@)) == self@,
    {
        proof {
            use_type_invariant(self);
        }
        StateData { balances: copy_accounts(&self.balances) }
    }

    /// Replaces all balances by the listed ones (a later entry for the same
    /// address overrides an earlier one).
    pub fn load_balances(&mut self, balances: &Vec<(String, u64)>)
        ensures
            final(self)@ == last_wins(balance_entries(balances@)),
            final(self).is_dirty_spec() == old(self).is_dirty_spec(),
            final(self).path() == old(self).path(),
    {
        let mut fresh: Vec<(String, u64)> = Vec::new();
        let mut i: usize = 0;
        proof {
            assert(to_map(balance_entries(fresh@)) =~= last_wins(balance_entries(balances@).take(0)));
        }
        while i < balances.len()
            invariant
                i <= balances@.len(),
                keys_unique(balance_entries(fresh@)),
                to_map(balance_entries(fresh@)) == last_wins(balance_entries(balances@).take(i as int)),
            decreases balances@.len() - i,
        {
            set_account(&mut fresh, balances[i].0.as_str(), balances[i].1);
            proof {
                let e = balance_entries(balances@);
                assert(e.take(i + 1).drop_last() =~= e.take(i as int));
            }
            i = i + 1;
        }
        proof {
            assert(balance_entries(balances@).take(balances@.len() as int) =~= balance_entries(balances@));
        }
        self.balances = fresh;
    }

    /// SHA-512/256 commitment to the balances: the accounts in address order,
    /// each as its UTF-8 address followed by its balance in 8 little-endian bytes.
    pub fn state_root(&self) -> (h: crate::transaction::Hash)
        ensures
            h@ == state_root_of(self@),
    {
        proof {
            use_type_invariant(self);
        }
        let sorted = sort_accounts(&self.balances);
        let mut bytes: Vec<u8> = Vec::new();
        let mut i: usize = 0;
        while i < sorted.len()
            invariant
                i <= sorted@.len(),
                bytes@ == root_preimage(balance_entries(sorted@).take(i as int)),
            decreases sorted@.len() - i,
        {
            push_str_bytes(&mut bytes, sorted[i].0.as_str());
            push_le_u64(&mut bytes, sorted[i].1);
            proof {
                let e = balance_entries(sorted@);
                assert(e.take(i + 1).drop_last() =~= e.take(i as int));
            }
            i = i + 1;
        }
        proof {
            let e = balance_entries(sorted@);
            assert(e.take(sorted@.len() as int) =~= e);
            let c = canonical_entries(self@);
            assert(sorted_by_address(c) && to_map(c) == self@);
            lemma_sorted_representation_unique(c, e);
        }
        sha512_256(bytes.as_slice())
    }

    /// The `n` largest balances, largest first (ties in unspecified order).
    pub fn top_balances(&self, n: usize) -> (r: Vec<(String, u64)>)
        ensures
            r@.len() == if n < self@.len() { n as int } else { self@.len() as int },
            keys_unique(balance_entries(r@)),
            forall|i: int| 0 <= i < r@.len() ==> self@.contains_key((#[trigger] r@[i]).0@) && self@[r@[i].0@] == r@[i].1,
            forall|i: int, j: int| 0 <= i < j < r@.len() ==> (#[trigger] r@[i]).1 >= (#[trigger] r@[j]).1,
            forall|a: Seq<char>| #[trigger] self@.contains_key(a) && !has_key(balance_entries(r@), a) ==>
                r@.len() == n && (n > 0 ==> self@[a] <= r@[r@.len() - 1].1),
    {
        proof {
            use_type_invariant(self);
        }
        let mut rest = copy_accounts(&self.balances);
        let mut out: Vec<(String, u64)> = Vec::new();
        let ghost m = self@;
        proof {
            lemma_entries_len(balance_entries(self.balances@));
            assert forall|i: int| 0 <= i < rest@.len() implies m.contains_key((#[trigger] rest@[i]).0@) && m[rest@[i].0@] == rest@[i].1 by {
                lemma_to_map_index(balance_entries(self.balances@), i);
            }
            assert forall|a: Seq<char>| #[trigger] m.contains_key(a) implies has_key(balance_entries(rest@), a) || has_key(balance_entries(out@), a) by {
            }
        }
        while out.len() < n && rest.len() > 0
            invariant
                keys_unique(balance_entries(rest@)),
                keys_unique(balance_entries(out@)),
                out@.len() + rest@.len() == m.len(),
                forall|i: int| 0 <= i < rest@.len() ==> m.contains_key((#[trigger] rest@[i]).0@) && m[rest@[i].0@] == rest@[i].1,
                forall|i: int| 0 <= i < out@.len() ==> m.contains_key((#[trigger] out@[i]).0@) && m[out@[i].0@] == out@[i].1,
                forall|i: int, j: int| 0 <= i < out@.len() && 0 <= j < rest@.len() ==> (#[trigger] out@[i]).0@ != (#[trigger] rest@[j]).0@,
                forall|a: Seq<char>| #[trigger] m.contains_key(a) ==> has_key(balance_entries(rest@), a) || has_key(balance_entries(out@), a),
                forall|i: int, j: int| 0 <= i < j < out@.len() ==> (#[trigger] out@[i]).1 >= (#[trigger] out@[j]).1,
                forall|j: int| 0 <= j < rest@.len() ==> out@.len() > 0 ==> (#[trigger] rest@[j]).1 <= out@[out@.len() - 1].1,
                out@.len() <= n,
            decreases rest@.len(),
        {
            let mut best: usize = 0;
            let mut k: usize = 1;
            while k < rest.len()
                invariant
                    best < rest@.len(),
                    1 <= k <= rest@.len(),
                    forall|j: int| 0 <= j < k ==> (#[trigger] rest@[j]).1 <= rest@[best as int].1,
                decreases rest@.len() - k,
            {
                if rest[k].1 > rest[best].1 {
                    best = k;
                }
                k = k + 1;
            }
            let ghost old_rest = rest@;
            let ghost old_out = out@;
            let picked = rest.remove(best);
            proof {
                let er = balance_entries(old_rest);
                assert(balance_entries(rest@) =~= er.remove(best as int));
                lemma_to_map_remove(er, best as int);
                let eo = balance_entries(old_out);
                assert(!has_key(eo, picked.0@)) by {
                    if has_key(eo, picked.0@) {
                        let q = choose|q: int| 0 <= q < eo.len() && (#[trigger] eo[q]).0 == picked.0@;
                        assert(old_out[q].0@ == old_rest[best as int].0@);
                    }
                }
                lemma_to_map_push(eo, picked.0@, picked.1);
            }
            out.push(picked);
            proof {
                assert(balance_entries(out@) =~= balance_entries(old_out).push((picked.0@, picked.1)));
                assert forall|j: int| 0 <= j < rest@.len() implies out@.len() > 0 ==> (#[trigger] rest@[j]).1 <= out@[out@.len() - 1].1 by {
                    let j2 = if j < best { j } else { j + 1 };
                    assert(rest@[j] == old_rest[j2]);
                }
                assert forall|i: int, j: int| 0 <= i < out@.len() && 0 <= j < rest@.len() implies (#[trigger] out@[i]).0@ != (#[trigger] rest@[j]).0@ by {
                    let j2 = if j < best { j } else { j + 1 };
                    assert(rest@[j] == old_rest[j2]);
                    if i == old_out.len() {
                        assert(old_rest[j2].0@ != old_rest[best as int].0@) by {
                            let er = balance_entries(old_rest);
                            if j2 < best {
                                assert(er[j2].0 != er[best as int].0);
                            } else {
                                assert(er[best as int].0 != er[j2].0);
                            }
                        }
                    }
                }
                assert forall|a: Seq<char>| #[trigger] m.contains_key(a) implies has_key(balance_entries(rest@), a) || has_key(balance_entries(out@), a) by {
                    let er = balance_entries(old_rest);
                    if has_key(er, a) {
                        let q = choose|q: int| 0 <= q < er.len() && (#[trigger] er[q]).0 == a;
                        if q == best {
                            assert(balance_entries(out@)[old_out.len() as int].0 == a);
                        } else if q < best {
                            assert(balance_entries(rest@)[q].0 == a);
                        } else {
                            assert(balance_entries(rest@)[q - 1].0 == a);
                        }
                    } else {
                        let eo = balance_entries(old_out);
                        let q = choose|q: int| 0 <= q < eo.len() && (#[trigger] eo[q]).0 == a;
                        assert(balance_entries(out@)[q].0 == a);
                    }
                }
                assert forall|i: int| 0 <= i < rest@.len() implies m.contains_key((#[trigger] rest@[i]).0@) && m[rest@[i].0@] == rest@[i].1 by {
                    let i2 = if i < best { i } else { i + 1 };
                    assert(rest@[i] == old_rest[i2]);
                }
            }
        }
        proof {
            assert forall|a: Seq<char>| #[trigger] m.contains_key(a) && !has_key(balance_entries(out@), a) implies
                out@.len() == n && (n > 0 ==> m[a] <= out@[out@.len() - 1].1) by {
                let er = balance_entries(rest@);
                let q = choose|q: int| 0 <= q < er.len() && (#[trigger] er[q]).0 == a;
                assert(rest@[q].0@ == a);
            }
        }
        out
    }
}

/// Appends `v` as 8 little-endian bytes.
fn push_le_u64(dst: &mut Vec<u8>, v: u64)
    ensures
        final(dst)@ == old(dst)@ + le_bytes(v as nat, 8),
{
    let mut x: u64 = v;
    let mut k: usize = 0;
    let ghost start = dst@;
    while k < 8
        invariant
            k <= 8,
            start == old(dst)@,
            dst@ + le_bytes(x as nat, (8 - k) as nat) == start + le_bytes(v as nat, 8),
        decreases 8 - k,
    {
        proof {
            assert(le_bytes(x as nat, (8 - k) as nat) == seq![(x % 256) as u8] + le_bytes((x / 256) as nat, (8 - k - 1) as nat));
        }
        dst.push((x % 256) as u8);
        x = x / 256;
        k = k + 1;
        proof {
            assert(dst@ + le_bytes(x as nat, (8 - k) as nat) =~= start + le_bytes(v as nat, 8));
        }
    }
    proof {
        assert(le_bytes(x as nat, 0) == Seq::<u8>::empty());
        assert(dst@ =~= start + le_bytes(v as nat, 8));
    }
}

/// A fresh copy of a list of accounts.
fn copy_accounts(v: &Vec<(String, u64)>) -> (r: Vec<(String, u64)>)
    ensures
        balance_entries(r@) == balance_entries(v@),
        r@.len() == v@.len(),
        forall|i: int| 0 <= i < v@.len() ==> (#[trigger] r@[i]).0@ == v@[i].0@ && r@[i].1 == v@[i].1,
{
    let mut r: Vec<(String, u64)> = Vec::new();
    let mut i: usize = 0;
    while i < v.len()
        invariant
            i <= v@.len(),
            r@.len() == i,
            forall|k: int| 0 <= k < i ==> (#[trigger] r@[k]).0@ == v@[k].0@ && r@[k].1 == v@[k].1,
        decreases v@.len() - i,
    {
        r.push((v[i].0.clone(), v[i].1));
        i = i + 1;
    }
    proof {
        assert(balance_entries(r@) =~= balance_entries(v@));
    }
    r
}

/// The accounts of `v`, sorted strictly by address.
fn sort_accounts(v: &Vec<(String, u64)>) -> (r: Vec<(String, u64)>)
    requires
        keys_unique(balance_entries(v@)),
    ensures
        sorted_by_address(balance_entries(r@)),
        to_map(balance_entries(r@)) == to_map(balance_entries(v@)),
{
    let mut out: Vec<(String, u64)> = Vec::new();
    let mut i: usize = 0;
    while i < v.len()
        invariant
            i <= v@.len(),
            keys_unique(balance_entries(v@)),
            sorted_by_address(balance_entries(out@)),
            to_map(balance_entries(out@)) == to_map(balance_entries(v@.take(i as int))),
            keys_unique(balance_entries(out@)),
        decreases v@.len() - i,
    {
        let name = v[i].0.clone();
        let bal = v[i].1;
        let ghost eo = balance_entries(out@);
        let ghost ev = balance_entries(v@);
        proof {
            assert(balance_entries(v@.take(i as int)) =~= ev.take(i as int));
            assert(balance_entries(v@.take(i + 1)) =~= ev.take(i + 1));
            assert(ev.take(i + 1) =~= ev.take(i as int).push((name@, bal)));
            assert(keys_unique(ev.take(i as int))) by {
                let t = ev.take(i as int);
                assert forall|a: int, b: int| 0 <= a < b < t.len() implies (#[trigger] t[a]).0 != (#[trigger] t[b]).0 by {
                    assert(t[a] == ev[a] && t[b] == ev[b]);
                }
            }
            assert(!has_key(ev.take(i as int), name@)) by {
                let t = ev.take(i as int);
                if has_key(t, name@) {
                    let q = choose|q: int| 0 <= q < t.len() && (#[trigger] t[q]).0 == name@;
                    assert(ev[q].0 != ev[i as int].0);
                }
            }
            lemma_to_map_push(ev.take(i as int), name@, bal);
            assert(!has_key(eo, name@)) by {
                if has_key(eo, name@) {
                    let q = choose|q: int| 0 <= q < eo.len() && (#[trigger] eo[q]).0 == name@;
                    lemma_to_map_index(eo, q);
                }
            }
        }
        let mut pos: usize = 0;
        while pos < out.len() && str_lt(out[pos].0.as_str(), name.as_str())
            invariant
                pos <= out@.len(),
                forall|k: int| 0 <= k < pos ==> chars_lt((#[trigger] out@[k]).0@, name@),
            decreases out@.len() - pos,
        {
            pos = pos + 1;
        }
        out.insert(pos, (name, bal));
        proof {
            let en = balance_entries(out@);
            assert(en =~= eo.insert(pos as int, (name@, bal)));
            if pos < eo.len() {
                assert(!chars_lt(eo[pos as int].0, name@));
                assert(eo[pos as int].0 != name@) by {
                    if eo[pos as int].0 == name@ {
                        assert(has_key(eo, name@));
                    }
                }
                lemma_chars_lt_total(eo[pos as int].0, name@);
            }
            assert forall|a: int, b: int| 0 <= a < b < en.len() implies chars_lt((#[trigger] en[a]).0, (#[trigger] en[b]).0) by {
                if b < pos {
                    assert(en[a] == eo[a] && en[b] == eo[b]);
                } else if b == pos {
                    assert(en[a] == eo[a]);
                } else if a < pos {
                    assert(en[a] == eo[a] && en[b] == eo[b - 1]);
                    if b - 1 > pos {
                        lemma_chars_lt_trans(eo[a].0, name@, eo[pos as int].0);
                        lemma_chars_lt_trans(eo[a].0, eo[pos as int].0, eo[b - 1].0);
                    } else {
                        lemma_chars_lt_trans(eo[a].0, name@, eo[pos as int].0);
                    }
                } else if a == pos {
                    assert(en[b] == eo[b - 1]);
                    if b - 1 > pos {
                        lemma_chars_lt_trans(name@, eo[pos as int].0, eo[b - 1].0);
                    }
                } else {
                    assert(en[a] == eo[a - 1] && en[b] == eo[b - 1]);
                }
            }
            lemma_sorted_unique(en);
            assert(to_map(en) =~= to_map(eo).insert(name@, bal)) by {
                lemma_to_map_push(eo, name@, bal);
                let p = eo.push((name@, bal));
                assert forall|q: Seq<char>| #[trigger] has_key(en, q) == has_key(p, q) by {
                    if has_key(en, q) {
                        let w = choose|w: int| 0 <= w < en.len() && (#[trigger] en[w]).0 == q;
                        if w < pos {
                            assert(p[w] == en[w]);
                        } else if w == pos {
                            assert(p[eo.len() as int] == en[w]);
                        } else {
                            assert(p[w - 1] == en[w]);
                        }
                    }
                    if has_key(p, q) {
                        let w = choose|w: int| 0 <= w < p.len() && (#[trigger] p[w]).0 == q;
                        if w == eo.len() {
                            assert(en[pos as int] == p[w]);
                        } else if w < pos {
                            assert(en[w] == p[w]);
                        } else {
                            assert(en[w + 1] == p[w]);
                        }
                    }
                }
                assert forall|q: Seq<char>| #[trigger] to_map(en).contains_key(q) implies to_map(en)[q] == to_map(p)[q] by {
                    let w = choose|w: int| 0 <= w < en.len() && (#[trigger] en[w]).0 == q;
                    lemma_to_map_index(en, w);
                    if w < pos {
                        assert(p[w] == en[w]);
                        lemma_to_map_index(p, w);
                    } else if w == pos {
                        lemma_to_map_index(p, eo.len() as int);
                    } else {
                        assert(p[w - 1] == en[w]);
                        lemma_to_map_index(p, w - 1);
                    }
                }
                assert(to_map(en) =~= to_map(p));
            }
        }
        i = i + 1;
    }
    proof {
        assert(v@.take(v@.len() as int) =~= v@);
    }
    out
}

/// Reloading written-out balances gives back the same balances: the list that
/// `to_data` writes has each address once and maps to the balances, and
/// `load_balances` installs that list with later entries overriding.
pub proof fn law_balances_reload(d: StateData, balances: Map<Seq<char>, u64>)
    requires
        keys_unique(balance_entries(d.balances@)),
        to_map(balance_entries(d.balances@)) == balances,
    ensures
        last_wins(balance_entries(d.balances@)) == balances,
{
    crate::maps::lemma_last_wins_unique(balance_entries(d.balances@));
}

/// A balance counted as an integer.
pub open spec fn balance_value() -> spec_fn(u64) -> int {
    |b: u64| b as int
}

/// The sum of all balances.
pub open spec fn total_balance(m: Map<Seq<char>, u64>) -> int {
    map_sum(m, balance_value())
}

/// A transfer burns exactly its fee: when `t` applies to balances `m` (listed
/// by `s`, each address once), its cost `amount + fee` does not saturate, and
/// crediting the receiver does not saturate, the sum of all balances drops by
/// `t.fee`.
pub proof fn law_transfer_burns_fee(m: Map<Seq<char>, u64>, s: Seq<(Seq<char>, u64)>, t: TxView)
    requires
        keys_unique(s),
        to_map(s) == m,
        t.amount + t.fee <= u64::MAX,
        apply_tx_spec(m, t) is Some,
        balance_of(m.insert(t.sender, (balance_of(m, t.sender) - total_cost_spec(t)) as u64), t.receiver) + t.amount
            <= u64::MAX,
    ensures
        total_balance(apply_tx_spec(m, t)->0) == total_balance(m) - t.fee,
{
    let f = balance_value();
    let sb = balance_of(m, t.sender);
    let cost = total_cost_spec(t);
    let s1 = lemma_seq_sum_insert(s, t.sender, (sb - cost) as u64, f);
    let m1 = to_map(s1);
    assert(m1 == m.insert(t.sender, (sb - cost) as u64));
    let rb = balance_of(m1, t.receiver);
    let s2 = lemma_seq_sum_insert(s1, t.receiver, sat_add(rb, t.amount), f);
    lemma_map_sum(s, f);
    lemma_map_sum(s2, f);
    assert(to_map(s2) == apply_tx_spec(m, t)->0);
    assert(seq_sum(s1, f) == seq_sum(s, f) - cost);
    assert(seq_sum(s2, f) == seq_sum(s1, f) + t.amount);
}

/// `256` to the power `n`.
spec fn pow256(n: nat) -> nat
    decreases n,
{
    if n == 0 {
        1
    } else {
        256 * pow256((n - 1) as nat)
    }
}

/// `le_bytes(v, n)` has `n` bytes.
proof fn lemma_le_bytes_len(v: nat, n: nat)
    ensures
        le_bytes(v, n).len() == n,
    decreases n,
{
    if n > 0 {
        lemma_le_bytes_len(v / 256, (n - 1) as nat);
    }
}

/// Two numbers below `256^n` with the same `n` little-endian bytes are equal.
proof fn lemma_le_bytes_injective(a: nat, b: nat, n: nat)
    requires
        a < pow256(n),
        b < pow256(n),
        le_bytes(a, n) == le_bytes(b, n),
    ensures
        a == b,
    decreases n,
{
    if n > 0 {
        let m = (n - 1) as nat;
        lemma_le_bytes_len(a / 256, m);
        lemma_le_bytes_len(b / 256, m);
        assert(le_bytes(a, n)[0] == (a % 256) as u8);
        assert(le_bytes(b, n)[0] == (b % 256) as u8);
        assert(a % 256 == b % 256);
        assert(le_bytes(a, n).subrange(1, n as int) =~= le_bytes(a / 256, m));
        assert(le_bytes(b, n).subrange(1, n as int) =~= le_bytes(b / 256, m));
        let pm = pow256(m);
        assert(a / 256 < pm && b / 256 < pm) by (nonlinear_arith)
            requires
                a < 256 * pm,
                b < 256 * pm,
        ;
        lemma_le_bytes_injective(a / 256, b / 256, m);
        assert(a == 256 * (a / 256) + a % 256);
        assert(b == 256 * (b / 256) + b % 256);
    }
}

/// Two account lists with the same addresses at each position.
spec fn same_addresses(s1: Seq<(Seq<char>, u64)>, s2: Seq<(Seq<char>, u64)>) -> bool {
    s1.len() == s2.len() && forall|i: int| 0 <= i < s1.len() ==> (#[trigger] s1[i]).0 == s2[i].0
}

/// Account lists with the same addresses have preimages of the same length.
proof fn lemma_root_preimage_len(s1: Seq<(Seq<char>, u64)>, s2: Seq<(Seq<char>, u64)>)
    requires
        same_addresses(s1, s2),
    ensures
        root_preimage(s1).len() == root_preimage(s2).len(),
    decreases s1.len(),
{
    if s1.len() > 0 {
        let d1 = s1.drop_last();
        let d2 = s2.drop_last();
        assert forall|i: int| 0 <= i < d1.len() implies (#[trigger] d1[i]).0 == d2[i].0 by {
            assert(d1[i] == s1[i] && d2[i] == s2[i]);
        }
        lemma_root_preimage_len(d1, d2);
        lemma_le_bytes_len(s1.last().1 as nat, 8);
        lemma_le_bytes_len(s2.last().1 as nat, 8);
        assert(s1.last().0 == s2.last().0);
    }
}

/// Account lists with the same addresses and the same preimage have the same
/// balance at each position.
proof fn lemma_root_preimage_balances(s1: Seq<(Seq<char>, u64)>, s2: Seq<(Seq<char>, u64)>)
    requires
        same_addresses(s1, s2),
        root_preimage(s1) == root_preimage(s2),
    ensures
        forall|i: int| 0 <= i < s1.len() ==> (#[trigger] s1[i]).1 == s2[i].1,
    decreases s1.len(),
{
    if s1.len() > 0 {
        let d1 = s1.drop_last();
        let d2 = s2.drop_last();
        assert forall|i: int| 0 <= i < d1.len() implies (#[trigger] d1[i]).0 == d2[i].0 by {
            assert(d1[i] == s1[i] && d2[i] == s2[i]);
        }
        lemma_root_preimage_len(d1, d2);
        let v1 = s1.last().1;
        let v2 = s2.last().1;
        lemma_le_bytes_len(v1 as nat, 8);
        lemma_le_bytes_len(v2 as nat, 8);
        assert(s1.last().0 == s2.last().0);
        let p1 = root_preimage(d1);
        let p2 = root_preimage(d2);
        let e = encode_utf8_chars(s1.last().0);
        let l1 = le_bytes(v1 as nat, 8);
        let l2 = le_bytes(v2 as nat, 8);
        let whole = root_preimage(s1);
        assert(whole == p1 + e + l1);
        assert(root_preimage(s2) == p2 + e + l2);
        let n = whole.len();
        assert(whole.subrange(0, p1.len() as int) =~= p1);
        assert(root_preimage(s2).subrange(0, p2.len() as int) =~= p2);
        assert(whole.subrange(n - 8, n as int) =~= l1);
        assert(root_preimage(s2).subrange(n - 8, n as int) =~= l2);
        assert(pow256(8) == 0x1_0000_0000_0000_0000) by {
            reveal_with_fuel(pow256, 9);
        }
        lemma_le_bytes_injective(v1 as nat, v2 as nat, 8);
        lemma_root_preimage_balances(d1, d2);
        assert forall|i: int| 0 <= i < s1.len() implies (#[trigger] s1[i]).1 == s2[i].1 by {
            if i < d1.len() {
                assert(d1[i] == s1[i] && d2[i] == s2[i]);
            }
        }
    }
}

/// Strictly sorted account lists of the same set of addresses list the same
/// addresses in the same order.
proof fn lemma_sorted_same_addresses(s1: Seq<(Seq<char>, u64)>, s2: Seq<(Seq<char>, u64)>)
    requires
        sorted_by_address(s1),
        sorted_by_address(s2),
        to_map(s1).dom() == to_map(s2).dom(),
    ensures
        same_addresses(s1, s2),
{
    let t1 = s1.map_values(|e: (Seq<char>, u64)| (e.0, 0u64));
    let t2 = s2.map_values(|e: (Seq<char>, u64)| (e.0, 0u64));
    assert(sorted_by_address(t1));
    assert(sorted_by_address(t2));
    assert forall|k: Seq<char>| has_key(t1, k) <==> has_key(s1, k) by {
        if has_key(t1, k) {
            let i = choose|i: int| 0 <= i < t1.len() && (#[trigger] t1[i]).0 == k;
            assert(s1[i].0 == k);
        }
        if has_key(s1, k) {
            let i = choose|i: int| 0 <= i < s1.len() && (#[trigger] s1[i]).0 == k;
            assert(t1[i].0 == k);
        }
    }
    assert forall|k: Seq<char>| has_key(t2, k) <==> has_key(s2, k) by {
        if has_key(t2, k) {
            let i = choose|i: int| 0 <= i < t2.len() && (#[trigger] t2[i]).0 == k;
            assert(s2[i].0 == k);
        }
        if has_key(s2, k) {
            let i = choose|i: int| 0 <= i < s2.len() && (#[trigger] s2[i]).0 == k;
            assert(t2[i].0 == k);
        }
    }
    assert forall|k: Seq<char>| #[trigger] to_map(t1).contains_key(k) implies to_map(t1)[k] == 0 by {
        let i = choose|i: int| 0 <= i < t1.len() && (#[trigger] t1[i]).0 == k;
        assert(t1[i].1 == 0);
    }
    assert forall|k: Seq<char>| #[trigger] to_map(t2).contains_key(k) implies to_map(t2)[k] == 0 by {
        let i = choose|i: int| 0 <= i < t2.len() && (#[trigger] t2[i]).0 == k;
        assert(t2[i].1 == 0);
    }
    assert forall|k: Seq<char>| #[trigger] to_map(t1).contains_key(k) <==> to_map(t2).contains_key(k) by {
        assert(to_map(s1).dom().contains(k) <==> to_map(s2).dom().contains(k));
        assert(to_map(t1).contains_key(k) == has_key(t1, k));
        assert(to_map(t2).contains_key(k) == has_key(t2, k));
        assert(to_map(s1).contains_key(k) == has_key(s1, k));
        assert(to_map(s2).contains_key(k) == has_key(s2, k));
    }
    assert(to_map(t1) =~= to_map(t2));
    lemma_sorted_representation_unique(t1, t2);
    assert forall|i: int| 0 <= i < s1.len() implies (#[trigger] s1[i]).0 == s2[i].0 by {
        assert(t1[i].0 == s1[i].0 && t2[i].0 == s2[i].0);
    }
}

/// The state root commits to every balance: two balance maps over the same
/// accounts that differ in some balance hash different preimages (each account
/// contributes its UTF-8 address followed by its balance as 8 little-endian
/// bytes). The maps are given by their address-sorted account lists, as every
/// state's balances are.
pub proof fn law_state_root_commits_to_balances(s1: Seq<(Seq<char>, u64)>, s2: Seq<(Seq<char>, u64)>)
    requires
        sorted_by_address(s1),
        sorted_by_address(s2),
        to_map(s1).dom() == to_map(s2).dom(),
        to_map(s1) != to_map(s2),
    ensures
        root_preimage(canonical_entries(to_map(s1))) != root_preimage(canonical_entries(to_map(s2))),
{
    let c1 = canonical_entries(to_map(s1));
    let c2 = canonical_entries(to_map(s2));
    assert(sorted_by_address(c1) && to_map(c1) == to_map(s1));
    assert(sorted_by_address(c2) && to_map(c2) == to_map(s2));
    lemma_sorted_representation_unique(c1, s1);
    lemma_sorted_representation_unique(c2, s2);
    lemma_sorted_unique(s1);
    lemma_sorted_unique(s2);
    lemma_sorted_same_addresses(s1, s2);
    let k = choose|k: Seq<char>| #[trigger] to_map(s1).contains_key(k) && to_map(s1)[k] != to_map(s2)[k];
    assert(exists|k: Seq<char>| #[trigger] to_map(s1).contains_key(k) && to_map(s1)[k] != to_map(s2)[k]) by {
        if !(exists|k: Seq<char>| #[trigger] to_map(s1).contains_key(k) && to_map(s1)[k] != to_map(s2)[k]) {
            assert(to_map(s1) =~= to_map(s2));
        }
    }
    let i = choose|i: int| 0 <= i < s1.len() && (#[trigger] s1[i]).0 == k;
    lemma_to_map_index(s1, i);
    lemma_to_map_index(s2, i);
    if root_preimage(s1) == root_preimage(s2) {
        lemma_root_preimage_balances(s1, s2);
        assert(s1[i].1 == s2[i].1);
    }
}

} // verus!
