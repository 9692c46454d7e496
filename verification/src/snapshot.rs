//! Snapshot sync: a joining node asks a peer for its finalized ledger and
//! balances and installs them locally, instead of replaying history.
use vstd::prelude::*;
use crate::ledger::{entries_of, entry_pairs, Ledger, LedgerData, LedgerModel};
use crate::maps::{keys_unique, last_wins, to_map};
use crate::state::{balance_entries, state_root_of, StateData, StateManager};

verus! {

/// A joining node's request for a snapshot.
#[derive(Debug)]
pub struct SnapshotRequest {
    pub requester: String,
    /// The step from which the node wants data (0 for a full snapshot).
    pub from_step: u64,
}

/// A full snapshot sent by a peer.
#[derive(Debug)]
pub struct SnapshotResponse {
    pub responder: String,
    pub last_step: u64,
    pub ledger: LedgerData,
    pub state: StateData,
    /// The state root of the balances, for checking.
    pub state_root: [u8; 32],
}

impl SnapshotResponse {
    /// A snapshot of `ledger` and `state` taken at `last_step` by `responder`.
    pub fn build(responder: &str, last_step: u64, ledger: &Ledger, state: &StateManager) -> (r: Self)
        requires
            ledger.wf(),
        ensures
            r.responder@ == responder@,
            r.last_step == last_step,
            entries_of(r.ledger@.entries) == ledger@.entries,
            keys_unique(entry_pairs(r.ledger@.entries)),
            r.ledger@.entries.len() == ledger@.entries.len(),
            last_wins(r.ledger@.dag_edges) == ledger@.edges,
            r.ledger.next_batch_id == ledger.next_batch(),
            keys_unique(balance_entries(r.state.balances@)),
            to_map(balance_entries(r.state.balances@)) == state@,
            r.state_root@ == state_root_of(state@),
    {
        let ledger_data = ledger.to_data();
        let state_data = state.to_data();
        let state_root = state.state_root();
        SnapshotResponse {
            responder: responder.to_owned(),
            last_step,
            ledger: ledger_data,
            state: state_data,
            state_root,
        }
    }

    /// Installs the snapshot: the ledger's entries, edges and next batch id and
    /// all balances are replaced by the snapshot's (the ledger's nonce indexes
    /// are kept). Both are left marked as changed, to be written out. Returns the
    /// resulting numbers of ledger entries and accounts.
    pub fn apply(&self, ledger: &mut Ledger, state: &mut StateManager) -> (r: (usize, usize))
        requires
            old(ledger).wf(),
        ensures
            final(ledger).wf(),
            final(ledger)@ == (LedgerModel {
                entries: entries_of(self.ledger@.entries),
                edges: last_wins(self.ledger@.dag_edges),
                ..old(ledger)@
            }),
            final(ledger).next_batch() == self.ledger.next_batch_id,
            final(ledger).is_dirty_spec(),
            final(ledger).path() == old(ledger).path(),
            final(state)@ == last_wins(balance_entries(self.state.balances@)),
            final(state).is_dirty_spec(),
            final(state).path() == old(state).path(),
            r.0 == final(ledger)@.entries.len(),
            r.1 == final(state)@.len(),
    {
        ledger.restore(&self.ledger);
        state.load_balances(&self.state.balances);
        state.mark_dirty();
        (ledger.len(), state.len())
    }
}

/// Installing a snapshot gives back what it was taken of: a ledger into which
/// `apply` installs a snapshot that `build` took of `src` (with next batch id
/// `src_next`) and of balances `src_state` ends with the entries, edges and next
/// batch id of `src`, and the balances become `src_state`.
pub proof fn law_snapshot_round_trip(
    snap: SnapshotResponse,
    src: LedgerModel,
    src_next: u64,
    src_state: Map<Seq<char>, u64>,
    dst: LedgerModel,
)
    requires
        entries_of(snap.ledger@.entries) == src.entries,
        last_wins(snap.ledger@.dag_edges) == src.edges,
        snap.ledger.next_batch_id == src_next,
        keys_unique(balance_entries(snap.state.balances@)),
        to_map(balance_entries(snap.state.balances@)) == src_state,
    ensures
        ({
            let installed = LedgerModel {
                entries: entries_of(snap.ledger@.entries),
                edges: last_wins(snap.ledger@.dag_edges),
                ..dst
            };
            &&& installed.entries == src.entries
            &&& installed.edges == src.edges
        }),
        snap.ledger.next_batch_id == src_next,
        last_wins(balance_entries(snap.state.balances@)) == src_state,
{
    crate::state::law_balances_reload(snap.state, src_state);
}

} // verus!
