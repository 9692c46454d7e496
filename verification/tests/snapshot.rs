use neurograph::ledger::Ledger;
use neurograph::snapshot::SnapshotResponse;
use neurograph::state::StateManager;
use neurograph::transaction::Transaction;

#[test]
fn test_snapshot_build_and_apply() {
    let mut ledger = Ledger::new("snapshot_test/ledger.json".to_string());
    let mut state = StateManager::new("snapshot_test/state.json".to_string());
    let tx = Transaction::new_with_nonce("alice".to_string(), "bob".to_string(), 100, 1, vec![]);
    ledger.add(tx);
    state.genesis_allocate("alice");
    let snap = SnapshotResponse::build("responder_node", 42, &ledger, &state);
    assert_eq!(snap.last_step, 42);
    assert_eq!(snap.ledger.entries.len(), 1);
    assert_eq!(snap.state.balances.len(), 1);
    let mut ledger2 = Ledger::new("snapshot_apply/ledger.json".to_string());
    let mut state2 = StateManager::new("snapshot_apply/state.json".to_string());
    assert_eq!(ledger2.len(), 0);
    let (entries, accounts) = snap.apply(&mut ledger2, &mut state2);
    assert_eq!(entries, 1, "Snapshot should apply 1 entry");
    assert_eq!(accounts, 1, "Snapshot should apply 1 account");
    assert_eq!(ledger2.len(), 1);
    assert_eq!(state2.get_balance("alice"), 1_000_000);
}

#[test]
fn snapshot_carries_the_state_root_and_keeps_nonce_indexes() {
    let mut ledger = Ledger::new("a".to_string());
    let mut state = StateManager::new("b".to_string());
    state.genesis_allocate("carol");
    let tx = Transaction::new_with_nonce("dave".to_string(), "erin".to_string(), 1, 9, vec![]);
    let h = tx.hash;
    ledger.add(tx);
    let snap = SnapshotResponse::build("r", 1, &ledger, &state);
    assert_eq!(snap.state_root, state.state_root());
    let mut fresh = Ledger::new("c".to_string());
    let mut fresh_state = StateManager::new("d".to_string());
    let _ = snap.apply(&mut fresh, &mut fresh_state);
    assert!(fresh.get(&h).is_some());
    // the snapshot replaces the entries but not the nonce index
    assert!(!fresh.has_finalized_nonce("dave", 9));
    assert!(fresh.is_dirty());
    assert!(fresh_state.is_dirty());
}
