use ed25519_dalek::SigningKey;
use neurograph::dag_logic::{tally_approvals, DagLogic, GossipOutcome};
use neurograph::sharding::{shard_of_address, ShardSet};
use neurograph::ledger::Ledger;
use neurograph::mempool::Mempool;
use neurograph::state::StateManager;
use neurograph::transaction::Transaction;
use rand::rngs::OsRng;

fn node_with(accounts: &[&str]) -> DagLogic {
    let mut state = StateManager::new("state.json".to_string());
    for a in accounts {
        state.genesis_allocate(a);
    }
    DagLogic::from_parts(Ledger::new("ledger.json".to_string()), Mempool::new(100, "mempool.json".to_string()), state)
}

fn signed(sender: &str, receiver: &str, amount: u64, nonce: u64, key: &SigningKey) -> Transaction {
    let mut tx = Transaction::new_with_nonce(sender.to_string(), receiver.to_string(), amount, nonce, vec![]);
    tx.sign(key);
    tx
}

#[test]
fn admission_then_finalization_moves_funds_and_pays_the_proposer() {
    let key = SigningKey::generate(&mut OsRng);
    let mut dl = node_with(&["alice"]);
    let tx = signed("alice", "bob", 100, 1, &key);
    let h = tx.hash;
    assert!(dl.add_transaction(tx));
    assert_eq!(dl.get_mempool_len(), 1);
    let (added, total) = dl.finalize_batch(&vec![h], &vec![(h, "node1".to_string())]);
    assert_eq!(added.len(), 2);
    assert_eq!(added[0], h);
    assert_eq!(total, 1);
    assert_eq!(dl.get_state().get_balance("alice"), 1_000_000 - 101);
    assert_eq!(dl.get_state().get_balance("bob"), 100);
    assert_eq!(dl.get_state().get_balance("node1"), 1);
    assert_eq!(dl.get_ledger_len(), 2);
    assert_eq!(dl.get_mempool_len(), 0);
    assert_eq!(dl.get_ledger().get_children(&h).len(), 1);
}

#[test]
fn a_reused_nonce_is_rejected_before_and_after_finalization() {
    let key = SigningKey::generate(&mut OsRng);
    let mut dl = node_with(&["alice"]);
    let tx = signed("alice", "bob", 10, 7, &key);
    let h = tx.hash;
    let again = signed("alice", "carol", 20, 7, &key);
    assert!(dl.add_transaction(tx));
    assert!(!dl.check_double_spend(&again));
    assert!(!dl.add_transaction(again.duplicate()));
    let _ = dl.finalize_batch(&vec![h], &vec![]);
    assert!(dl.get_ledger().has_finalized_nonce("alice", 7));
    assert!(!dl.check_double_spend(&again));
    let lower = signed("alice", "carol", 20, 3, &key);
    assert!(!dl.check_double_spend(&lower));
    let higher = signed("alice", "carol", 20, 8, &key);
    assert!(dl.check_double_spend(&higher));
}

#[test]
fn invalid_signatures_and_poor_senders_are_refused() {
    let key = SigningKey::generate(&mut OsRng);
    let mut dl = node_with(&["alice"]);
    let unsigned = Transaction::new_with_nonce("alice".to_string(), "bob".to_string(), 1, 1, vec![]);
    assert!(!dl.add_transaction(unsigned));
    let poor = signed("pauper", "bob", 1, 1, &key);
    assert!(!dl.add_transaction(poor.duplicate()));
    assert!(dl.add_transaction_from_gossip(poor));
    assert_eq!(dl.get_mempool_len(), 1);
}

#[test]
fn a_sender_that_cannot_pay_is_evicted_on_the_third_try() {
    let key = SigningKey::generate(&mut OsRng);
    let mut dl = node_with(&[]);
    let tx = signed("pauper", "bob", 5, 1, &key);
    let h = tx.hash;
    assert!(dl.add_transaction_from_gossip(tx));
    for round in 0..3 {
        let (added, total) = dl.finalize_batch(&vec![h], &vec![]);
        assert!(added.is_empty());
        assert_eq!(total, 0);
        assert_eq!(dl.get_mempool().contains(&h), round < 2);
    }
}

#[test]
fn batch_admission_counts_admitted_and_rejected() {
    let key = SigningKey::generate(&mut OsRng);
    let mut dl = node_with(&["alice"]);
    let a = signed("alice", "bob", 1, 1, &key);
    let b = signed("alice", "bob", 1, 1, &key);
    let mut c = signed("alice", "bob", 1, 2, &key);
    c.amount = 2;
    let d = signed("alice", "bob", 1, 3, &key);
    let (added, rejected) = dl.add_verified_batch(vec![a, b, c, d]);
    assert_eq!(added, 2);
    assert_eq!(rejected, 2);
    assert_eq!(dl.add_verified_batch(vec![]), (0, 0));
}

#[test]
fn assembling_a_node_lifts_pool_nonces_to_the_ledger() {
    let mut ledger = Ledger::new("l".to_string());
    ledger.add(Transaction::new_with_nonce("alice".to_string(), "bob".to_string(), 1, 9, vec![]));
    let dl = DagLogic::from_parts(ledger, Mempool::new(10, "m".to_string()), StateManager::new("s".to_string()));
    assert_eq!(dl.get_mempool().get_last_nonce("alice"), Some(9));
    assert!(dl.get_mempool().is_known_nonce("alice", 9));
}

#[test]
fn finalization_happens_every_fifth_step() {
    assert!(!DagLogic::should_finalize(0));
    assert!(!DagLogic::should_finalize(4));
    assert!(DagLogic::should_finalize(5));
    assert!(DagLogic::should_finalize(10));
    assert!(!DagLogic::should_finalize(11));
}

#[test]
fn tally_counts_sightings_and_first_proposers() {
    let h1 = [1u8; 32];
    let h2 = [2u8; 32];
    let h3 = [3u8; 32];
    let props = vec![
        ("a".to_string(), vec![h1, h2]),
        ("b".to_string(), vec![h2, h3]),
        ("c".to_string(), vec![h2, h1]),
    ];
    let (approved, proposers) = tally_approvals(&props, 2);
    assert_eq!(approved, vec![h1, h2]);
    assert_eq!(proposers, vec![(h1, "a".to_string()), (h2, "a".to_string()), (h3, "b".to_string())]);
    let (all, _) = tally_approvals(&props, 0);
    assert_eq!(all.len(), 3);
    let (none, p) = tally_approvals(&vec![], 1);
    assert!(none.is_empty() && p.is_empty());
}

#[test]
fn snapshot_install_through_the_node() {
    let mut donor = node_with(&["zed"]);
    let mut ledger = Ledger::new("x".to_string());
    ledger.add(Transaction::new_with_nonce("q".to_string(), "r".to_string(), 1, 1, vec![]));
    let snap = neurograph::snapshot::SnapshotResponse::build("peer", 3, &ledger, donor.get_state());
    let (entries, accounts) = donor.apply_snapshot(&snap);
    assert_eq!((entries, accounts), (1, 1));
    assert_eq!(donor.get_ledger_len(), 1);
    donor.get_state_mut().mint("newcomer", 5);
    assert_eq!(donor.get_state().get_balance("newcomer"), 5);
}

#[test]
fn parents_are_distinct_tips_and_at_most_the_requested_number() {
    let key = SigningKey::generate(&mut OsRng);
    let mut dl = node_with(&["alice"]);
    assert!(dl.select_parents(3).is_empty());
    let mut hashes = Vec::new();
    for n in 1..=4u64 {
        let tx = signed("alice", "bob", 1, n, &key);
        hashes.push(tx.hash);
        assert!(dl.add_transaction(tx));
    }
    let _ = dl.finalize_batch(&hashes, &vec![]);
    let tips: Vec<[u8; 32]> = dl.get_ledger().get_tips().into_iter().copied().collect();
    assert_eq!(tips.len(), 4);
    let picked = dl.select_parents(3);
    assert_eq!(picked.len(), 3);
    for p in &picked {
        assert!(tips.contains(p));
    }
    assert_ne!(picked[0], picked[1]);
    assert_ne!(picked[0], picked[2]);
    assert_ne!(picked[1], picked[2]);
    assert_eq!(dl.select_parents(10).len(), 4);
}

#[test]
fn local_submission_numbers_nonces_and_checks_the_balance() {
    let key = SigningKey::generate(&mut OsRng);
    let mut dl = node_with(&["alice"]);
    let (ok, tx) = dl.submit_transaction_with_fee("alice".to_string(), "bob".to_string(), 100, 5, &key);
    assert!(ok);
    assert_eq!(tx.nonce, 1);
    assert_eq!(tx.fee, 5);
    assert!(tx.verify_signature());
    assert!(tx.parents.is_empty());
    let (ok2, tx2) = dl.submit_transaction_with_fee("alice".to_string(), "bob".to_string(), 100, 5, &key);
    assert!(ok2);
    assert_eq!(tx2.nonce, 2);
    assert_eq!(dl.get_mempool_len(), 2);
    let _ = dl.finalize_batch(&vec![tx.hash, tx2.hash], &vec![]);
    let (ok3, tx3) = dl.submit_transaction_with_fee("alice".to_string(), "bob".to_string(), 10, 1, &key);
    assert!(ok3);
    assert_eq!(tx3.nonce, 3);
    assert_eq!(tx3.parents.len(), 2);
    let (poor, _) = dl.submit_transaction_with_fee("nobody".to_string(), "bob".to_string(), 10, 1, &key);
    assert!(!poor);
}

#[test]
fn gossiped_transactions_are_filtered_checked_and_passed_on() {
    let key = SigningKey::generate(&mut OsRng);
    let mut dl = node_with(&[]);
    let all = ShardSet::all();
    let tx = signed("alice", "bob", 10, 1, &key);
    let h = tx.hash;
    match dl.receive_gossip_transaction(&all, tx.duplicate()) {
        GossipOutcome::Admitted(copy) => assert_eq!(copy.hash, h),
        other => panic!("expected admission, got {:?}", other),
    }
    assert!(matches!(dl.receive_gossip_transaction(&all, tx.duplicate()), GossipOutcome::Refused));
    let unsigned = Transaction::new_with_nonce("alice".to_string(), "bob".to_string(), 10, 2, vec![]);
    assert!(matches!(dl.receive_gossip_transaction(&all, unsigned), GossipOutcome::BadSignature));
    let other = (shard_of_address("alice") + 1) % neurograph::config::N_SHARDS;
    let elsewhere = ShardSet::only(&[other]);
    let tx3 = signed("alice", "bob", 10, 3, &key);
    assert!(matches!(dl.receive_gossip_transaction(&elsewhere, tx3), GossipOutcome::OtherShard));
    assert_eq!(dl.get_mempool_len(), 1);
}

#[test]
fn finalization_checks_each_transfer_against_the_running_balance() {
    let key = SigningKey::generate(&mut OsRng);
    let mut state = StateManager::new("state.json".to_string());
    state.mint("s", 150);
    let mut dl = DagLogic::from_parts(Ledger::new("ledger.json".to_string()), Mempool::new(100, "mempool.json".to_string()), state);
    let t1 = signed("s", "r", 99, 1, &key);
    let t2 = signed("s", "r", 99, 2, &key);
    let (h1, h2) = (t1.hash, t2.hash);
    assert!(dl.add_transaction_from_gossip(t1));
    assert!(dl.add_transaction_from_gossip(t2));
    let (added, total) = dl.finalize_batch(&vec![h1, h2], &vec![]);
    assert_eq!(added, vec![h1]);
    assert_eq!(total, 0);
    assert_eq!(dl.get_ledger_len(), 1);
    assert!(dl.get_ledger().get(&h2).is_none());
    assert_eq!(dl.get_state().get_balance("s"), 50);
    assert_eq!(dl.get_state().get_balance("r"), 99);
    assert!(!dl.get_mempool().contains(&h1));
    assert!(dl.get_mempool().contains(&h2));
}

#[test]
fn a_transfer_failing_its_first_balance_check_stays_pending() {
    let key = SigningKey::generate(&mut OsRng);
    let mut dl = node_with(&["alice"]);
    let t1 = signed("alice", "bob", 10, 1, &key);
    let t2 = signed("pauper", "bob", 10, 1, &key);
    let (h1, h2) = (t1.hash, t2.hash);
    assert!(dl.add_transaction(t1));
    assert!(dl.add_transaction_from_gossip(t2));
    let (added, _) = dl.finalize_batch(&vec![h1, h2], &vec![]);
    assert!(added.contains(&h1));
    assert!(!dl.get_mempool().contains(&h1));
    assert!(dl.get_mempool().contains(&h2));
}

#[test]
fn the_common_tips_history_keeps_the_last_rounds() {
    let mut history: Vec<Vec<[u8; 32]>> = Vec::new();
    for r in 0..12u8 {
        neurograph::dag_logic::record_common_tips(&mut history, vec![[r; 32]]);
    }
    assert_eq!(history.len(), neurograph::config::PREDICTIVE_MOMENTUM_HISTORY);
    assert_eq!(history[0], vec![[2u8; 32]]);
    assert_eq!(history[9], vec![[11u8; 32]]);
}

#[test]
fn approved_hashes_come_in_order_of_first_sighting() {
    let (a, b, c) = ([1u8; 32], [2u8; 32], [3u8; 32]);
    let proposals = vec![
        ("n1".to_string(), vec![b, a]),
        ("n2".to_string(), vec![c, a, b]),
        ("n3".to_string(), vec![c, b]),
    ];
    let (approved, _) = tally_approvals(&proposals, 2);
    assert_eq!(approved, vec![b, a, c]);
}

#[test]
fn a_finalize_preview_gives_the_reward_total_and_changes_nothing() {
    let key = SigningKey::generate(&mut OsRng);
    let mut state = StateManager::new("state.json".to_string());
    state.mint("s", 150);
    let mut dl = DagLogic::from_parts(Ledger::new("ledger.json".to_string()), Mempool::new(100, "mempool.json".to_string()), state);
    let t1 = signed("s", "r", 99, 1, &key);
    let t2 = signed("s", "r", 99, 2, &key);
    let fee = t1.fee;
    let (h1, h2) = (t1.hash, t2.hash);
    assert!(dl.add_transaction_from_gossip(t1));
    assert!(dl.add_transaction_from_gossip(t2));
    let proposers = vec![(h1, "p".to_string()), (h2, "q".to_string())];
    assert_eq!(dl.preview_finalize(&vec![h1, h2], &proposers), Some((fee, 1)));
    assert_eq!(dl.get_state().get_balance("s"), 150);
    assert!(dl.get_mempool().contains(&h1) && dl.get_mempool().contains(&h2));
    assert_eq!(dl.get_ledger_len(), 0);
    let (added, total) = dl.finalize_batch(&vec![h1, h2], &proposers);
    assert_eq!(total, fee);
    assert!(added.contains(&h1) && !added.contains(&h2));
}

#[test]
fn a_finalize_preview_reports_a_reward_total_past_u64() {
    let key = SigningKey::generate(&mut OsRng);
    let mut state = StateManager::new("state.json".to_string());
    state.mint("a", u64::MAX);
    state.mint("b", u64::MAX);
    let mut dl = DagLogic::from_parts(Ledger::new("ledger.json".to_string()), Mempool::new(100, "mempool.json".to_string()), state);
    let mut t1 = Transaction::new_with_fee("a".to_string(), "r".to_string(), 0, 1, u64::MAX, vec![]);
    t1.sign(&key);
    let mut t2 = Transaction::new_with_fee("b".to_string(), "r".to_string(), 0, 1, u64::MAX, vec![]);
    t2.sign(&key);
    let (h1, h2) = (t1.hash, t2.hash);
    assert!(dl.add_transaction_from_gossip(t1));
    assert!(dl.add_transaction_from_gossip(t2));
    let proposers = vec![(h1, "p".to_string()), (h2, "p".to_string())];
    assert_eq!(dl.preview_finalize(&vec![h1, h2], &proposers), None);
    assert_eq!(dl.preview_finalize(&vec![h1, h2], &vec![(h1, "p".to_string())]), Some((u64::MAX, 2)));
}
