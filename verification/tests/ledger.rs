use neurograph::ledger::{EntryType, Ledger, LedgerData, LedgerEntry};
use neurograph::transaction::Transaction;

fn tx(sender: &str, nonce: u64, parents: Vec<[u8; 32]>) -> Transaction {
    Transaction::new_with_fee(sender.to_string(), "bob".to_string(), 10, nonce, 2, parents)
}

#[test]
fn add_links_parents_and_indexes_nonces() {
    let mut l = Ledger::new("ledger.bin".to_string());
    let a = tx("alice", 1, vec![]);
    let ha = a.hash;
    l.add(a);
    let b = tx("alice", 2, vec![ha]);
    let hb = b.hash;
    l.add(b);
    assert_eq!(l.len(), 2);
    assert_eq!(l.get_children(&ha), vec![&hb]);
    assert!(l.get_children(&hb).is_empty());
    assert_eq!(l.get_tips(), vec![&hb]);
    assert!(l.has_finalized_nonce("alice", 1));
    assert!(l.has_finalized_nonce("alice", 2));
    assert!(!l.has_finalized_nonce("alice", 3));
    assert_eq!(l.last_finalized_nonce("alice"), Some(2));
    assert_eq!(l.last_finalized_nonce("bob"), None);
    assert!(l.is_dirty());
    l.mark_clean();
    assert!(!l.is_dirty());
    assert_eq!(l.file_path(), "ledger.bin");
}

#[test]
fn a_batch_stores_rewards_as_children() {
    let mut l = Ledger::new("x".to_string());
    let a = tx("alice", 1, vec![]);
    let b = tx("carol", 1, vec![]);
    let (ha, hb) = (a.hash, b.hash);
    let added = l.add_batch(vec![a, b], &vec![(ha, "node1".to_string())]);
    assert_eq!(added.len(), 3);
    assert_eq!(added[0], ha);
    assert_eq!(added[2], hb);
    assert_eq!(l.next_batch_id(), 1);
    let reward = l.get_entry(&added[1]).expect("reward entry");
    match &reward.entry_type {
        EntryType::RewardTx { rewarded_node, source_tx } => {
            assert_eq!(rewarded_node, "node1");
            assert_eq!(source_tx, &ha);
        }
        EntryType::UserTx => panic!("expected a reward"),
    }
    assert_eq!(reward.tx.sender, "__system__");
    assert_eq!(reward.tx.amount, 2);
    assert_eq!(reward.tx.fee, 0);
    assert_eq!(reward.tx.parents, vec![ha]);
    assert_eq!(reward.batch_id, 0);
    assert_eq!(l.get_children(&ha), vec![&added[1]]);
    let counts = l.finalized_count_per_node();
    assert_eq!(counts, vec![("node1".to_string(), 1)]);
    assert_eq!(l.total_fees_collected(), 4);
    assert!(!l.has_finalized_nonce("__system__", 0));
}

#[test]
fn data_round_trip_and_index_rebuild() {
    let mut l = Ledger::new("x".to_string());
    l.add(tx("alice", 5, vec![]));
    l.add(tx("alice", 3, vec![]));
    l.add(tx("dave", 0, vec![]));
    assert_eq!(l.last_finalized_nonce("alice"), Some(5));
    let data: LedgerData = l.to_data();
    assert_eq!(data.entries.len(), 3);
    let back = Ledger::from_data("y".to_string(), &data);
    assert_eq!(back.len(), 3);
    assert!(!back.is_dirty());
    assert_eq!(back.last_finalized_nonce("alice"), Some(5));
    assert!(back.has_finalized_nonce("alice", 3));
    assert!(back.has_finalized_nonce("dave", 0));
    assert_eq!(back.last_finalized_nonce("dave"), None);
    assert_eq!(back.get_tips().len(), 3);
}

#[test]
fn restore_replaces_entries_with_later_duplicates_winning() {
    let mut l = Ledger::new("x".to_string());
    let t = tx("alice", 1, vec![]);
    let h = t.hash;
    let first = LedgerEntry { tx: t.duplicate(), entry_type: EntryType::UserTx, batch_id: 1 };
    let second = LedgerEntry { tx: t, entry_type: EntryType::UserTx, batch_id: 2 };
    let data = LedgerData { entries: vec![first, second], dag_edges: vec![(h, vec![[9u8; 32]])], next_batch_id: 7 };
    l.restore(&data);
    assert_eq!(l.len(), 1);
    assert_eq!(l.get_entry(&h).unwrap().batch_id, 2);
    assert_eq!(l.next_batch_id(), 7);
    assert!(l.get_tips().is_empty());
    l.rebuild_children_cache_pub();
    assert!(l.get_tips().is_empty());
    assert_eq!(l.get(&h).unwrap().nonce, 1);
}

#[test]
fn the_last_finalized_nonce_is_the_highest() {
    let mut l = Ledger::new("ledger.json".to_string());
    l.add(Transaction::new_with_nonce("alice".to_string(), "bob".to_string(), 1, 5, vec![]));
    l.add(Transaction::new_with_nonce("alice".to_string(), "bob".to_string(), 1, 3, vec![]));
    assert_eq!(l.last_finalized_nonce("alice"), Some(5));
    assert!(l.has_finalized_nonce("alice", 3));
    let t7 = Transaction::new_with_nonce("alice".to_string(), "bob".to_string(), 1, 7, vec![]);
    let t6 = Transaction::new_with_nonce("alice".to_string(), "bob".to_string(), 1, 6, vec![]);
    let _ = l.add_batch(vec![t7, t6], &vec![]);
    assert_eq!(l.last_finalized_nonce("alice"), Some(7));
}
