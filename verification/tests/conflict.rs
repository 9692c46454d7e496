use neurograph::conflict::{ConflictResolver, ConflictStatus, ConflictVote};
use neurograph::transaction::Transaction;

#[test]
fn test_conflict_first_seen_then_conflict() {
    let mut resolver = ConflictResolver::new();
    let tx1 = Transaction::new_with_nonce("alice".to_string(), "bob".to_string(), 100, 1, vec![]);
    let status1 = resolver.observe(&tx1, "observer_node", 0);
    assert!(matches!(status1, ConflictStatus::FirstSeen));
    let tx2 = Transaction::new_with_nonce("alice".to_string(), "carol".to_string(), 200, 1, vec![]);
    let status2 = resolver.observe(&tx2, "observer_node", 0);
    match status2 {
        ConflictStatus::Conflict(vote) => {
            assert_eq!(vote.sender, "alice");
            assert_eq!(vote.nonce, 1);
            let expected = std::cmp::min(tx1.hash, tx2.hash);
            assert_eq!(vote.favored_tx, expected);
        }
        _ => panic!("Expected Conflict, got {:?}", status2),
    }
}

#[test]
fn test_conflict_duplicate_ignored() {
    let mut resolver = ConflictResolver::new();
    let tx = Transaction::new_with_nonce("alice".to_string(), "bob".to_string(), 100, 1, vec![]);
    let _ = resolver.observe(&tx, "observer", 0);
    let status = resolver.observe(&tx, "observer", 0);
    assert!(matches!(status, ConflictStatus::Duplicate), "Re-observing the same tx must return Duplicate");
}

#[test]
fn votes_are_released_only_after_the_window() {
    let mut resolver = ConflictResolver::new();
    let tx_a = Transaction::new_with_nonce("alice".to_string(), "bob".to_string(), 100, 1, vec![]);
    let tx_b = Transaction::new_with_nonce("alice".to_string(), "carol".to_string(), 200, 1, vec![]);
    let _ = resolver.observe(&tx_a, "node_x", 0);
    let _ = resolver.observe(&tx_b, "node_x", 0);
    resolver.record_vote(ConflictVote { voter: "voter1".to_string(), sender: "alice".to_string(), nonce: 1, favored_tx: tx_a.hash, step: 0 });
    resolver.record_vote(ConflictVote { voter: "voter1".to_string(), sender: "alice".to_string(), nonce: 1, favored_tx: tx_b.hash, step: 0 });
    assert_eq!(resolver.pending_count(), 1);
    assert!(resolver.expired_conflicts(19).is_empty());
    assert_eq!(resolver.expired_conflicts(20), vec![("alice".to_string(), 1)]);
    let mut losers = resolver.losers_for("alice", 1, tx_a.hash);
    losers.sort();
    assert_eq!(losers, vec![tx_b.hash]);
    assert!(resolver.take_expired("alice", 1, 19).is_none());
    let mut votes = resolver.take_expired("alice", 1, 25).expect("window passed");
    votes.sort();
    let mut expected = vec![("node_x".to_string(), std::cmp::min(tx_a.hash, tx_b.hash)), ("voter1".to_string(), tx_b.hash)];
    expected.sort();
    assert_eq!(votes, expected);
    assert_eq!(resolver.pending_count(), 0);
    assert_eq!(resolver.losers_for("alice", 1, tx_a.hash), vec![tx_b.hash]);
    assert!(resolver.losers_for("alice", 2, tx_a.hash).is_empty());
}

#[test]
fn a_vote_for_an_unknown_conflict_starts_it() {
    let mut resolver = ConflictResolver::default();
    resolver.record_vote(ConflictVote { voter: "v".to_string(), sender: "s".to_string(), nonce: 4, favored_tx: [3u8; 32], step: 100 });
    assert!(resolver.expired_conflicts(119).is_empty());
    assert_eq!(resolver.expired_conflicts(120).len(), 1);
}
