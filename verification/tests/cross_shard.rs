use neurograph::config::CROSS_SHARD_RECEIPT_EXPIRY;
use neurograph::cross_shard::{CrossShardManager, CrossShardReceipt};
use neurograph::sharding::shard_of_address;
use neurograph::transaction::Transaction;
use sha2::Digest;

#[test]
fn test_receipt_deterministic_hash() {
    let tx = Transaction::new_with_nonce("alice".to_string(), "bob".to_string(), 100, 1, vec![]);
    let r1 = CrossShardReceipt::from_tx(&tx, 42);
    let r2 = CrossShardReceipt::from_tx(&tx, 42);
    assert_eq!(r1.receipt_hash(), r2.receipt_hash(), "Same receipt must always have same hash");
}

#[test]
fn test_receipt_expiry() {
    let tx = Transaction::new_with_nonce("alice".to_string(), "bob".to_string(), 100, 1, vec![]);
    let r = CrossShardReceipt::from_tx(&tx, 100);
    assert!(!r.is_expired(200));
    assert!(!r.is_expired(100 + CROSS_SHARD_RECEIPT_EXPIRY));
    assert!(r.is_expired(100 + CROSS_SHARD_RECEIPT_EXPIRY + 1));
}

#[test]
fn test_receipt_validity_cross_shard() {
    let mut alice_addr = String::new();
    let mut bob_addr = String::new();
    let alice_shard = shard_of_address("alice");
    for i in 0..1000 {
        let addr = format!("bob_{}", i);
        if shard_of_address(&addr) != alice_shard {
            bob_addr = addr;
            alice_addr = "alice".to_string();
            break;
        }
    }
    assert!(!alice_addr.is_empty(), "Should find cross-shard addresses");
    let tx = Transaction::new_with_nonce(alice_addr, bob_addr, 100, 1, vec![]);
    let r = CrossShardReceipt::from_tx(&tx, 42);
    assert!(r.is_valid(), "Cross-shard receipt should be valid");
    assert_ne!(r.from_shard, r.to_shard);
}

#[test]
fn test_receipt_validity_intra_shard_rejected() {
    let alice_shard = shard_of_address("alice");
    let mut bob_addr = String::new();
    for i in 0..1000 {
        let addr = format!("bob_{}", i);
        if shard_of_address(&addr) == alice_shard {
            bob_addr = addr;
            break;
        }
    }
    let tx = Transaction::new_with_nonce("alice".to_string(), bob_addr, 100, 1, vec![]);
    let r = CrossShardReceipt::from_tx(&tx, 42);
    assert!(!r.is_valid(), "Intra-shard receipt should NOT be valid (must be cross-shard)");
}

#[test]
fn test_cross_shard_manager_register_and_consume() {
    let mut mgr = CrossShardManager::new();
    let tx = Transaction::new_with_nonce("alice".to_string(), "bob".to_string(), 100, 1, vec![]);
    let r = CrossShardReceipt::from_tx(&tx, 42);
    let h = r.receipt_hash();
    mgr.register_outgoing(r.clone());
    let (out, inc) = mgr.pending_count();
    assert_eq!(out, 1);
    assert_eq!(inc, 0);
    let consumed = mgr.consume(&h);
    assert!(consumed.is_some());
    let (out2, _) = mgr.pending_count();
    assert_eq!(out2, 0);
    assert!(mgr.is_consumed(&h));
}

#[test]
fn test_expired_receipts_collected() {
    let mut mgr = CrossShardManager::new();
    let tx = Transaction::new_with_nonce("alice".to_string(), "bob".to_string(), 100, 1, vec![]);
    let r = CrossShardReceipt::from_tx(&tx, 100);
    mgr.register_outgoing(r);
    let expired = mgr.expired_receipts(100 + CROSS_SHARD_RECEIPT_EXPIRY + 1);
    assert_eq!(expired.len(), 1);
    let (out, _) = mgr.pending_count();
    assert_eq!(out, 0);
}

#[test]
fn consuming_twice_yields_nothing_the_second_time() {
    let mut mgr = CrossShardManager::new();
    let tx = Transaction::new_with_nonce("alice".to_string(), "bob".to_string(), 5, 9, vec![]);
    let r = CrossShardReceipt::from_tx(&tx, 1);
    let h = r.receipt_hash();
    mgr.register_incoming(r.clone());
    mgr.register_incoming(r.clone());
    assert_eq!(mgr.pending_count(), (0, 1));
    assert!(mgr.is_pending_incoming(&h));
    assert!(mgr.consume(&h).is_some());
    assert!(mgr.consume(&h).is_none());
    assert!(!mgr.is_pending_incoming(&h));
    assert!(mgr.is_consumed(&h));
    assert!(mgr.consume(&[0u8; 32]).is_none());
}

#[test]
fn receipt_hash_digests_the_documented_preimage() {
    let tx = Transaction::new_with_nonce("alice".to_string(), "bob".to_string(), 100, 7, vec![]);
    let r = CrossShardReceipt::from_tx(&tx, 42);
    let hex: String = r.source_tx_hash.iter().map(|b| format!("{:02x}", b)).collect();
    let expected = format!("{}|alice|bob|100|{}|{}|42|7", hex, r.from_shard, r.to_shard);
    assert_eq!(r.preimage(), expected.clone().into_bytes());
    assert_eq!(r.receipt_hash().to_vec(), sha2::Sha512_256::digest(expected.as_bytes()).to_vec());
    assert_eq!(r.receipt_nonce, 7);
    assert_eq!(r.amount, 100);
}

#[test]
fn expiry_uses_exact_arithmetic_near_the_top() {
    let tx = Transaction::new_with_nonce("a".to_string(), "b".to_string(), 1, 1, vec![]);
    let r = CrossShardReceipt::from_tx(&tx, u64::MAX - 10);
    assert!(!r.is_expired(u64::MAX));
    assert!(!r.is_expired(0));
}
