use neurograph::config::N_SHARDS;
use neurograph::sharding::{is_intra_shard, shard_of_address, shards_of, ShardSet};
use neurograph::transaction::Transaction;
use sha2::Digest;

#[test]
fn test_shard_assignment_deterministic() {
    let s1 = shard_of_address("alice");
    let s2 = shard_of_address("alice");
    assert_eq!(s1, s2, "Same address must always map to same shard");
    assert!(s1 < N_SHARDS);
}

#[test]
fn test_different_addresses_different_shards_likely() {
    let mut shards = std::collections::HashSet::new();
    for i in 0..20 {
        shards.insert(shard_of_address(&format!("addr_{}", i)));
    }
    assert!(shards.len() >= 8, "20 addresses should map to at least 8 different shards, got {}", shards.len());
}

#[test]
fn test_intra_shard_detection() {
    let target_shard = shard_of_address("alice");
    let mut bob_shard_addr = String::new();
    for i in 0..10000 {
        let addr = format!("bob_{}", i);
        if shard_of_address(&addr) == target_shard {
            bob_shard_addr = addr;
            break;
        }
    }
    assert!(!bob_shard_addr.is_empty(), "Should find an address in the same shard as alice");
    let tx = Transaction::new_with_nonce("alice".to_string(), bob_shard_addr, 100, 1, vec![]);
    assert!(is_intra_shard(&tx), "Same-shard tx must be detected as intra-shard");
}

#[test]
fn test_shard_set_legacy_mode() {
    let s = ShardSet::all();
    assert!(!s.is_sharded());
    assert!(s.contains(0));
    assert!(s.contains(15));
    assert!(s.contains(100));
}

#[test]
fn test_shard_set_subset_mode() {
    let s = ShardSet::only(&[0, 5, 10]);
    assert!(s.is_sharded());
    assert!(s.contains(0));
    assert!(s.contains(5));
    assert!(s.contains(10));
    assert!(!s.contains(1));
    assert!(!s.contains(15));
}

#[test]
fn test_processes_tx() {
    let mut alice_shard0 = String::new();
    for i in 0..10000 {
        let addr = format!("alice_{}", i);
        if shard_of_address(&addr) == 0 {
            alice_shard0 = addr;
            break;
        }
    }
    assert!(!alice_shard0.is_empty(), "Should find an address in shard 0 within 10000 tries");
    let s = ShardSet::only(&[0]);
    let tx = Transaction::new_with_nonce(alice_shard0, "bob".to_string(), 100, 1, vec![]);
    assert!(s.processes_tx(&tx), "Shard 0 node should process tx from shard 0 sender");
    let s_other = ShardSet::only(&[1]);
    assert!(!s_other.processes_tx(&tx), "Shard 1 node should NOT process tx from shard 0 sender");
}

#[test]
fn shard_of_address_matches_digest_prefix() {
    let d = sha2::Sha512_256::digest("alice".as_bytes());
    let first = d[0] as u64 + 256 * d[1] as u64 + 65536 * d[2] as u64 + 16777216 * d[3] as u64;
    assert_eq!(shard_of_address("alice") as u64, first % 961);
}

#[test]
fn shard_set_list_is_sorted_and_deduplicated() {
    let s = ShardSet::only(&[10, 5, 10, 0]);
    assert_eq!(s.list(), Some(vec![0, 5, 10]));
    assert_eq!(ShardSet::all().list(), None);
    let tx = Transaction::new_with_nonce("alice".to_string(), "bob".to_string(), 1, 1, vec![]);
    let (a, b) = shards_of(&tx);
    assert_eq!(a, shard_of_address("alice"));
    assert_eq!(b, shard_of_address("bob"));
}
