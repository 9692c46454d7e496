use neurograph::attack::AttackType;
use neurograph::attack_detection::{coordinated_members, CloneDetector, CoordinationDetector};
use neurograph::incentives::FeePool;
use neurograph::mempool::Mempool;
use neurograph::security::{mine_pow, verify_pow};
use neurograph::state::StateManager;
use neurograph::transaction::Transaction;
use neurograph::utils::{hash_set_hash, intersection_count};
use neurograph::wallet::{extract_seed_from_pkcs8, Wallet};
use sha2::Digest;

#[test]
fn pow_mining_finds_the_first_valid_nonce() {
    let n = mine_pow("node-7", 2).expect("a nonce exists");
    assert!(verify_pow(n, "node-7", 2));
    for m in 0..n {
        assert!(!verify_pow(m, "node-7", 2));
    }
    let hex: String = sha2::Sha512_256::digest(format!("node-7{}", n).as_bytes()).iter().map(|b| format!("{:02x}", b)).collect();
    assert!(hex.starts_with("00"));
    assert!(verify_pow(12345, "anything", 0));
}

#[test]
fn attack_names_parse() {
    assert_eq!(AttackType::from_str("coordinated"), AttackType::Coordinated);
    assert_eq!(AttackType::from_str("random"), AttackType::RandomNoise);
    assert_eq!(AttackType::from_str("sybil"), AttackType::Sybil);
    assert_eq!(AttackType::from_str("clone"), AttackType::Clone);
    assert_eq!(AttackType::from_str("nonsense"), AttackType::Honest);
}

#[test]
fn set_hash_ignores_order() {
    let a = [3u8; 32];
    let b = [1u8; 32];
    let c = [2u8; 32];
    assert_eq!(hash_set_hash(&[a, b, c]), hash_set_hash(&[c, a, b]));
    let mut cat = Vec::new();
    cat.extend_from_slice(&b);
    cat.extend_from_slice(&c);
    cat.extend_from_slice(&a);
    assert_eq!(hash_set_hash(&[a, b, c]).to_vec(), sha2::Sha512_256::digest(&cat).to_vec());
    assert_eq!(intersection_count(&[a, b, b], &[b, c]), 2);
    assert_eq!(intersection_count(&[], &[b]), 0);
}

#[test]
fn wallet_seed_and_public_key() {
    assert!(extract_seed_from_pkcs8(&[0u8; 47]).is_none());
    let doc: Vec<u8> = (0u8..48).collect();
    assert_eq!(extract_seed_from_pkcs8(&doc).unwrap(), (16u8..48).collect::<Vec<u8>>());
    let seed = vec![7u8; 32];
    let w = Wallet::from_seed(doc.clone(), seed.clone());
    let expected = ed25519_dalek::SigningKey::from_bytes(&[7u8; 32]).verifying_key().to_bytes();
    let hex: String = expected.iter().map(|b| format!("{:02x}", b)).collect();
    assert_eq!(w.public_key_hex, hex);
    assert_eq!(w.short_id(), hex[..8].to_string());
    assert_eq!(w.signing_key_clone().to_bytes(), [7u8; 32]);
}

#[test]
fn fee_pool_shares_in_proportion() {
    let mut pool = FeePool::new();
    pool.collect(100);
    pool.collect(u64::MAX);
    assert_eq!(pool.pool_balance(), u64::MAX);
    let mut pool = FeePool::default();
    pool.collect(1000);
    assert!(!pool.should_distribute(0));
    assert!(!pool.should_distribute(999));
    assert!(pool.should_distribute(1000));
    let mut state = StateManager::new("s".to_string());
    let eligible = vec![("a".to_string(), 1), ("b".to_string(), 2), ("c".to_string(), 0)];
    let (amount, shares) = pool.distribute_epoch_rewards(1000, 500, &eligible, &mut state);
    assert_eq!(shares, vec![("a".to_string(), 166), ("b".to_string(), 333)]);
    assert_eq!(amount, 499);
    assert_eq!(pool.pool_balance(), 501);
    assert_eq!(pool.last_epoch_step, 1000);
    assert_eq!(pool.distributed_per_epoch, vec![(1000, 499)]);
    assert_eq!(state.get_balance("b"), 333);
    let (again, _) = pool.compute_epoch_rewards(1500, 500, &eligible);
    assert_eq!(again, 0);
    assert_eq!(pool.last_epoch_step, 1000);
    let (none, empty) = pool.compute_epoch_rewards(2000, 0, &eligible);
    assert_eq!((none, empty.len()), (0, 0));
    assert_eq!(pool.last_epoch_step, 2000);
}

#[test]
fn mempool_orders_by_arrival_and_enforces_capacity() {
    let mut m = Mempool::new(2, "m".to_string());
    let a = Transaction::new_with_nonce("a".to_string(), "b".to_string(), 1, 1, vec![]);
    let b = Transaction::new_with_nonce("c".to_string(), "b".to_string(), 1, 1, vec![]);
    let c = Transaction::new_with_nonce("d".to_string(), "b".to_string(), 1, 1, vec![]);
    let (ha, hb) = (a.hash, b.hash);
    assert!(m.add(a));
    assert!(m.add(b));
    assert!(!m.add(c));
    assert_eq!(m.get_oldest_tx().unwrap().hash, ha);
    let order: Vec<[u8; 32]> = m.get_all_by_arrival().iter().map(|t| t.hash).collect();
    assert_eq!(order, vec![ha, hb]);
    let again = Transaction::new_with_nonce("a".to_string(), "z".to_string(), 9, 1, vec![]);
    assert!(!m.add(again));
    assert_eq!(m.remove(&ha).unwrap().hash, ha);
    assert!(m.is_known_nonce("a", 1));
    let older = Transaction::new_with_nonce("a".to_string(), "z".to_string(), 9, 0, vec![]);
    assert!(!m.add(older));
    assert_eq!(m.len(), 1);
}

#[test]
fn state_transfers_debit_cost_and_credit_amount() {
    let mut s = StateManager::new("s".to_string());
    s.genesis_allocate("alice");
    let t = Transaction::new_with_fee("alice".to_string(), "bob".to_string(), 300, 1, 5, vec![]);
    assert!(s.apply_tx(&t));
    assert_eq!(s.get_balance("alice"), 1_000_000 - 305);
    assert_eq!(s.get_balance("bob"), 300);
    let too_much = Transaction::new_with_fee("bob".to_string(), "alice".to_string(), 300, 1, 1, vec![]);
    let root = s.state_root();
    assert!(!s.apply_tx(&too_much));
    assert_eq!(s.state_root(), root);
    assert_eq!(s.top_balances(1), vec![("alice".to_string(), 1_000_000 - 305)]);
}

#[test]
fn coordinated_clusters_need_three_members() {
    let flags = coordinated_members(5, &vec![(0, 1), (1, 2), (3, 4)]);
    assert_eq!(flags, vec![true, true, true, false, false]);
    let mut det = CoordinationDetector::new();
    let senders = vec!["a".to_string(), "b".to_string(), "c".to_string(), "d".to_string()];
    let flagged = det.detect_clusters(&senders, &vec![(2, 0), (0, 1)]);
    assert_eq!(flagged, vec!["a".to_string(), "b".to_string(), "c".to_string()]);
    let again = det.detect_clusters(&senders, &vec![(2, 0), (0, 1)]);
    assert_eq!(again.len(), 3);
    let mut counts = det.detection_count().clone();
    counts.sort();
    assert_eq!(counts, vec![("a".to_string(), 2), ("b".to_string(), 2), ("c".to_string(), 2)]);
}

#[test]
fn clones_are_confirmed_after_five_suspect_steps() {
    let mut det = CloneDetector::new();
    let nodes = vec!["copy".to_string(), "honest".to_string()];
    for _ in 0..4 {
        assert!(det.update_streaks(&nodes, &vec![true, false]).is_empty());
    }
    assert_eq!(det.update_streaks(&nodes, &vec![true, false]), vec!["copy".to_string()]);
    assert!(det.update_streaks(&nodes, &vec![false, false]).is_empty());
    assert_eq!(det.confirmed_clones().clone(), vec![("copy".to_string(), 1)]);
}

#[test]
fn balances_written_out_reload_unchanged() {
    let mut state = StateManager::new("a.json".to_string());
    state.genesis_allocate("alice");
    state.mint("bob", 42);
    let data = state.to_data();
    let mut again = StateManager::new("b.json".to_string());
    again.load_balances(&data.balances);
    assert_eq!(again.len(), 2);
    assert_eq!(again.get_balance("alice"), 1_000_000);
    assert_eq!(again.get_balance("bob"), 42);
    assert_eq!(again.state_root(), state.state_root());
}

#[test]
fn pool_written_out_reloads_its_transactions_and_nonces() {
    let key = ed25519_dalek::SigningKey::generate(&mut rand::rngs::OsRng);
    let mut pool = Mempool::new(10, "p.json".to_string());
    for n in 1..=3u64 {
        let mut tx = Transaction::new_with_nonce("alice".to_string(), "bob".to_string(), 5, n, vec![]);
        tx.sign(&key);
        assert!(pool.add(tx));
    }
    let data = pool.to_data();
    let mut again = Mempool::new(10, "q.json".to_string());
    again.load_data(&data);
    assert_eq!(again.len(), 3);
    assert_eq!(again.get_last_nonce("alice"), Some(3));
    let mut a = pool.get_all_hashes();
    let mut b = again.get_all_hashes();
    a.sort();
    b.sort();
    assert_eq!(a, b);
    let first_before = pool.get_oldest_tx().map(|t| t.hash);
    let first_after = again.get_oldest_tx().map(|t| t.hash);
    assert_eq!(first_before, first_after);
}

#[test]
fn a_wallet_signs_with_the_key_of_its_seed() {
    let seed = [9u8; 32];
    let w = Wallet::from_seed(vec![0u8; 48], seed.to_vec());
    let reference = ed25519_dalek::SigningKey::from_bytes(&seed);
    assert_eq!(w.signing_key.to_bytes(), seed);
    let mut a = Transaction::new_with_nonce("alice".to_string(), "bob".to_string(), 3, 1, vec![]);
    let mut b = a.duplicate();
    a.sign(&w.signing_key_clone());
    b.sign(&reference);
    assert_eq!(a.signature, b.signature);
    assert_eq!(a.public_key, Some(reference.verifying_key().to_bytes()));
    assert!(a.verify_signature());
}

#[test]
fn a_generated_wallet_derives_its_key_from_its_document() {
    let w = Wallet::generate().expect("the system random source works");
    assert_eq!(w.pkcs8_bytes.len(), 83);
    assert_eq!(w.seed_bytes, w.pkcs8_bytes[w.pkcs8_bytes.len() - 32..].to_vec());
    let seed: [u8; 32] = w.seed_bytes.clone().try_into().unwrap();
    let expected = ed25519_dalek::SigningKey::from_bytes(&seed).verifying_key().to_bytes();
    let hex: String = expected.iter().map(|b| format!("{:02x}", b)).collect();
    assert_eq!(w.public_key_hex, hex);
    let other = Wallet::generate().unwrap();
    assert_ne!(other.pkcs8_bytes, w.pkcs8_bytes);
}

fn balance_total(s: &StateManager) -> u128 {
    s.to_data().balances.iter().map(|(_, b)| *b as u128).sum()
}

#[test]
fn a_transfer_takes_exactly_its_fee_out_of_circulation() {
    let mut state = StateManager::new("s".to_string());
    state.mint("alice", 1000);
    state.mint("bob", 40);
    state.mint("carol", 7);
    let before = balance_total(&state);
    let tx = Transaction::new_with_fee("alice".to_string(), "bob".to_string(), 300, 1, 25, vec![]);
    assert!(state.apply_tx(&tx));
    assert_eq!(balance_total(&state), before - 25);
    assert_eq!(state.get_balance("alice"), 675);
    assert_eq!(state.get_balance("bob"), 340);
    let too_much = Transaction::new_with_fee("carol".to_string(), "bob".to_string(), 5, 2, 3, vec![]);
    assert!(!state.apply_tx(&too_much));
    assert_eq!(balance_total(&state), before - 25);
}

#[test]
fn an_epoch_distribution_credits_exactly_the_amount_it_reports() {
    let eligible = vec![("a".to_string(), 3), ("b".to_string(), 4), ("c".to_string(), 5)];
    let mut probe = FeePool::new();
    probe.collect(1000);
    let (computed, computed_shares) = probe.compute_epoch_rewards(1000, 700, &eligible);
    let mut pool = FeePool::new();
    pool.collect(1000);
    let mut state = StateManager::new("s".to_string());
    state.mint("a", 10);
    let before = balance_total(&state);
    let (amount, shares) = pool.distribute_epoch_rewards(1000, 700, &eligible, &mut state);
    assert_eq!((amount, shares.clone()), (computed, computed_shares));
    assert_eq!(amount, 175 + 233 + 291);
    assert_eq!(balance_total(&state), before + amount as u128);
    assert_eq!(pool.pool_balance(), 1000 - amount);
    assert_eq!(state.get_balance("a"), 10 + 175);
    assert_eq!(state.get_balance("b"), 233);
    assert_eq!(state.get_balance("c"), 291);
    assert_eq!(state.get_balance("z"), 0);
}
