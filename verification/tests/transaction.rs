use ed25519_dalek::SigningKey;
use neurograph::cross_shard::TxKind;
use neurograph::transaction::{hex_encode, Transaction};
use rand::rngs::OsRng;
use ring::signature::{Ed25519KeyPair as RingKeyPair, KeyPair as _};
use sha2::Digest;

#[test]
fn test_sign_and_verify_individual() {
    let mut rng = OsRng;
    let signing_key = SigningKey::generate(&mut rng);
    let mut tx = Transaction::new_with_nonce("alice".to_string(), "bob".to_string(), 100, 1, vec![]);
    tx.sign(&signing_key);
    assert!(tx.verify_signature(), "Just-signed tx must verify");
}

#[test]
fn test_verify_rejects_tampered_tx() {
    let mut rng = OsRng;
    let signing_key = SigningKey::generate(&mut rng);
    let mut tx = Transaction::new_with_nonce("alice".to_string(), "bob".to_string(), 100, 1, vec![]);
    tx.sign(&signing_key);
    tx.amount = 999;
    assert!(!tx.verify_signature(), "Tampered tx must fail verification");
}

#[test]
fn test_verify_batch_all_valid() {
    let mut rng = OsRng;
    let mut txs: Vec<Transaction> = Vec::new();
    for i in 0..10 {
        let sk = SigningKey::generate(&mut rng);
        let mut tx = Transaction::new_with_nonce(format!("alice_{}", i), "bob".to_string(), 100, i + 1, vec![]);
        tx.sign(&sk);
        txs.push(tx);
    }
    let refs: Vec<&Transaction> = txs.iter().collect();
    let results = Transaction::verify_batch(&refs);
    assert_eq!(results.len(), 10);
    assert!(results.iter().all(|&r| r), "All txs should be valid");
}

#[test]
fn test_verify_batch_with_one_invalid() {
    let mut rng = OsRng;
    let mut txs: Vec<Transaction> = Vec::new();
    for i in 0..5 {
        let sk = SigningKey::generate(&mut rng);
        let mut tx = Transaction::new_with_nonce(format!("alice_{}", i), "bob".to_string(), 100, i + 1, vec![]);
        tx.sign(&sk);
        txs.push(tx);
    }
    txs[2].amount = 999;
    let refs: Vec<&Transaction> = txs.iter().collect();
    let results = Transaction::verify_batch(&refs);
    assert_eq!(results.len(), 5);
    assert!(!results[2], "Tampered tx should fail");
    for i in [0, 1, 3, 4] {
        assert!(results[i], "Tx {} should be valid", i);
    }
}

#[test]
fn test_compatibility_ring_and_dalek_interswappable() {
    let rng = ring::rand::SystemRandom::new();
    let pkcs8 = RingKeyPair::generate_pkcs8(&rng).unwrap();
    let ring_kp = RingKeyPair::from_pkcs8(pkcs8.as_ref()).unwrap();
    let seed = &pkcs8.as_ref()[pkcs8.as_ref().len() - 32..];
    let mut seed_arr = [0u8; 32];
    seed_arr.copy_from_slice(seed);
    let dalek_sk = SigningKey::from_bytes(&seed_arr);

    let mut tx1 = Transaction::new_with_nonce("alice".to_string(), "bob".to_string(), 100, 1, vec![]);
    let msg = tx1.compute_hash();
    let ring_sig = ring_kp.sign(&msg);
    tx1.signature = Some(ring_sig.as_ref().to_vec());
    tx1.public_key = Some(ring_kp.public_key().as_ref().try_into().unwrap());
    assert!(tx1.verify_signature(), "Tx signed with ring must verify with ed25519-dalek (same algorithm)");

    let mut tx2 = Transaction::new_with_nonce("alice".to_string(), "bob".to_string(), 100, 2, vec![]);
    tx2.sign(&dalek_sk);
    assert!(tx2.verify_signature());
}

#[test]
fn preimage_has_the_documented_layout() {
    let tx = Transaction::new_with_kind("a".to_string(), "b".to_string(), 7, 3, 2, vec![[1u8; 32]], TxKind::Lock);
    let expected = format!("a|b|7|2|3|{}|{:?}|Lock", tx.timestamp, vec![[1u8; 32]]);
    assert_eq!(tx.preimage(), expected.into_bytes());
    let d = sha2::Sha512_256::digest(tx.preimage());
    assert_eq!(tx.compute_hash().to_vec(), d.to_vec());
    assert_eq!(tx.hash, tx.compute_hash());
}

#[test]
fn unsigned_or_malformed_signatures_fail() {
    let mut tx = Transaction::new_with_nonce("a".to_string(), "b".to_string(), 1, 1, vec![]);
    assert!(!tx.verify_signature());
    tx.signature = Some(vec![0u8; 10]);
    tx.public_key = Some([0u8; 32]);
    assert!(!tx.verify_signature());
    let refs = vec![&tx];
    assert_eq!(Transaction::verify_batch(&refs), vec![false]);
}

#[test]
fn total_cost_saturates_and_hex_encodes() {
    let mut tx = Transaction::new_with_fee("a".to_string(), "b".to_string(), u64::MAX, 1, 5, vec![]);
    assert_eq!(tx.total_cost(), u64::MAX);
    tx.amount = 10;
    assert_eq!(tx.total_cost(), 15);
    assert_eq!(hex_encode(&[0u8, 15, 16, 255]), "000f10ff");
    let d = tx.duplicate();
    assert_eq!(d.hash, tx.hash);
    assert_eq!(d.fee, 5);
    assert_eq!(Transaction::new("a".to_string(), "b".to_string(), 3, vec![]).fee, 1);
}

#[test]
fn display_names_parties_amounts_and_hash_prefix() {
    let tx = Transaction::new_with_fee("alice".to_string(), "bob".to_string(), 100, 7, 2, vec![]);
    let expected = format!(
        "Tx(alice -> bob: 100 milliANGP (fee=2), nonce=7, hash=[{}, {}, {}, {}])",
        tx.hash[0], tx.hash[1], tx.hash[2], tx.hash[3]
    );
    assert_eq!(tx.to_display_string(), expected);
}
