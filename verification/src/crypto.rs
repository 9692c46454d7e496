//! The cryptographic primitives the ledger relies on: SHA-512/256 digests and
//! Ed25519 signatures (sha2 and ed25519-dalek), the wall clock and the random
//! source. Every item here is trusted: its contract is believed, not proved.
use vstd::prelude::*;
use sha2::Digest;
use ed25519_dalek::{Signer, Verifier};

verus! {

/// Opaque handle on an `ed25519_dalek::SigningKey`.
#[verifier::external_type_specification]
#[verifier::external_body]
pub struct ExSigningKey(ed25519_dalek::SigningKey);

/// Opaque handle on an `ed25519_dalek::VerifyingKey`.
#[verifier::external_type_specification]
#[verifier::external_body]
pub struct ExVerifyingKey(ed25519_dalek::VerifyingKey);

/// The 32-byte public key of the Ed25519 key pair derived from a 32-byte seed
/// (`SigningKey::from_bytes(seed).verifying_key().to_bytes()`).
pub uninterp spec fn ed25519_seed_public_key(seed: Seq<u8>) -> Seq<u8>;

/// The signing key `ed25519_dalek::SigningKey::from_bytes` makes of a 32-byte
/// seed (the key is the seed together with what is derived from it).
pub uninterp spec fn ed25519_seed_key(seed: Seq<u8>) -> ed25519_dalek::SigningKey;

/// The 64-byte Ed25519 signature that the key made of `seed` gives `message`
/// (`SigningKey::from_bytes(seed).sign(message)`; Ed25519 signing is
/// deterministic in the key and the message).
pub uninterp spec fn ed25519_seed_signature(seed: Seq<u8>, message: Seq<u8>) -> Seq<u8>;

/// What `sha2::Sha512_256::digest` returns for the given input bytes.
pub uninterp spec fn sha512_256_digest(data: Seq<u8>) -> Seq<u8>;

/// Whether `ed25519_dalek::VerifyingKey::from_bytes` accepts these 32 bytes
/// (they decompress to a curve point).
pub uninterp spec fn ed25519_key_decodes(public_key: Seq<u8>) -> bool;

/// Whether `ed25519_dalek::VerifyingKey::verify` accepts `signature` on `message`
/// under the key decoded from `public_key`.
pub uninterp spec fn ed25519_verifies(public_key: Seq<u8>, message: Seq<u8>, signature: Seq<u8>) -> bool;

/// Whether `ed25519_dalek::verify_batch` accepts the whole batch. The crate
/// derives its randomising coefficients from a transcript of the inputs, so the
/// outcome is a function of the inputs alone.
pub uninterp spec fn ed25519_batch_accepts(
    messages: Seq<Seq<u8>>,
    signatures: Seq<Seq<u8>>,
    public_keys: Seq<Seq<u8>>,
) -> bool;

/// `sha2::Sha512_256::digest`: the 32-byte SHA-512/256 digest of `data`.
/// The contract names the digest and claims nothing else.
#[verifier::external_body]
pub(crate) fn sha512_256(data: &[u8]) -> (h: [u8; 32])
    ensures
        h@ == sha512_256_digest(data@),
{
    let d = sha2::Sha512_256::digest(data);
    let mut h = [0u8; 32];
    h.copy_from_slice(&d);
    h
}

/// `ed25519_dalek::VerifyingKey::from_bytes`: the contract claims only that the
/// answer is the named decodability of the bytes.
#[verifier::external_body]
pub(crate) fn ed25519_public_key_is_valid(public_key: &[u8; 32]) -> (ok: bool)
    ensures
        ok == ed25519_key_decodes(public_key@),
{
    ed25519_dalek::VerifyingKey::from_bytes(public_key).is_ok()
}

/// `ed25519_dalek::VerifyingKey::verify` (after decoding the key with
/// `from_bytes` and the signature with `Signature::from_bytes`): true exactly when
/// the key decodes and the crate accepts the signature.
#[verifier::external_body]
pub(crate) fn ed25519_verify(public_key: &[u8; 32], message: &[u8], signature: &[u8]) -> (ok: bool)
    requires
        signature@.len() == 64,
    ensures
        ok == (ed25519_key_decodes(public_key@) && ed25519_verifies(public_key@, message@, signature@)),
{
    match ed25519_dalek::VerifyingKey::from_bytes(public_key) {
        Ok(vk) => vk.verify(message, &ed25519_dalek::Signature::from_slice(signature).expect("64 bytes")).is_ok(),
        Err(_) => false,
    }
}

/// `ed25519_dalek::SigningKey::sign` together with `SigningKey::verifying_key`:
/// returns the 64-byte signature of `message` and the 32-byte public key of the
/// signing key. The contract claims what Ed25519 guarantees of an honestly made
/// signature (the public key decodes and `verify` accepts the signature) and,
/// for a key made from a seed, that the public key and the signature are those
/// of that seed.
#[verifier::external_body]
pub(crate) fn ed25519_sign(key: &ed25519_dalek::SigningKey, message: &[u8]) -> (r: ([u8; 64], [u8; 32]))
    ensures
        ed25519_key_decodes(r.1@),
        ed25519_verifies(r.1@, message@, r.0@),
        forall|seed: Seq<u8>| #[trigger] ed25519_seed_key(seed) == *key
            ==> r.1@ == ed25519_seed_public_key(seed) && r.0@ == ed25519_seed_signature(seed, message@),
{
    (key.sign(message).to_bytes(), key.verifying_key().to_bytes())
}

/// `ed25519_dalek::verify_batch` on parallel lists of messages, signatures and
/// public keys (every key must decode, as the caller checks beforehand).
/// The contract names the crate's verdict on the batch.
#[verifier::external_body]
pub(crate) fn ed25519_verify_batch(
    messages: &Vec<Vec<u8>>,
    signatures: &Vec<Vec<u8>>,
    public_keys: &Vec<[u8; 32]>,
) -> (ok: bool)
    requires
        messages@.len() == signatures@.len(),
        messages@.len() == public_keys@.len(),
        forall|i: int| 0 <= i < public_keys@.len() ==> ed25519_key_decodes(#[trigger] public_keys@[i]@),
        forall|i: int| 0 <= i < signatures@.len() ==> (#[trigger] signatures@[i])@.len() == 64,
    ensures
        ok == ed25519_batch_accepts(messages.deep_view(), signatures.deep_view(), public_keys.deep_view()),
{
    let msgs: Vec<&[u8]> = messages.iter().map(|m| m.as_slice()).collect();
    let sigs: Vec<ed25519_dalek::Signature> =
        signatures.iter().map(|s| ed25519_dalek::Signature::from_slice(s).expect("64 bytes")).collect();
    let keys: Vec<ed25519_dalek::VerifyingKey> =
        public_keys.iter().map(|k| ed25519_dalek::VerifyingKey::from_bytes(k).expect("decodable key")).collect();
    ed25519_dalek::verify_batch(&msgs, &sigs, &keys).is_ok()
}

/// `ed25519_dalek::SigningKey::from_bytes` on a 32-byte seed, with the key's
/// `verifying_key()` and that key's `to_bytes()`: the key made of the seed and
/// its public key bytes.
#[verifier::external_body]
pub(crate) fn ed25519_keys_from_seed(seed: &[u8; 32]) -> (r: (ed25519_dalek::SigningKey, ed25519_dalek::VerifyingKey, [u8; 32]))
    ensures
        r.0 == ed25519_seed_key(seed@),
        r.2@ == ed25519_seed_public_key(seed@),
{
    let sk = ed25519_dalek::SigningKey::from_bytes(seed);
    let vk = sk.verifying_key();
    let pk = vk.to_bytes();
    (sk, vk, pk)
}

/// `ring::signature::Ed25519KeyPair::generate_pkcs8` with `ring::rand::SystemRandom`:
/// a fresh key pair made from a random seed, as a PKCS#8 v2 document, or `None`
/// when the random source fails. The document is ring's fixed 19-byte template
/// with the 32-byte seed and the 32-byte public key written into it, so it is
/// always 83 bytes long; its content depends on chance and is not claimed.
#[verifier::external_body]
pub(crate) fn generate_ed25519_pkcs8() -> (r: Option<Vec<u8>>)
    ensures
        r matches Some(doc) ==> doc@.len() == 83,
{
    let rng = ring::rand::SystemRandom::new();
    match ring::signature::Ed25519KeyPair::generate_pkcs8(&rng) {
        Ok(doc) => Some(doc.as_ref().to_vec()),
        Err(_) => None,
    }
}

/// The wall clock, `SystemTime::now()` as whole seconds since the Unix epoch
/// (0 if the clock reads before the epoch). Nothing is claimed of the value.
#[verifier::external_body]
pub(crate) fn now_unix_secs() -> u64 {
    std::time::SystemTime::now()
        .duration_since(std::time::UNIX_EPOCH)
        .unwrap_or_default()
        .as_secs()
}

/// `rand::random::<u64>()`: a random 64-bit value; nothing is claimed of it.
/// As rand documents, it panics if the operating system's random source fails
/// when the thread's generator is first seeded; that is a failure of the
/// environment, which no argument could rule out.
#[verifier::external_body]
pub(crate) fn random_u64() -> u64 {
    rand::random::<u64>()
}

} // verus!
