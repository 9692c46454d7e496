//! A node's persistent Ed25519 identity: the PKCS#8 document kept on disk, the
//! 32-byte seed inside it, and the key pair derived from the seed.
use vstd::prelude::*;
use crate::crypto::{ed25519_keys_from_seed, ed25519_seed_key, ed25519_seed_public_key, generate_ed25519_pkcs8};
use crate::hex::hex_of;
use crate::transaction::{encode_utf8_chars, hex_encode};

verus! {

/// A node's identity.
pub struct Wallet {
    /// Key used to sign.
    pub signing_key: ed25519_dalek::SigningKey,
    /// Its public key.
    pub verifying_key: ed25519_dalek::VerifyingKey,
    /// The PKCS#8 document as stored on disk.
    pub pkcs8_bytes: Vec<u8>,
    /// The raw 32-byte Ed25519 seed.
    pub seed_bytes: Vec<u8>,
    /// The public key in lower-case hex.
    pub public_key_hex: String,
}

/// The Ed25519 seed inside a PKCS#8 v2 document: its last 32 bytes, when the
/// document has at least 48 bytes.
pub fn extract_seed_from_pkcs8(pkcs8: &[u8]) -> (r: Option<Vec<u8>>)
    ensures
        match r {
            Some(seed) => pkcs8@.len() >= 48 && seed@ == pkcs8@.subrange(pkcs8@.len() - 32, pkcs8@.len() as int),
            None => pkcs8@.len() < 48,
        },
{
    if pkcs8.len() < 48 {
        return None;
    }
    let start = pkcs8.len() - 32;
    let mut seed: Vec<u8> = Vec::new();
    let mut i: usize = start;
    while i < pkcs8.len()
        invariant
            start == pkcs8@.len() - 32,
            start <= i <= pkcs8@.len(),
            seed@ == pkcs8@.subrange(start as int, i as int),
        decreases pkcs8@.len() - i,
    {
        seed.push(pkcs8[i]);
        proof {
            assert(pkcs8@.subrange(start as int, i + 1) =~= pkcs8@.subrange(start as int, i as int).push(pkcs8@[i as int]));
        }
        i = i + 1;
    }
    Some(seed)
}

/// The seed as an array.
fn seed_array(seed: &Vec<u8>) -> (a: [u8; 32])
    requires
        seed@.len() == 32,
    ensures
        a@ == seed@,
{
    let mut a = [0u8; 32];
    let mut i: usize = 0;
    while i < 32
        invariant
            seed@.len() == 32,
            i <= 32,
            a@.len() == 32,
            forall|k: int| 0 <= k < i ==> a@[k] == seed@[k],
        decreases 32 - i,
    {
        a.set(i, seed[i]);
        i = i + 1;
    }
    proof {
        assert(a@ =~= seed@);
    }
    a
}

impl Wallet {
    /// The identity whose PKCS#8 document and seed are given: its key pair is
    /// derived from the seed, and its public key rendered in hex.
    pub fn from_seed(pkcs8_bytes: Vec<u8>, seed_bytes: Vec<u8>) -> (w: Self)
        requires
            seed_bytes@.len() == 32,
        ensures
            w.pkcs8_bytes@ == pkcs8_bytes@,
            w.seed_bytes@ == seed_bytes@,
            w.signing_key == ed25519_seed_key(seed_bytes@),
            w.public_key_hex@ == hex_of(ed25519_seed_public_key(seed_bytes@)),
    {
        let seed = seed_array(&seed_bytes);
        let (signing_key, verifying_key, pk) = ed25519_keys_from_seed(&seed);
        let public_key_hex = hex_encode(&pk);
        Wallet { signing_key, verifying_key, pkcs8_bytes, seed_bytes, public_key_hex }
    }

    /// A new identity: a random key pair as a PKCS#8 document, with the seed
    /// taken from the document as `extract_seed_from_pkcs8` does. `None` only
    /// when the random source fails: a generated document always holds a seed.
    pub fn generate() -> (r: Option<Self>)
        ensures
            r matches Some(w) ==> {
                &&& w.pkcs8_bytes@.len() == 83
                &&& w.seed_bytes@ == w.pkcs8_bytes@.subrange(w.pkcs8_bytes@.len() - 32, w.pkcs8_bytes@.len() as int)
                &&& w.signing_key == ed25519_seed_key(w.seed_bytes@)
                &&& w.public_key_hex@ == hex_of(ed25519_seed_public_key(w.seed_bytes@))
            },
    {
        let doc = match generate_ed25519_pkcs8() {
            Some(d) => d,
            None => return None,
        };
        let seed = extract_seed_from_pkcs8(doc.as_slice()).unwrap();
        Some(Wallet::from_seed(doc, seed))
    }

    /// A fresh signing key derived again from the seed.
    pub fn signing_key_clone(&self) -> (k: ed25519_dalek::SigningKey)
        requires
            self.seed_bytes@.len() == 32,
        ensures
            k == ed25519_seed_key(self.seed_bytes@),
    {
        let seed = seed_array(&self.seed_bytes);
        let (signing_key, _verifying_key, _pk) = ed25519_keys_from_seed(&seed);
        signing_key
    }

    /// The first 8 bytes of the hex public key, for display.
    pub fn short_id(&self) -> (s: String)
        requires
            vstd::utf8::is_char_boundary(encode_utf8_chars(self.public_key_hex@), 8),
        ensures
            encode_utf8_chars(s@) == encode_utf8_chars(self.public_key_hex@).subrange(0, 8),
    {
        let (head, _rest) = self.public_key_hex.as_str().split_at(8);
        head.to_owned()
    }
}

} // verus!
