//! Proof of work on node identities: a nonce is valid when the SHA-512/256
//! digest of the identity followed by the nonce starts with enough zero hex
//! digits.
use vstd::prelude::*;
use crate::crypto::{sha512_256, sha512_256_digest};
use crate::encoding::{dec, push_decimal, push_str_bytes};
use crate::transaction::encode_utf8_chars;

verus! {

/// The `i`-th hex digit (nibble) of `h`, most significant first.
pub open spec fn nibble(h: Seq<u8>, i: int) -> u8 {
    if i % 2 == 0 {
        h[i / 2] / 16
    } else {
        h[i / 2] % 16
    }
}

/// The first `difficulty` hex digits of `h` (all of them, if fewer) are zero.
pub open spec fn leading_zero_digits(h: Seq<u8>, difficulty: nat) -> bool {
    forall|i: int| 0 <= i < difficulty && i < 2 * h.len() ==> nibble(h, i) == 0
}

/// The bytes hashed for the proof of work: the identity, then the nonce in decimal.
pub open spec fn pow_input(id: Seq<char>, nonce: u64) -> Seq<u8> {
    encode_utf8_chars(id) + dec(nonce as nat)
}

/// Whether `nonce` is a valid proof of work for `id` at `difficulty`.
pub open spec fn pow_valid(nonce: u64, id: Seq<char>, difficulty: nat) -> bool {
    leading_zero_digits(sha512_256_digest(pow_input(id, nonce)), difficulty)
}

/// Checks a proof of work.
pub fn verify_pow(nonce: u64, id: &str, difficulty: usize) -> (b: bool)
    ensures
        b == pow_valid(nonce, id@, difficulty as nat),
{
    let mut input: Vec<u8> = Vec::new();
    push_str_bytes(&mut input, id);
    push_decimal(&mut input, nonce);
    proof {
        assert(input@ =~= pow_input(id@, nonce));
    }
    let h = sha512_256(input.as_slice());
    let mut i: usize = 0;
    while i < difficulty && i < 64
        invariant
            h@.len() == 32,
            h@ == sha512_256_digest(pow_input(id@, nonce)),
            forall|k: int| 0 <= k < i ==> nibble(h@, k) == 0,
        decreases 64 - i,
    {
        let b = h[i / 2];
        let d = if i % 2 == 0 { b / 16 } else { b % 16 };
        if d != 0 {
            proof {
                assert(nibble(h@, i as int) != 0);
            }
            return false;
        }
        i = i + 1;
    }
    true
}

/// The smallest valid nonce for `id` at `difficulty`, searching upwards from 0;
/// `None` when no 64-bit nonce is valid.
pub fn mine_pow(id: &str, difficulty: usize) -> (r: Option<u64>)
    ensures
        match r {
            Some(n) => pow_valid(n, id@, difficulty as nat) && forall|m: u64| m < n ==> !pow_valid(m, id@, difficulty as nat),
            None => forall|m: u64| !pow_valid(m, id@, difficulty as nat),
        },
{
    let mut nonce: u64 = 0;
    while nonce < u64::MAX
        invariant
            forall|m: u64| m < nonce ==> !pow_valid(m, id@, difficulty as nat),
        decreases u64::MAX - nonce,
    {
        if verify_pow(nonce, id, difficulty) {
            return Some(nonce);
        }
        nonce = nonce + 1;
    }
    if verify_pow(u64::MAX, id, difficulty) {
        Some(u64::MAX)
    } else {
        None
    }
}

/// A proof of work checks every required hex digit: `nonce` is valid for `id`
/// at `difficulty` exactly when, in the digest of the identity followed by the
/// nonce, each of the first `difficulty` hex digits (all of them, if fewer) is
/// zero. Digit `2 j` is the high half of byte `j` (zero when the byte is below
/// 16) and digit `2 j + 1` its low half (zero when the byte is a multiple of
/// 16); so every byte whose two digits are both required is zero.
pub proof fn law_pow_checks_each_required_digit(nonce: u64, id: Seq<char>, difficulty: nat)
    ensures
        ({
            let h = sha512_256_digest(pow_input(id, nonce));
            pow_valid(nonce, id, difficulty) <==> forall|j: int| 0 <= j < h.len()
                ==> (2 * j < difficulty ==> #[trigger] h[j] < 16) && (2 * j + 1 < difficulty ==> h[j] % 16 == 0)
        }),
        ({
            let h = sha512_256_digest(pow_input(id, nonce));
            pow_valid(nonce, id, difficulty) ==> forall|j: int| 0 <= j < h.len() && 2 * j + 2 <= difficulty ==> #[trigger] h[j] == 0
        }),
{
    let h = sha512_256_digest(pow_input(id, nonce));
    if pow_valid(nonce, id, difficulty) {
        assert forall|j: int| 0 <= j < h.len()
            implies (2 * j < difficulty ==> #[trigger] h[j] < 16) && (2 * j + 1 < difficulty ==> h[j] % 16 == 0) by {
            assert((2 * j) / 2 == j && (2 * j) % 2 == 0);
            assert((2 * j + 1) / 2 == j && (2 * j + 1) % 2 == 1);
            if 2 * j < difficulty {
                assert(nibble(h, 2 * j) == 0);
            }
            if 2 * j + 1 < difficulty {
                assert(nibble(h, 2 * j + 1) == 0);
            }
        }
        assert forall|j: int| 0 <= j < h.len() && 2 * j + 2 <= difficulty implies #[trigger] h[j] == 0 by {
            assert((2 * j) / 2 == j && (2 * j) % 2 == 0);
            assert((2 * j + 1) / 2 == j && (2 * j + 1) % 2 == 1);
            assert(nibble(h, 2 * j) == 0);
            assert(nibble(h, 2 * j + 1) == 0);
        }
    }
    if forall|j: int| 0 <= j < h.len()
        ==> (2 * j < difficulty ==> #[trigger] h[j] < 16) && (2 * j + 1 < difficulty ==> h[j] % 16 == 0) {
        assert forall|i: int| 0 <= i < difficulty && i < 2 * h.len() implies nibble(h, i) == 0 by {
            let j = i / 2;
            assert(0 <= j < h.len());
            if i % 2 == 0 {
                assert(2 * j == i);
                assert(h[j] < 16);
            } else {
                assert(2 * j + 1 == i);
                assert(h[j] % 16 == 0);
            }
        }
    }
}

} // verus!
