//! Byte and text encodings used by hashing preimages and identifiers.
use vstd::prelude::*;
use vstd::string::StringSliceAdditionalSpecFns;

verus! {

/// ASCII decimal rendering of a natural number, without leading zeros.
pub open spec fn dec(n: nat) -> Seq<u8>
    decreases n,
{
    if n < 10 {
        seq![(48 + n) as u8]
    } else {
        dec(n / 10) + seq![(48 + n % 10) as u8]
    }
}

/// Appends the bytes of `src` to `dst`.
pub fn push_bytes(dst: &mut Vec<u8>, src: &[u8])
    ensures
        final(dst)@ == old(dst)@ + src@,
{
    let mut i: usize = 0;
    while i < src.len()
        invariant
            i <= src@.len(),
            dst@ == old(dst)@ + src@.subrange(0, i as int),
        decreases src@.len() - i,
    {
        dst.push(src[i]);
        proof {
            assert(src@.subrange(0, i + 1) == src@.subrange(0, i as int).push(src@[i as int]));
        }
        i = i + 1;
    }
    proof {
        assert(src@.subrange(0, src@.len() as int) == src@);
    }
}

/// Appends the UTF-8 bytes of `s` to `dst`.
pub fn push_str_bytes(dst: &mut Vec<u8>, s: &str)
    ensures
        final(dst)@ == old(dst)@ + s.spec_bytes(),
{
    push_bytes(dst, s.as_bytes());
}

/// Appends the ASCII decimal rendering of `n` to `dst`.
pub fn push_decimal(dst: &mut Vec<u8>, n: u64)
    ensures
        final(dst)@ == old(dst)@ + dec(n as nat),
    decreases n,
{
    if n >= 10 {
        push_decimal(dst, n / 10);
    }
    dst.push((48 + n % 10) as u8);
    proof {
        if n >= 10 {
            assert(dec(n as nat) == dec((n / 10) as nat) + seq![(48 + n % 10) as u8]);
        }
    }
}

/// `{:?}` of a byte array: `[b0, b1, ...]` with decimal entries.
pub open spec fn debug_bytes(bytes: Seq<u8>) -> Seq<u8> {
    seq![91u8] + debug_bytes_items(bytes) + seq![93u8]
}

/// The comma-separated entries of `debug_bytes`.
pub open spec fn debug_bytes_items(bytes: Seq<u8>) -> Seq<u8>
    decreases bytes.len(),
{
    if bytes.len() == 0 {
        Seq::empty()
    } else if bytes.len() == 1 {
        dec(bytes[0] as nat)
    } else {
        debug_bytes_items(bytes.drop_last()) + seq![44u8, 32u8] + dec(bytes.last() as nat)
    }
}

/// Appends `{:?}` of `bytes` to `dst`.
pub fn push_debug_bytes(dst: &mut Vec<u8>, bytes: &[u8])
    ensures
        final(dst)@ == old(dst)@ + debug_bytes(bytes@),
{
    dst.push(91u8);
    let ghost start = dst@;
    let mut i: usize = 0;
    while i < bytes.len()
        invariant
            i <= bytes@.len(),
            dst@ == start + debug_bytes_items(bytes@.subrange(0, i as int)),
            start == old(dst)@ + seq![91u8],
        decreases bytes@.len() - i,
    {
        if i > 0 {
            dst.push(44u8);
            dst.push(32u8);
        }
        push_decimal(dst, bytes[i] as u64);
        proof {
            let s = bytes@.subrange(0, i + 1);
            assert(s.drop_last() == bytes@.subrange(0, i as int));
            if i == 0 {
                assert(debug_bytes_items(bytes@.subrange(0, 0)) == Seq::<u8>::empty());
            }
        }
        i = i + 1;
    }
    dst.push(93u8);
    proof {
        assert(bytes@.subrange(0, bytes@.len() as int) == bytes@);
    }
}

} // verus!
