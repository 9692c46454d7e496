//! Lower-case hexadecimal rendering of byte strings.
use vstd::prelude::*;
use vstd::string::*;

verus! {

/// Lower-case hexadecimal digit for a nibble (`0..16`), as an ASCII character.
pub open spec fn hex_char(n: u8) -> char {
    if n < 10 {
        (48 + n) as char
    } else {
        (87 + n) as char
    }
}

/// Two lower-case hex characters for every byte, most significant nibble first.
pub open spec fn hex_of(bytes: Seq<u8>) -> Seq<char>
    decreases bytes.len(),
{
    if bytes.len() == 0 {
        Seq::empty()
    } else {
        hex_of(bytes.drop_last()) + seq![hex_char(bytes.last() / 16), hex_char(bytes.last() % 16)]
    }
}

fn hex_digit_str(n: u8) -> (s: &'static str)
    requires
        n < 16,
    ensures
        s@ == seq![hex_char(n)],
{
    if n == 0 {
        proof { reveal_strlit("0"); }
        "0"
    }
    else if n == 1 {
        proof { reveal_strlit("1"); }
        "1"
    }
    else if n == 2 {
        proof { reveal_strlit("2"); }
        "2"
    }
    else if n == 3 {
        proof { reveal_strlit("3"); }
        "3"
    }
    else if n == 4 {
        proof { reveal_strlit("4"); }
        "4"
    }
    else if n == 5 {
        proof { reveal_strlit("5"); }
        "5"
    }
    else if n == 6 {
        proof { reveal_strlit("6"); }
        "6"
    }
    else if n == 7 {
        proof { reveal_strlit("7"); }
        "7"
    }
    else if n == 8 {
        proof { reveal_strlit("8"); }
        "8"
    }
    else if n == 9 {
        proof { reveal_strlit("9"); }
        "9"
    }
    else if n == 10 {
        proof { reveal_strlit("a"); }
        "a"
    }
    else if n == 11 {
        proof { reveal_strlit("b"); }
        "b"
    }
    else if n == 12 {
        proof { reveal_strlit("c"); }
        "c"
    }
    else if n == 13 {
        proof { reveal_strlit("d"); }
        "d"
    }
    else if n == 14 {
        proof { reveal_strlit("e"); }
        "e"
    }
    else {
        proof { reveal_strlit("f"); }
        "f"
    }
}

/// Lower-case hexadecimal rendering of `bytes`, two characters per byte.
pub fn encode(bytes: &[u8]) -> (s: String)
    ensures
        s@ == hex_of(bytes@),
{
    let mut s = String::new();
    let mut i: usize = 0;
    while i < bytes.len()
        invariant
            i <= bytes@.len(),
            s@ == hex_of(bytes@.subrange(0, i as int)),
        decreases bytes@.len() - i,
    {
        let b = bytes[i];
        s.append(hex_digit_str(b / 16));
        s.append(hex_digit_str(b % 16));
        proof {
            assert(bytes@.subrange(0, i + 1).drop_last() == bytes@.subrange(0, i as int));
        }
        i = i + 1;
    }
    proof {
        assert(bytes@.subrange(0, bytes@.len() as int) == bytes@);
    }
    s
}


/// ASCII code of the lower-case hex digit for a nibble (`0..16`).
pub open spec fn hex_byte(n: u8) -> u8 {
    if n < 10 {
        (48 + n) as u8
    } else {
        (87 + n) as u8
    }
}

/// The ASCII bytes of the lower-case hexadecimal rendering of `bytes`.
pub open spec fn hex_ascii(bytes: Seq<u8>) -> Seq<u8>
    decreases bytes.len(),
{
    if bytes.len() == 0 {
        Seq::empty()
    } else {
        hex_ascii(bytes.drop_last()) + seq![hex_byte(bytes.last() / 16), hex_byte(bytes.last() % 16)]
    }
}

/// Appends the ASCII bytes of the lower-case hexadecimal rendering of `bytes`.
pub fn push_hex_ascii(dst: &mut Vec<u8>, bytes: &[u8])
    ensures
        final(dst)@ == old(dst)@ + hex_ascii(bytes@),
{
    let mut i: usize = 0;
    while i < bytes.len()
        invariant
            i <= bytes@.len(),
            dst@ == old(dst)@ + hex_ascii(bytes@.subrange(0, i as int)),
        decreases bytes@.len() - i,
    {
        let b = bytes[i];
        let hi = b / 16;
        let lo = b % 16;
        dst.push(if hi < 10 { 48 + hi } else { 87 + hi });
        dst.push(if lo < 10 { 48 + lo } else { 87 + lo });
        proof {
            assert(bytes@.subrange(0, i + 1).drop_last() =~= bytes@.subrange(0, i as int));
            assert(dst@ =~= old(dst)@ + hex_ascii(bytes@.subrange(0, i + 1)));
        }
        i = i + 1;
    }
    proof {
        assert(bytes@.subrange(0, bytes@.len() as int) =~= bytes@);
    }
}

/// Decimal rendering of `n`, without leading zeros.
pub open spec fn dec_chars(n: nat) -> Seq<char>
    decreases n,
{
    if n < 10 {
        seq![hex_char(n as u8)]
    } else {
        dec_chars(n / 10) + seq![hex_char((n % 10) as u8)]
    }
}

/// Appends the decimal rendering of `n` to `s`.
pub fn append_decimal(s: &mut String, n: u64)
    ensures
        final(s)@ == old(s)@ + dec_chars(n as nat),
    decreases n,
{
    if n >= 10 {
        append_decimal(s, n / 10);
    }
    s.append(hex_digit_str((n % 10) as u8));
}

} // verus!
