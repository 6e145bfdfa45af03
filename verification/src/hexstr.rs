//! Upper-case hex encoding of byte strings, and the decoding needed to
//! state that the encoding loses nothing.

use vstd::prelude::*;

verus! {

/// The upper-case hex digit for a value in 0..16 (and '0' outside that range).
pub open spec fn hex_digit(n: int) -> char {
    if n == 1 { '1' } else if n == 2 { '2' } else if n == 3 { '3' } else if n == 4 {
        '4'
    } else if n == 5 { '5' } else if n == 6 { '6' } else if n == 7 { '7' } else if n == 8 {
        '8'
    } else if n == 9 { '9' } else if n == 10 { 'A' } else if n == 11 { 'B' } else if n == 12 {
        'C'
    } else if n == 13 { 'D' } else if n == 14 { 'E' } else if n == 15 { 'F' } else { '0' }
}

/// The value of a hex digit character, upper or lower case; -1 if it is none.
pub open spec fn hex_val(c: char) -> int {
    let x = c as int;
    if 48 <= x <= 57 {
        x - 48
    } else if 65 <= x <= 70 {
        x - 55
    } else if 97 <= x <= 102 {
        x - 87
    } else {
        -1
    }
}

pub open spec fn is_hex_char(c: char) -> bool {
    hex_val(c) >= 0
}

/// The byte denoted by two hex digit characters.
pub open spec fn byte_of_hex_pair(hi: char, lo: char) -> int {
    hex_val(hi) * 16 + hex_val(lo)
}

/// Upper-case hex encoding of a byte sequence, two digits per byte.
pub open spec fn hex_of(bytes: Seq<u8>) -> Seq<char>
    decreases bytes.len(),
{
    if bytes.len() == 0 {
        Seq::empty()
    } else {
        hex_of(bytes.drop_last()) + seq![
            hex_digit(bytes.last() as int / 16),
            hex_digit(bytes.last() as int % 16),
        ]
    }
}

pub proof fn lemma_hex_of_len(bytes: Seq<u8>)
    ensures
        hex_of(bytes).len() == 2 * bytes.len(),
    decreases bytes.len(),
{
    if bytes.len() > 0 {
        lemma_hex_of_len(bytes.drop_last());
    }
}

/// Encoding a value in 0..16 as a digit and reading it back loses nothing.
pub proof fn lemma_hex_digit_round_trip(n: int)
    requires
        0 <= n < 16,
    ensures
        hex_val(hex_digit(n)) == n,
{
}

/// Law: hex-encoding a byte and decoding the two digits yields the byte again.
pub proof fn lemma_hex_round_trip(b: u8)
    ensures
        hex_of(seq![b]).len() == 2,
        byte_of_hex_pair(hex_of(seq![b])[0], hex_of(seq![b])[1]) == b,
{
    let s = seq![b];
    assert(s.drop_last() =~= Seq::<u8>::empty());
    assert(s.last() == b);
    assert(hex_of(s.drop_last()) =~= Seq::<char>::empty());
    assert(hex_of(s) =~= seq![hex_digit(b as int / 16), hex_digit(b as int % 16)]);
    lemma_hex_digit_round_trip(b as int / 16);
    lemma_hex_digit_round_trip(b as int % 16);
    assert((b as int / 16) * 16 + (b as int % 16) == b as int);
}

/// Relies on String::push: appends the one character to the end of the
/// string, which vstd leaves unspecified.
#[verifier::external_body]
fn string_push(s: &mut String, c: char)
    ensures
        final(s)@ == old(s)@.push(c),
{
    s.push(c);
}

/// The upper-case hex digit for a value in 0..16, as executable code.
pub fn hex_digit_char(n: u8) -> (c: char)
    requires
        n < 16,
    ensures
        c == hex_digit(n as int),
{
    if n == 0 {
        '0'
    } else if n == 1 {
        '1'
    } else if n == 2 {
        '2'
    } else if n == 3 {
        '3'
    } else if n == 4 {
        '4'
    } else if n == 5 {
        '5'
    } else if n == 6 {
        '6'
    } else if n == 7 {
        '7'
    } else if n == 8 {
        '8'
    } else if n == 9 {
        '9'
    } else if n == 10 {
        'A'
    } else if n == 11 {
        'B'
    } else if n == 12 {
        'C'
    } else if n == 13 {
        'D'
    } else if n == 14 {
        'E'
    } else {
        'F'
    }
}

/// Encode bytes as an upper-case hex string, two digits per byte.
pub fn bytes_to_hex(bytes: &[u8]) -> (r: String)
    ensures
        r@ == hex_of(bytes@),
        r@.len() == 2 * bytes@.len(),
{
    let mut r = String::new();
    let n = bytes.len();
    let mut i: usize = 0;
    while i < n
        invariant
            n == bytes@.len(),
            i <= n,
            r@ =~= hex_of(bytes@.take(i as int)),
            r@.len() == 2 * i,
        decreases n - i,
    {
        let b = bytes[i];
        string_push(&mut r, hex_digit_char(b / 16));
        string_push(&mut r, hex_digit_char(b % 16));
        proof {
            let pre = bytes@.take(i as int);
            let post = bytes@.take(i + 1);
            assert(post.drop_last() =~= pre);
            assert(post.last() == bytes@[i as int]);
            lemma_hex_of_len(pre);
        }
        i = i + 1;
    }
    proof {
        assert(bytes@.take(n as int) =~= bytes@);
        lemma_hex_of_len(bytes@);
    }
    r
}

/// The value of a hex digit character, upper or lower case, as executable code.
pub fn hex_char_val(c: char) -> (r: Option<u8>)
    ensures
        r is Some <==> is_hex_char(c),
        r matches Some(v) ==> v == hex_val(c),
{
    let x = c as u32;
    if 48 <= x && x <= 57 {
        Some((x - 48) as u8)
    } else if 65 <= x && x <= 70 {
        Some((x - 55) as u8)
    } else if 97 <= x && x <= 102 {
        Some((x - 87) as u8)
    } else {
        None
    }
}

/// Decode two hex digit characters back into the byte they denote.
pub fn hex_pair_to_byte(hi: char, lo: char) -> (r: Option<u8>)
    ensures
        r is Some <==> is_hex_char(hi) && is_hex_char(lo),
        r matches Some(v) ==> v == byte_of_hex_pair(hi, lo),
{
    match (hex_char_val(hi), hex_char_val(lo)) {
        (Some(h), Some(l)) => Some(h * 16 + l),
        _ => None,
    }
}

} // verus!
