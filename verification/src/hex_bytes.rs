//! The hexadecimal form of a byte sequence: spec-level definitions of the
//! encoding and its inverse, and thin verified entry points to the `hex`
//! crate's encoder and decoder.

use vstd::prelude::*;

verus! {

/// The lowercase hexadecimal digit for a value below sixteen.
pub open spec fn hex_char_of(n: u8) -> char
    recommends
        n < 16,
{
    if n == 0 {
        '0'
    } else if n == 1 {
        '1'
    } else if n == 2 {
        '2'
    } else if n == 3 {
        '3'
    } else if n == 4 {
        '4'
    } else if n == 5 {
        '5'
    } else if n == 6 {
        '6'
    } else if n == 7 {
        '7'
    } else if n == 8 {
        '8'
    } else if n == 9 {
        '9'
    } else if n == 10 {
        'a'
    } else if n == 11 {
        'b'
    } else if n == 12 {
        'c'
    } else if n == 13 {
        'd'
    } else if n == 14 {
        'e'
    } else {
        'f'
    }
}

/// Whether a character is a hexadecimal digit, in either letter case.
pub open spec fn is_hex_digit(c: char) -> bool {
    ||| c == '0' || c == '1' || c == '2' || c == '3' || c == '4' || c == '5' || c == '6' || c == '7'
        || c == '8' || c == '9'
    ||| c == 'a' || c == 'b' || c == 'c' || c == 'd' || c == 'e' || c == 'f'
    ||| c == 'A' || c == 'B' || c == 'C' || c == 'D' || c == 'E' || c == 'F'
}

/// The numeric value of a hexadecimal digit character.
pub open spec fn hex_val(c: char) -> u8
    recommends
        is_hex_digit(c),
{
    if c == '0' {
        0
    } else if c == '1' {
        1
    } else if c == '2' {
        2
    } else if c == '3' {
        3
    } else if c == '4' {
        4
    } else if c == '5' {
        5
    } else if c == '6' {
        6
    } else if c == '7' {
        7
    } else if c == '8' {
        8
    } else if c == '9' {
        9
    } else if c == 'a' || c == 'A' {
        10
    } else if c == 'b' || c == 'B' {
        11
    } else if c == 'c' || c == 'C' {
        12
    } else if c == 'd' || c == 'D' {
        13
    } else if c == 'e' || c == 'E' {
        14
    } else if c == 'f' || c == 'F' {
        15
    } else {
        0
    }
}

/// The lowercase hexadecimal rendering of a byte sequence: two digits per
/// byte, most significant digit first.
pub open spec fn hex_of(b: Seq<u8>) -> Seq<char>
    decreases b.len(),
{
    if b.len() == 0 {
        Seq::empty()
    } else {
        seq![hex_char_of(b.first() / 16), hex_char_of(b.first() % 16)] + hex_of(b.drop_first())
    }
}

/// Whether a character sequence is a well-formed hexadecimal body: an even
/// number of digits, each in either letter case.
pub open spec fn valid_hex(s: Seq<char>) -> bool {
    s.len() % 2 == 0 && (forall|i: int| 0 <= i < s.len() ==> is_hex_digit(#[trigger] s[i]))
}

/// The byte sequence denoted by a well-formed hexadecimal body.
pub open spec fn bytes_of_hex(s: Seq<char>) -> Seq<u8>
    recommends
        valid_hex(s),
    decreases s.len(),
{
    if s.len() < 2 {
        Seq::empty()
    } else {
        seq![(hex_val(s[0]) * 16 + hex_val(s[1])) as u8] + bytes_of_hex(s.skip(2))
    }
}

pub proof fn lemma_hex_of_len(b: Seq<u8>)
    ensures
        hex_of(b).len() == 2 * b.len(),
    decreases b.len(),
{
    if b.len() > 0 {
        lemma_hex_of_len(b.drop_first());
    }
}

/// The hexadecimal rendering of any byte sequence is a well-formed
/// hexadecimal body.
pub proof fn lemma_hex_of_valid(b: Seq<u8>)
    ensures
        valid_hex(hex_of(b)),
    decreases b.len(),
{
    lemma_hex_of_len(b);
    if b.len() > 0 {
        lemma_hex_of_valid(b.drop_first());
        let s = hex_of(b);
        assert forall|i: int| 0 <= i < s.len() implies is_hex_digit(#[trigger] s[i]) by {
            if i >= 2 {
                assert(s[i] == hex_of(b.drop_first())[i - 2]);
            }
        }
    }
}

/// Decoding the hexadecimal rendering of a byte sequence recovers that
/// sequence exactly.
pub proof fn lemma_bytes_of_hex_of(b: Seq<u8>)
    ensures
        bytes_of_hex(hex_of(b)) == b,
    decreases b.len(),
{
    if b.len() == 0 {
        assert(bytes_of_hex(hex_of(b)) =~= b);
    } else {
        lemma_bytes_of_hex_of(b.drop_first());
        lemma_hex_of_len(b.drop_first());
        let s = hex_of(b);
        assert(s.skip(2) =~= hex_of(b.drop_first()));
        vstd::arithmetic::div_mod::lemma_fundamental_div_mod(b.first() as int, 16);
        assert(hex_val(s[0]) * 16 + hex_val(s[1]) == b.first());
        assert(bytes_of_hex(s) =~= b);
    }
}

/// Relies on `hex::encode`: it renders each input byte as two lowercase
/// hexadecimal digits, most significant digit first.
#[verifier::external_body]
pub(crate) fn hex_encode(bytes: &[u8]) -> (r: String)
    ensures
        r@ == hex_of(bytes@),
{
    hex::encode(bytes)
}

/// Relies on `hex::decode`: it accepts exactly the strings made of an even
/// number of hexadecimal digits (either letter case) and returns the bytes
/// they denote, and reports an error on any other input.
#[verifier::external_body]
pub(crate) fn hex_decode(text: &str) -> (r: Option<Vec<u8>>)
    ensures
        r is Some <==> valid_hex(text@),
        r matches Some(v) ==> v@ == bytes_of_hex(text@),
{
    hex::decode(text).ok()
}

} // verus!
