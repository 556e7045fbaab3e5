//! Character-level utilities: turning text into its sequence of Unicode
//! scalar values, the single-byte projection used by the window hasher,
//! and rebuilding text from a sequence of characters.

use vstd::prelude::*;

verus! {

broadcast use vstd::string::group_string_axioms;

/// The single-byte projection of one character: its low-order byte.
/// Distinct characters that agree on the low byte are deliberately
/// identified before hashing; the collision is an accepted approximation.
pub open spec fn low_byte(c: char) -> u8 {
    ((c as u32) % 256) as u8
}

/// The byte projection of a whole character sequence.
pub open spec fn byte_project(s: Seq<char>) -> Seq<u8> {
    Seq::new(s.len(), |i: int| low_byte(s[i]))
}

/// The low-order byte of one character, computed executably.
pub fn low_byte_of(c: char) -> (b: u8)
    ensures
        b == low_byte(c),
{
    ((c as u32) % 256) as u8
}

/// Collects the characters of a string into a vector, in order.
pub fn chars_of_string(s: &str) -> (v: Vec<char>)
    ensures
        v@ == s@,
{
    let mut v: Vec<char> = Vec::new();
    for c in it: s.chars()
        invariant
            it.seq() == s@,
            v@ == it.seq().subrange(0, it.index()),
    {
        v.push(c);
    }
    proof {
        assert(v@ =~= s@);
    }
    v
}

/// The byte projection of a character vector, computed executably.
pub fn low_bytes_of_chars(chars: &Vec<char>) -> (bytes: Vec<u8>)
    ensures
        bytes@ == byte_project(chars@),
{
    let mut bytes: Vec<u8> = Vec::new();
    for i in 0..chars.len()
        invariant
            bytes@ =~= byte_project(chars@).subrange(0, i as int),
    {
        bytes.push(low_byte_of(chars[i]));
    }
    proof {
        assert(bytes@ =~= byte_project(chars@));
    }
    bytes
}

/// Relies on `String::from_utf8`: it accepts exactly the valid UTF-8 byte
/// sequences, and the accepted string holds exactly the decoded characters.
#[verifier::external_body]
pub fn bytes_to_string(bytes: Vec<u8>) -> (r: Option<String>)
    ensures
        match r {
            Some(s) => vstd::utf8::valid_utf8(bytes@) && s@ == vstd::utf8::decode_utf8(bytes@),
            None => !vstd::utf8::valid_utf8(bytes@),
        },
{
    String::from_utf8(bytes).ok()
}

/// Relies on std's `FromIterator` for `String`: collecting characters yields
/// the string of exactly those characters, in order.
#[verifier::external_body]
pub fn string_of_chars(chars: &Vec<char>) -> (s: String)
    ensures
        s@ == chars@,
{
    chars.iter().collect()
}

} // verus!
