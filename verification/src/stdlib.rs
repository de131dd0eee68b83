//! Calls into std that vstd gives no specification, each with the contract
//! that std's documentation states.

use vstd::prelude::*;
use vstd::string::StringSliceAdditionalSpecFns;

verus! {

/// `String::push`: appends the given char to the end of the string.
#[verifier::external_body]
pub(crate) fn push_char(s: &mut String, c: char)
    ensures
        final(s)@ == old(s)@.push(c),
{
    s.push(c)
}

/// `std::str::from_utf8`: the bytes as a string slice when they are valid
/// UTF-8 (the same bytes, not copied), and nothing otherwise.
#[verifier::external_body]
pub(crate) fn str_from_utf8(b: &[u8]) -> (r: Option<&str>)
    ensures
        r is Some <==> vstd::utf8::valid_utf8(b@),
        r matches Some(t) ==> t.spec_bytes() == b@,
{
    match std::str::from_utf8(b) {
        Ok(t) => Some(t),
        Err(_) => None,
    }
}

/// The lowercase equivalent of a text, as `str::to_lowercase` computes it
/// from the Unicode `Lowercase` mapping (including the final-sigma rule).
pub uninterp spec fn unicode_lowercase(s: Seq<char>) -> Seq<char>;

/// `char::to_ascii_lowercase`: `A`–`Z` become `a`–`z`, any other character is kept.
pub open spec fn ascii_lower_char(c: char) -> char {
    if 'A' <= c <= 'Z' {
        ((c as u32) + 32) as char
    } else {
        c
    }
}

/// The lowercase of a text: for ASCII text each letter `A`–`Z` becomes
/// `a`–`z` and every other character is kept; other text follows Unicode.
pub open spec fn lowercase(s: Seq<char>) -> Seq<char> {
    if vstd::utf8::is_ascii_chars(s) {
        s.map_values(|c: char| ascii_lower_char(c))
    } else {
        unicode_lowercase(s)
    }
}

/// `str::to_lowercase`. The contract names the result; the Unicode mapping
/// itself is not stated, except that on ASCII text it is the ASCII
/// lowercasing (as std's documentation of the ASCII case says).
#[verifier::external_body]
pub(crate) fn to_lowercase(s: &str) -> (r: String)
    ensures
        r@ == unicode_lowercase(s@),
        vstd::utf8::is_ascii_chars(s@) ==> r@ == s@.map_values(|c: char| ascii_lower_char(c)),
{
    s.to_lowercase()
}

/// A string holding the given characters.
pub fn string_from_chars(cs: &Vec<char>) -> (r: String)
    ensures
        r@ == cs@,
{
    let mut r = String::new();
    let mut i: usize = 0;
    while i < cs.len()
        invariant
            0 <= i <= cs@.len(),
            r@ == cs@.take(i as int),
        decreases cs@.len() - i,
    {
        push_char(&mut r, cs[i]);
        i = i + 1;
        proof {
            assert(r@ =~= cs@.take(i as int));
        }
    }
    proof {
        assert(cs@.take(i as int) =~= cs@);
    }
    r
}

} // verus!
