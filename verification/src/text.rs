//! Helpers for moving between strings, characters and byte sequences.
use vstd::prelude::*;

verus! {

use vstd::utf8::{decode_utf8, encode_utf8, valid_utf8, decode_first_codepoint, decode_first_scalar,
    is_leading_byte_width_1, length_of_first_codepoint, pop_first_scalar, valid_first_scalar};

/// The character holding the given ASCII byte.
pub open spec fn ascii_char(x: u8) -> char {
    (x as u32) as char
}

/// The characters holding the given ASCII bytes, one per byte.
pub open spec fn ascii_chars(b: Seq<u8>) -> Seq<char> {
    b.map_values(|x: u8| ascii_char(x))
}

/// A byte sequence lying entirely in the ASCII range.
pub open spec fn all_ascii(b: Seq<u8>) -> bool {
    forall|i: int| 0 <= i < b.len() ==> b[i] < 0x80
}

/// Relies on `String::push`: appends one character to the string.
#[verifier::external_body]
pub fn push_char(s: &mut String, c: char)
    ensures
        final(s)@ == old(s)@ + seq![c],
{
    s.push(c);
}

/// Relies on `String::from_utf8`: returns the string holding exactly the
/// given bytes when they are valid UTF-8, and nothing otherwise.
#[verifier::external_body]
pub fn string_from_bytes(v: Vec<u8>) -> (r: Option<String>)
    ensures
        match r {
            Some(s) => valid_utf8(v@) && s@ == decode_utf8(v@),
            None => !valid_utf8(v@),
        },
{
    match String::from_utf8(v) {
        Ok(s) => Some(s),
        Err(_) => None,
    }
}

/// Compares two string slices by their UTF-8 bytes.
pub fn str_eq(a: &str, b: &str) -> (r: bool)
    ensures
        r == (a@ == b@),
{
    let ab = a.as_bytes();
    let bb = b.as_bytes();
    proof {
        vstd::utf8::encode_utf8_decode_utf8(a@);
        vstd::utf8::encode_utf8_decode_utf8(b@);
    }
    if ab.len() != bb.len() {
        return false;
    }
    let mut i: usize = 0;
    while i < ab.len()
        invariant
            ab@.len() == bb@.len(),
            i <= ab@.len(),
            ab@ == encode_utf8(a@),
            bb@ == encode_utf8(b@),
            decode_utf8(encode_utf8(a@)) == a@,
            decode_utf8(encode_utf8(b@)) == b@,
            forall|j: int| 0 <= j < i ==> ab@[j] == bb@[j],
        decreases ab@.len() - i,
    {
        if ab[i] != bb[i] {
            return false;
        }
        i = i + 1;
    }
    proof {
        assert(ab@ =~= bb@);
    }
    true
}

/// ASCII bytes are valid UTF-8 and decode to themselves, character by
/// character.
pub proof fn lemma_ascii_decode(b: Seq<u8>)
    requires
        all_ascii(b),
    ensures
        valid_utf8(b),
        decode_utf8(b) == ascii_chars(b),
    decreases b.len(),
{
    if b.len() == 0 {
        assert(decode_utf8(b) =~= ascii_chars(b));
    } else {
        let b0 = b[0];
        assert(b0 < 0x80);
        assert(b0 & 0x7f == b0) by (bit_vector)
            requires
                b0 < 0x80,
        ;
        assert(is_leading_byte_width_1(b0));
        assert(decode_first_codepoint(b) == b0 as u32);
        assert(length_of_first_codepoint(b) == 1);
        assert(valid_first_scalar(b));
        let rest = pop_first_scalar(b);
        assert(rest =~= b.drop_first());
        lemma_ascii_decode(rest);
        assert(valid_utf8(b));
        assert(decode_first_scalar(b) as char == ascii_char(b0));
        assert(decode_utf8(b) =~= ascii_chars(b));
    }
}

} // verus!

