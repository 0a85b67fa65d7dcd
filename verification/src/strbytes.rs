//! Conversions between byte vectors and strings.
//!
//! The analysis pipeline works on ASCII bytes; strings cross into byte
//! land through `str::as_bytes` (specified by vstd) and come back through
//! [`string_from_utf8`].

use vstd::prelude::*;
use vstd::utf8::{decode_utf8, encode_utf8, is_ascii_chars, valid_utf8};

verus! {

broadcast use vstd::utf8::group_utf8_lib;

/// The character sequence denoted by a sequence of ASCII bytes.
pub open spec fn ascii_chars_of(b: Seq<u8>) -> Seq<char> {
    b.map_values(|x: u8| x as char)
}

/// Whether every byte is ASCII.
pub open spec fn all_ascii(b: Seq<u8>) -> bool {
    forall|i: int| 0 <= i < b.len() ==> b[i] < 128
}

/// Relies on `String::from_utf8`: bytes that form valid UTF-8 decode to the
/// string of their scalar values, and any other bytes are rejected.
#[verifier::external_body]
pub(crate) fn string_from_utf8(v: &Vec<u8>) -> (r: Option<String>)
    ensures
        r matches Some(s) ==> valid_utf8(v@) && s@ == decode_utf8(v@),
        r is None <==> !valid_utf8(v@),
{
    match String::from_utf8(v.clone()) {
        Ok(s) => Some(s),
        Err(_) => None,
    }
}

/// Builds the string whose characters are the given ASCII bytes.
pub fn ascii_to_string(v: &Vec<u8>) -> (s: String)
    requires
        all_ascii(v@),
    ensures
        s@ == ascii_chars_of(v@),
{
    proof {
        let chars = ascii_chars_of(v@);
        assert(is_ascii_chars(chars)) by {
            assert forall|i: int| 0 <= i < chars.len() implies '\0' <= #[trigger] chars[i]
                <= '\u{7f}' by {
                assert(chars[i] == v@[i] as char);
                assert(v@[i] < 128);
            }
        }
        vstd::utf8::is_ascii_chars_encode_utf8(chars);
        assert(encode_utf8(chars) =~= v@);
    }
    match string_from_utf8(v) {
        Some(s) => s,
        None => String::new(),  // unreachable: ASCII bytes are valid UTF-8
    }
}

} // verus!
