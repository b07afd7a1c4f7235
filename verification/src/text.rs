//! Text decoding of byte sequences.
//!
//! Chunk payloads and type tags are byte sequences; rendering either one
//! as text means decoding it as UTF-8.  The decoding itself is done by
//! the standard library; its result is specified through vstd's model of
//! UTF-8 ([`decode_utf8`] and [`valid_utf8`]).

use vstd::prelude::*;
use vstd::utf8::{
    decode_utf8, encode_utf8, encode_utf8_decode_utf8, encode_utf8_valid_utf8, is_ascii_chars,
    is_ascii_chars_encode_utf8, valid_utf8,
};

verus! {

#[verifier::external_type_specification]
#[verifier::external_body]
pub struct ExFromUtf8Error(std::string::FromUtf8Error);

/// Relies on `String::from_utf8`: it returns the text whose UTF-8
/// encoding is `bytes`, and an error exactly when `bytes` is not valid
/// UTF-8.
#[verifier::external_body]
pub(crate) fn string_from_utf8(bytes: Vec<u8>) -> (r: Result<String, std::string::FromUtf8Error>)
    ensures
        match r {
            Ok(s) => valid_utf8(bytes@) && s@ == decode_utf8(bytes@),
            Err(_) => !valid_utf8(bytes@),
        },
{
    String::from_utf8(bytes)
}

/// The characters of an all-ASCII byte sequence, one per byte.
pub open spec fn ascii_chars_of(b: Seq<u8>) -> Seq<char> {
    Seq::new(b.len(), |i: int| b[i] as char)
}

/// A byte sequence of values below 128 is valid UTF-8 and decodes to
/// one character per byte.
pub proof fn lemma_ascii_bytes_decode(b: Seq<u8>)
    requires
        forall|i: int| 0 <= i < b.len() ==> b[i] < 128,
    ensures
        valid_utf8(b),
        decode_utf8(b) == ascii_chars_of(b),
{
    let cs = ascii_chars_of(b);
    assert forall|i| 0 <= i < cs.len() implies '\0' <= #[trigger] cs[i] <= '\u{7f}' by {
        assert(b[i] < 128);
    }
    assert(is_ascii_chars(cs));
    is_ascii_chars_encode_utf8(cs);
    assert(encode_utf8(cs) =~= b);
    encode_utf8_valid_utf8(cs);
    encode_utf8_decode_utf8(cs);
}

} // verus!
