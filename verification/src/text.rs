//! Decoding byte keys to character sequences.
//!
//! Fuzzy search measures edit distance on decoded characters, not on
//! raw bytes.  Keys are normally valid UTF-8, and then decode exactly
//! per the UTF-8 model; a key that is not valid UTF-8 decodes lossily,
//! to characters that depend on the bytes alone.

use vstd::prelude::*;
use vstd::utf8::{decode_utf8, valid_utf8};

verus! {

/// The characters that lossy decoding yields for a byte sequence that
/// is not valid UTF-8.
pub uninterp spec fn lossy_chars(s: Seq<u8>) -> Seq<char>;

/// The characters a byte key stands for: its UTF-8 decoding when the
/// key is valid UTF-8, and the lossy decoding otherwise.
pub open spec fn key_chars(k: Seq<u8>) -> Seq<char> {
    if valid_utf8(k) {
        decode_utf8(k)
    } else {
        lossy_chars(k)
    }
}

/// Relies on `String::from_utf8_lossy` (with `str::chars` collecting
/// the characters of its result): the decoding is a function of the
/// bytes alone, and bytes that are valid UTF-8 decode to exactly the
/// characters they encode.
#[verifier::external_body]
pub(crate) fn decode_key(b: &Vec<u8>) -> (r: Vec<char>)
    ensures
        valid_utf8(b@) ==> r@ == decode_utf8(b@),
        !valid_utf8(b@) ==> r@ == lossy_chars(b@),
        r@ == key_chars(b@),
{
    String::from_utf8_lossy(b).chars().collect()
}

} // verus!
