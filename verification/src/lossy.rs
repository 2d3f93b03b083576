//! Lossy UTF-8 decoding of byte strings, as std's `String::from_utf8_lossy`
//! does it.

use vstd::prelude::*;
use vstd::utf8::{decode_utf8, decode_utf8_encode_utf8, encode_utf8, valid_utf8};

verus! {

/// Name for the characters that std's `String::from_utf8_lossy` makes of
/// `bytes`.
pub uninterp spec fn utf8_lossy(bytes: Seq<u8>) -> Seq<char>;

/// The UTF-8 bytes of the lossy decoding of `bytes`.
pub open spec fn lossy_bytes(bytes: Seq<u8>) -> Seq<u8> {
    encode_utf8(utf8_lossy(bytes))
}

/// Calls std's `String::from_utf8_lossy`, which decodes `bytes` as UTF-8 and
/// puts U+FFFD in place of each invalid sequence. The contract names the
/// result and states that valid UTF-8 decodes as vstd's `decode_utf8` decodes
/// it; what becomes of invalid sequences is left to the name.
#[verifier::external_body]
pub fn from_utf8_lossy(bytes: &[u8]) -> (s: String)
    ensures
        s@ == utf8_lossy(bytes@),
        valid_utf8(bytes@) ==> s@ == decode_utf8(bytes@),
{
    String::from_utf8_lossy(bytes).into_owned()
}

/// The UTF-8 bytes of the lossy decoding of `bytes`; valid UTF-8 comes back
/// unchanged.
pub fn lossy_bytes_of(bytes: &[u8]) -> (r: Vec<u8>)
    ensures
        r@ == lossy_bytes(bytes@),
        valid_utf8(bytes@) ==> r@ == bytes@,
{
    let s = from_utf8_lossy(bytes);
    let r = vstd::slice::slice_to_vec(s.as_str().as_bytes());
    proof {
        if valid_utf8(bytes@) {
            decode_utf8_encode_utf8(bytes@);
        }
    }
    r
}

} // verus!
