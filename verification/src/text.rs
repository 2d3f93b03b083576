//! Small helpers on strings: equality and building from pieces.

use vstd::prelude::*;
use vstd::string::StringExecFns;
use vstd::utf8::encode_utf8_decode_utf8;

use crate::planner::bytes_equal;

verus! {

/// Whether two strings hold the same characters.
pub fn str_eq(a: &str, b: &str) -> (r: bool)
    ensures
        r == (a@ == b@),
{
    let r = bytes_equal(a.as_bytes(), b.as_bytes());
    proof {
        encode_utf8_decode_utf8(a@);
        encode_utf8_decode_utf8(b@);
    }
    r
}

/// Calls std's `String::from` on a `char`, which gives the string holding
/// exactly that character.
#[verifier::external_body]
fn char_to_string(c: char) -> (s: String)
    ensures
        s@ == seq![c],
{
    String::from(c)
}

/// `a` followed by `b`.
pub fn concat(a: &str, b: &str) -> (s: String)
    ensures
        s@ == a@ + b@,
{
    let mut s = String::from_str(a);
    s.append(b);
    s
}

/// `a` followed by the character `c`.
pub fn concat_char(a: &str, c: char) -> (s: String)
    ensures
        s@ == a@.push(c),
{
    let t = char_to_string(c);
    let s = concat(a, t.as_str());
    assert(a@ + seq![c] =~= a@.push(c));
    s
}

} // verus!
