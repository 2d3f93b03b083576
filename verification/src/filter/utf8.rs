//! `utf_8` filter: UTF-8 codepoints to ASCII.

use vstd::prelude::*;

use vstd::utf8::{
    decode_first_scalar, encode_scalar, encode_utf8, encode_utf8_first_scalar, length_of_first_scalar,
    valid_first_scalar,
};

use crate::tables::{lemma_utf8_table_from_a0, lookup_utf8, utf8_replacement};

verus! {

/// The scalar and byte count of the well-formed UTF-8 sequence that starts
/// `s`, or `None` when `s` does not start with one: a lead byte with its
/// continuation bytes, no overlong form, no surrogate, nothing above
/// U+10FFFF.
pub open spec fn decode_first(s: Seq<u8>) -> Option<(u32, nat)> {
    if s.len() > 0 && valid_first_scalar(s) {
        Some((decode_first_scalar(s), length_of_first_scalar(s) as nat))
    } else {
        None
    }
}

/// What a decoded sequence of `n` bytes at the start of `s` becomes: the
/// table replacement of its codepoint, or the sequence itself.
pub open spec fn codepoint_output(s: Seq<u8>, cp: u32, n: nat) -> Seq<u8> {
    match utf8_replacement(cp) {
        Some(r) => r,
        None => s.take(n as int),
    }
}

/// The transliteration of `s`: each codepoint found in the table becomes its
/// replacement, other complete sequences are kept, and each byte that does
/// not start a complete sequence is kept on its own.
pub open spec fn utf8_translit(s: Seq<u8>) -> Seq<u8>
    decreases s.len(),
{
    if s.len() == 0 {
        s
    } else if s[0] < 0x80 {
        seq![s[0]] + utf8_translit(s.skip(1))
    } else {
        match decode_first(s) {
            Some((cp, n)) => if 1 <= n <= s.len() {
                codepoint_output(s, cp, n) + utf8_translit(s.skip(n as int))
            } else {
                s
            },
            None => seq![s[0]] + utf8_translit(s.skip(1)),
        }
    }
}

/// Decode the UTF-8 sequence at `start` of `bytes`: its scalar and the number
/// of bytes it takes, or `None` when no well-formed sequence starts there
/// (`start` at the end included).
fn decode_one(bytes: &[u8], start: usize) -> (r: Option<(u32, usize)>)
    ensures
        start <= bytes@.len() ==> match r {
            Some((cp, n)) => decode_first(bytes@.skip(start as int)) == Some((cp, n as nat)) && 1
                <= n <= bytes@.len() - start,
            None => decode_first(bytes@.skip(start as int)) is None,
        },
        start > bytes@.len() ==> r is None,
{
    if start >= bytes.len() {
        return None;
    }
    let ghost s = bytes@.skip(start as int);
    let rem = bytes.len() - start;
    let b = bytes[start];
    assert(s[0] == b);
    if b <= 0x7f {
        return Some(((b & 0x7F) as u32, 1));
    }
    if 0xc0 <= b && b <= 0xdf {
        if rem < 2 {
            return None;
        }
        let c1 = bytes[start + 1];
        assert(s[1] == c1);
        if !(0x80 <= c1 && c1 <= 0xbf) {
            return None;
        }
        let cp = (((b & 0x1F) as u32) << 6) | ((c1 & 0x3F) as u32);
        if cp < 0x80 || (0xD800 <= cp && cp <= 0xDFFF) {
            return None;
        }
        return Some((cp, 2));
    }
    if 0xe0 <= b && b <= 0xef {
        if rem < 3 {
            return None;
        }
        let c1 = bytes[start + 1];
        let c2 = bytes[start + 2];
        assert(s[1] == c1 && s[2] == c2);
        if !(0x80 <= c1 && c1 <= 0xbf && 0x80 <= c2 && c2 <= 0xbf) {
            return None;
        }
        let cp = (((b & 0x0F) as u32) << 12) | (((c1 & 0x3F) as u32) << 6) | ((c2 & 0x3F) as u32);
        if cp < 0x800 || (0xD800 <= cp && cp <= 0xDFFF) {
            return None;
        }
        return Some((cp, 3));
    }
    if 0xf0 <= b && b <= 0xf7 {
        if rem < 4 {
            return None;
        }
        let c1 = bytes[start + 1];
        let c2 = bytes[start + 2];
        let c3 = bytes[start + 3];
        assert(s[1] == c1 && s[2] == c2 && s[3] == c3);
        if !(0x80 <= c1 && c1 <= 0xbf && 0x80 <= c2 && c2 <= 0xbf && 0x80 <= c3 && c3 <= 0xbf) {
            return None;
        }
        let cp = (((b & 0x07) as u32) << 18) | (((c1 & 0x3F) as u32) << 12) | (((c2 & 0x3F) as u32)
            << 6) | ((c3 & 0x3F) as u32);
        if cp < 0x10000 || cp > 0x10ffff || (0xD800 <= cp && cp <= 0xDFFF) {
            return None;
        }
        return Some((cp, 4));
    }
    None
}

/// Translate each UTF-8 codepoint via the codepoint table. Codepoints
/// not in the table pass through as their own byte sequence;
/// invalid UTF-8 fragments pass through byte by byte.
pub fn apply(input: &[u8]) -> (out: Vec<u8>)
    ensures
        out@ == utf8_translit(input@),
{
    let mut out: Vec<u8> = Vec::with_capacity(input.len());
    let mut i: usize = 0;
    assert(input@.skip(0) =~= input@);
    while i < input.len()
        invariant
            i <= input@.len(),
            out@ + utf8_translit(input@.skip(i as int)) == utf8_translit(input@),
        decreases input@.len() - i,
    {
        let ghost rest = input@.skip(i as int);
        let ghost before = out@;
        let first = input[i];
        if first < 0x80 {
            out.push(first);
            assert(rest.skip(1) =~= input@.skip(i + 1));
            assert(out@ + utf8_translit(input@.skip(i + 1)) =~= utf8_translit(input@));
            i += 1;
            continue;
        }
        match decode_one(input, i) {
            Some((cp, consumed)) => {
                let piece: &[u8];
                match lookup_utf8(cp) {
                    Some(repl) => {
                        piece = repl;
                    },
                    None => {
                        piece = &input[i..i + consumed];
                        assert(piece@ =~= rest.take(consumed as int));
                    },
                }
                let mut k: usize = 0;
                while k < piece.len()
                    invariant
                        k <= piece@.len(),
                        out@ =~= before + piece@.take(k as int),
                    decreases piece@.len() - k,
                {
                    out.push(piece[k]);
                    k += 1;
                }
                assert(piece@.take(k as int) =~= piece@);
                assert(rest.skip(consumed as int) =~= input@.skip(i + consumed));
                assert(out@ + utf8_translit(input@.skip(i + consumed)) =~= utf8_translit(input@));
                i += consumed;
            },
            None => {
                out.push(first);
                assert(rest.skip(1) =~= input@.skip(i + 1));
                assert(out@ + utf8_translit(input@.skip(i + 1)) =~= utf8_translit(input@));
                i += 1;
            },
        }
    }
    assert(input@.skip(i as int) =~= Seq::<u8>::empty());
    out
}

/// Names made only of ASCII bytes pass through unchanged.
pub proof fn lemma_utf8_ascii(s: Seq<u8>)
    requires
        forall|i: int| 0 <= i < s.len() ==> s[i] < 0x80,
    ensures
        utf8_translit(s) == s,
    decreases s.len(),
{
    if s.len() > 0 {
        let t = s.skip(1);
        assert forall|i: int| 0 <= i < t.len() implies t[i] < 0x80 by {
            assert(t[i] == s[i + 1]);
        }
        lemma_utf8_ascii(t);
        assert(seq![s[0]] + t =~= s);
    }
}

/// What the filter makes of the characters `cs` taken one at a time: each
/// character in the codepoint table becomes its replacement, every other
/// character keeps its UTF-8 encoding.
pub open spec fn chars_translit(cs: Seq<char>) -> Seq<u8>
    decreases cs.len(),
{
    if cs.len() == 0 {
        Seq::empty()
    } else {
        (match utf8_replacement(cs[0] as u32) {
            Some(r) => r,
            None => encode_scalar(cs[0] as u32),
        }) + chars_translit(cs.drop_first())
    }
}

/// On valid UTF-8 text the filter works character by character: the bytes
/// of the text `cs` become [`chars_translit`] of its characters.
pub proof fn lemma_utf8_valid_text(cs: Seq<char>)
    ensures
        utf8_translit(encode_utf8(cs)) == chars_translit(cs),
    decreases cs.len(),
{
    if cs.len() > 0 {
        let bytes = encode_utf8(cs);
        let c = cs[0];
        let e = encode_scalar(c as u32);
        encode_utf8_first_scalar(cs);
        assert(bytes == e + encode_utf8(cs.drop_first()));
        let n = e.len() as int;
        assert(bytes.take(n) =~= e);
        assert(bytes.skip(n) =~= encode_utf8(cs.drop_first()));
        lemma_utf8_valid_text(cs.drop_first());
        if bytes[0] < 0x80 {
            assert(n == 1);
            lemma_utf8_table_from_a0(c as u32);
            assert(seq![bytes[0]] =~= bytes.take(1));
        }
    }
}

} // verus!
