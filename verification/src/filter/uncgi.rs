//! `uncgi` filter: decode `%XX` percent-escapes.

use vstd::prelude::*;

verus! {

/// Value of an ASCII hex digit, or `None` for any other byte.
pub open spec fn hex_value(b: u8) -> Option<u8> {
    if 0x30 <= b <= 0x39 {
        Some((b - 0x30) as u8)
    } else if 0x61 <= b <= 0x66 {
        Some((b - 0x61 + 10) as u8)
    } else if 0x41 <= b <= 0x46 {
        Some((b - 0x41 + 10) as u8)
    } else {
        None
    }
}

/// Holds when `s` starts with `%` followed by two hex digits.
pub open spec fn starts_with_escape(s: Seq<u8>) -> bool {
    s.len() > 2 && s[0] == 0x25 && hex_value(s[1]) is Some && hex_value(s[2]) is Some
}

/// The decoded form of `s`: each `%XX` with two hex digits becomes the byte
/// `0xXX`, scanning left to right; every other byte is kept.
pub open spec fn uncgi(s: Seq<u8>) -> Seq<u8>
    decreases s.len(),
{
    if s.len() == 0 {
        s
    } else if starts_with_escape(s) {
        seq![(hex_value(s[1]).unwrap() * 16 + hex_value(s[2]).unwrap()) as u8] + uncgi(s.skip(3))
    } else {
        seq![s[0]] + uncgi(s.skip(1))
    }
}

fn hex(b: u8) -> (r: Option<u8>)
    ensures
        r == hex_value(b),
        r matches Some(v) ==> v < 16,
{
    if 0x30 <= b && b <= 0x39 {
        // '0'..='9'
        Some(b - 0x30)
    } else if 0x61 <= b && b <= 0x66 {
        // 'a'..='f'
        Some(b - 0x61 + 10)
    } else if 0x41 <= b && b <= 0x46 {
        // 'A'..='F'
        Some(b - 0x41 + 10)
    } else {
        None
    }
}

/// Decode ASCII percent-escapes in `input`. `%XX` (two hex digits) becomes the
/// corresponding single byte. Unrecognized `%`-sequences pass through.
pub fn apply(input: &[u8]) -> (out: Vec<u8>)
    ensures
        out@ == uncgi(input@),
{
    let mut out: Vec<u8> = Vec::with_capacity(input.len());
    let mut i: usize = 0;
    assert(input@.skip(0) =~= input@);
    while i < input.len()
        invariant
            i <= input@.len(),
            out@ + uncgi(input@.skip(i as int)) == uncgi(input@),
        decreases input@.len() - i,
    {
        let ghost rest = input@.skip(i as int);
        if input[i] == 0x25 && input.len() - i > 2 {
            let hi = hex(input[i + 1]);
            let lo = hex(input[i + 2]);
            if let (Some(hi), Some(lo)) = (hi, lo) {
                assert(starts_with_escape(rest));
                assert(rest.skip(3) =~= input@.skip(i + 3));
                out.push(hi * 16 + lo);
                assert(out@ + uncgi(input@.skip(i + 3)) =~= uncgi(input@));
                i += 3;
                continue;
            }
        }
        assert(!starts_with_escape(rest));
        assert(rest.skip(1) =~= input@.skip(i + 1));
        out.push(input[i]);
        assert(out@ + uncgi(input@.skip(i + 1)) =~= uncgi(input@));
        i += 1;
    }
    assert(input@.skip(i as int) =~= Seq::<u8>::empty());
    out
}

/// Whether `b` is an ASCII hex digit: `0-9`, `A-F` or `a-f`.
pub open spec fn is_ascii_hex_digit(b: u8) -> bool {
    (0x30 <= b <= 0x39) || (0x41 <= b <= 0x46) || (0x61 <= b <= 0x66)
}

/// The number an ASCII hex digit stands for, either case.
pub open spec fn ascii_hex_digit_value(b: u8) -> int {
    if b <= 0x39 {
        b - 0x30
    } else if b <= 0x46 {
        b - 0x41 + 10
    } else {
        b - 0x61 + 10
    }
}

/// Every `%XX` escape with two hex digits of either case decodes to the one
/// byte `0xXX`, and decoding goes on right after it.
pub proof fn lemma_uncgi_decodes_escape(h: u8, l: u8, t: Seq<u8>)
    requires
        is_ascii_hex_digit(h),
        is_ascii_hex_digit(l),
    ensures
        uncgi(seq![0x25u8, h, l] + t) == seq![
            (ascii_hex_digit_value(h) * 16 + ascii_hex_digit_value(l)) as u8,
        ] + uncgi(t),
{
    let s = seq![0x25u8, h, l] + t;
    assert(s[0] == 0x25 && s[1] == h && s[2] == l);
    assert(starts_with_escape(s));
    assert(s.skip(3) =~= t);
    assert(hex_value(h).unwrap() == ascii_hex_digit_value(h));
    assert(hex_value(l).unwrap() == ascii_hex_digit_value(l));
}

/// A `%` that is not followed by two hex digits is kept as it is, and
/// decoding goes on at the next byte.
pub proof fn lemma_uncgi_keeps_lone_percent(s: Seq<u8>)
    requires
        s.len() > 0,
        s[0] == 0x25,
        s.len() <= 2 || !is_ascii_hex_digit(s[1]) || !is_ascii_hex_digit(s[2]),
    ensures
        uncgi(s) == seq![0x25u8] + uncgi(s.skip(1)),
{
}

/// Decoding leaves a name that holds no `%` unchanged.
pub proof fn lemma_uncgi_without_percent(s: Seq<u8>)
    requires
        forall|i: int| 0 <= i < s.len() ==> s[i] != 0x25,
    ensures
        uncgi(s) == s,
    decreases s.len(),
{
    if s.len() > 0 {
        let t = s.skip(1);
        assert forall|i: int| 0 <= i < t.len() implies t[i] != 0x25 by {
            assert(t[i] == s[i + 1]);
        }
        lemma_uncgi_without_percent(t);
        assert(seq![s[0]] + t =~= s);
    }
}

/// Decoding never lengthens a name.
pub proof fn lemma_uncgi_len(s: Seq<u8>)
    ensures
        uncgi(s).len() <= s.len(),
    decreases s.len(),
{
    if s.len() > 0 {
        if starts_with_escape(s) {
            lemma_uncgi_len(s.skip(3));
        } else {
            lemma_uncgi_len(s.skip(1));
        }
    }
}

} // verus!
