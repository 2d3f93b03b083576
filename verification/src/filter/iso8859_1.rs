//! `iso8859_1` filter: Latin-1 high bytes to ASCII.

use vstd::prelude::*;

use crate::tables::{iso8859_1_replacement, lookup_iso8859_1};

verus! {

/// What one input byte becomes: its table replacement when the byte is high
/// and mapped, else the byte itself.
pub open spec fn iso8859_1_byte(b: u8) -> Seq<u8> {
    match iso8859_1_replacement(b) {
        Some(r) => r,
        None => seq![b],
    }
}

/// The transliteration of `s`: the concatenation of what each byte becomes.
pub open spec fn iso8859_1(s: Seq<u8>) -> Seq<u8>
    decreases s.len(),
{
    if s.len() == 0 {
        s
    } else {
        iso8859_1(s.drop_last()) + iso8859_1_byte(s.last())
    }
}

/// Translate each high byte (0x80–0xFF) via the Latin-1 table.
/// Bytes below 0x80 and bytes without a mapping pass through unchanged.
pub fn apply(input: &[u8]) -> (out: Vec<u8>)
    ensures
        out@ == iso8859_1(input@),
{
    let mut out: Vec<u8> = Vec::with_capacity(input.len());
    let mut i: usize = 0;
    while i < input.len()
        invariant
            i <= input@.len(),
            out@ == iso8859_1(input@.take(i as int)),
        decreases input@.len() - i,
    {
        let b = input[i];
        let ghost before = out@;
        if b < 0x80 {
            out.push(b);
        } else if let Some(repl) = lookup_iso8859_1(b) {
            let mut k: usize = 0;
            while k < repl.len()
                invariant
                    k <= repl@.len(),
                    out@ == before + repl@.take(k as int),
                decreases repl@.len() - k,
            {
                out.push(repl[k]);
                assert(repl@.take(k + 1) =~= repl@.take(k as int).push(repl@[k as int]));
                k += 1;
            }
            assert(repl@.take(k as int) =~= repl@);
        } else {
            out.push(b);
        }
        assert(input@.take(i + 1).drop_last() =~= input@.take(i as int));
        assert(out@ =~= iso8859_1(input@.take(i + 1)));
        i += 1;
    }
    assert(input@.take(i as int) =~= input@);
    out
}

/// Names made only of ASCII bytes pass through unchanged.
pub proof fn lemma_iso8859_1_ascii(s: Seq<u8>)
    requires
        forall|i: int| 0 <= i < s.len() ==> s[i] < 0x80,
    ensures
        iso8859_1(s) == s,
    decreases s.len(),
{
    if s.len() > 0 {
        lemma_iso8859_1_ascii(s.drop_last());
        assert(s.drop_last().push(s.last()) =~= s);
    }
}

} // verus!
