//! `safe` filter: replace shell-hostile bytes with a replacement byte.

use vstd::prelude::*;

verus! {

/// `b` replaced when it is in `unsafe_chars`.
pub open spec fn safe_byte(b: u8, replacement: u8, unsafe_chars: Seq<u8>) -> u8 {
    if unsafe_chars.contains(b) {
        replacement
    } else {
        b
    }
}

/// `s` with every byte of `unsafe_chars` replaced by `replacement`.
pub open spec fn safe(s: Seq<u8>, replacement: u8, unsafe_chars: Seq<u8>) -> Seq<u8> {
    Seq::new(s.len(), |i: int| safe_byte(s[i], replacement, unsafe_chars))
}

/// Whether `b` occurs in `set`.
pub fn contains_byte(set: &[u8], b: u8) -> (r: bool)
    ensures
        r == set@.contains(b),
{
    let mut i: usize = 0;
    while i < set.len()
        invariant
            i <= set@.len(),
            forall|j: int| 0 <= j < i ==> set@[j] != b,
        decreases set@.len() - i,
    {
        if set[i] == b {
            assert(set@[i as int] == b);
            return true;
        }
        i += 1;
    }
    false
}

/// Replace each byte in `input` matching `unsafe_chars` with `replacement`.
pub fn apply(input: &[u8], replacement: u8, unsafe_chars: &[u8]) -> (out: Vec<u8>)
    ensures
        out@ == safe(input@, replacement, unsafe_chars@),
{
    let mut out: Vec<u8> = Vec::with_capacity(input.len());
    let mut i: usize = 0;
    while i < input.len()
        invariant
            i <= input@.len(),
            out@ =~= safe(input@.take(i as int), replacement, unsafe_chars@),
        decreases input@.len() - i,
    {
        let b = input[i];
        if contains_byte(unsafe_chars, b) {
            out.push(replacement);
        } else {
            out.push(b);
        }
        i += 1;
    }
    assert(input@.take(i as int) =~= input@);
    out
}

/// The safe filter changes only the bytes of the unsafe set: it keeps the
/// length, every byte outside the set stays as it is (so bytes at or above
/// `0x80`, such as those of a UTF-8 `é`, are kept unless the set names
/// them), and every byte in the set becomes the replacement.
pub proof fn lemma_safe_keeps_other_bytes(s: Seq<u8>, replacement: u8, unsafe_chars: Seq<u8>)
    ensures
        safe(s, replacement, unsafe_chars).len() == s.len(),
        forall|i: int|
            0 <= i < s.len() && !unsafe_chars.contains(s[i]) ==> #[trigger] safe(
                s,
                replacement,
                unsafe_chars,
            )[i] == s[i],
        forall|i: int|
            0 <= i < s.len() && unsafe_chars.contains(s[i]) ==> #[trigger] safe(
                s,
                replacement,
                unsafe_chars,
            )[i] == replacement,
{
}

/// The safe filter keeps the length, and when the replacement byte is not
/// itself unsafe, no unsafe byte is left.
pub proof fn lemma_safe_removes_unsafe(s: Seq<u8>, replacement: u8, unsafe_chars: Seq<u8>)
    requires
        !unsafe_chars.contains(replacement),
    ensures
        safe(s, replacement, unsafe_chars).len() == s.len(),
        forall|i: int|
            0 <= i < s.len() ==> !unsafe_chars.contains(
                #[trigger] safe(s, replacement, unsafe_chars)[i],
            ),
{
}

/// Applying the safe filter twice gives the same name as applying it once,
/// when the replacement byte is not itself unsafe.
pub proof fn lemma_safe_idempotent(s: Seq<u8>, replacement: u8, unsafe_chars: Seq<u8>)
    requires
        !unsafe_chars.contains(replacement),
    ensures
        safe(safe(s, replacement, unsafe_chars), replacement, unsafe_chars) == safe(
            s,
            replacement,
            unsafe_chars,
        ),
{
    assert(safe(safe(s, replacement, unsafe_chars), replacement, unsafe_chars) =~= safe(
        s,
        replacement,
        unsafe_chars,
    ));
}

} // verus!
