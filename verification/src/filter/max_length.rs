//! `max_length` filter: truncation that keeps the final extension.

use vstd::prelude::*;

use crate::filter::copy_range;

verus! {

/// Index of the last occurrence of `b` in `s`, if any.
pub open spec fn last_index_of(s: Seq<u8>, b: u8) -> Option<int>
    decreases s.len(),
{
    if s.len() == 0 {
        None
    } else if s.last() == b {
        Some(s.len() - 1)
    } else {
        last_index_of(s.drop_last(), b)
    }
}

/// The truncation of `s` to `limit` bytes that keeps the extension (from the
/// last `.` on): unchanged when short enough; with a `.`, base bytes cut so
/// that base plus extension fill `limit`, or the extension alone when it is
/// not shorter than `limit`; without a `.`, the first `limit` bytes.
pub open spec fn max_length(s: Seq<u8>, limit: nat) -> Seq<u8> {
    if s.len() <= limit {
        s
    } else {
        match last_index_of(s, 0x2e) {
            Some(dot) => {
                let ext = s.skip(dot);
                if ext.len() < limit {
                    s.take(limit - ext.len()) + ext
                } else {
                    ext
                }
            },
            None => s.take(limit as int),
        }
    }
}

/// Where the last `b` of `s` stands, if any.
pub fn rposition(s: &[u8], b: u8) -> (r: Option<usize>)
    ensures
        match r {
            Some(i) => last_index_of(s@, b) == Some(i as int),
            None => last_index_of(s@, b) is None,
        },
{
    let mut i: usize = s.len();
    assert(s@.take(i as int) =~= s@);
    while i > 0
        invariant
            i <= s@.len(),
            last_index_of(s@, b) == last_index_of(s@.take(i as int), b),
        decreases i,
    {
        if s[i - 1] == b {
            return Some(i - 1);
        }
        assert(s@.take(i as int).drop_last() =~= s@.take(i - 1));
        i -= 1;
    }
    None
}

/// Truncate `input` to `limit` bytes while preserving the final extension
/// token (everything after the last `.`).
///
/// If the input is shorter than `limit`, it is returned unchanged. If the
/// extension alone is longer than `limit`, the entire extension is preserved
/// and the basename is truncated to zero; the result still exceeds `limit`.
pub fn apply(input: &[u8], limit: usize) -> (out: Vec<u8>)
    ensures
        out@ == max_length(input@, limit as nat),
{
    if input.len() <= limit {
        return copy_range(input, 0, input.len());
    }
    match rposition(input, 0x2e) {
        Some(dot_pos) => {
            proof {
                lemma_last_index_of(input@, 0x2e);
            }
            let ext_len = input.len() - dot_pos;
            if ext_len < limit {
                let keep_base = limit - ext_len;
                let mut out = copy_range(input, 0, keep_base);
                let ext = copy_range(input, dot_pos, input.len());
                let ghost base = out@;
                let mut k: usize = 0;
                while k < ext.len()
                    invariant
                        k <= ext@.len(),
                        out@ =~= base + ext@.take(k as int),
                    decreases ext@.len() - k,
                {
                    out.push(ext[k]);
                    k += 1;
                }
                assert(ext@.take(k as int) =~= ext@);
                out
            } else {
                copy_range(input, dot_pos, input.len())
            }
        },
        None => copy_range(input, 0, limit),
    }
}

pub proof fn lemma_last_index_of(s: Seq<u8>, b: u8)
    ensures
        match last_index_of(s, b) {
            Some(i) => 0 <= i < s.len() && s[i] == b && forall|j: int| i < j < s.len() ==> s[j] != b,
            None => forall|j: int| 0 <= j < s.len() ==> s[j] != b,
        },
    decreases s.len(),
{
    if s.len() > 0 {
        lemma_last_index_of(s.drop_last(), b);
        assert forall|j: int| 0 <= j < s.len() - 1 implies s[j] == s.drop_last()[j] by {}
    }
}

/// Truncating a name longer than the limit whose last `.` stands at `d`: when
/// the extension (from `d` on) is shorter than the limit, the result is
/// exactly `limit` bytes, the start of the name followed by the whole
/// extension; otherwise it is the extension alone.
pub proof fn lemma_max_length_keeps_extension(s: Seq<u8>, limit: nat, d: int)
    requires
        s.len() > limit,
        0 <= d < s.len(),
        s[d] == 0x2e,
        forall|j: int| d < j < s.len() ==> s[j] != 0x2e,
    ensures
        s.len() - d < limit ==> {
            let keep = limit - (s.len() - d);
            &&& max_length(s, limit).len() == limit
            &&& max_length(s, limit).take(keep) == s.take(keep)
            &&& max_length(s, limit).skip(keep) == s.skip(d)
        },
        s.len() - d >= limit ==> max_length(s, limit) == s.skip(d),
{
    lemma_last_index_of(s, 0x2e);
    let i = last_index_of(s, 0x2e)->Some_0;
    assert(i == d);
    if s.len() - d < limit {
        let keep = limit - (s.len() - d);
        let r = max_length(s, limit);
        assert(r.take(keep) =~= s.take(keep));
        assert(r.skip(keep) =~= s.skip(d));
    }
}

/// Truncating a name longer than the limit that holds no `.` keeps its first
/// `limit` bytes.
pub proof fn lemma_max_length_without_dot(s: Seq<u8>, limit: nat)
    requires
        s.len() > limit,
        forall|j: int| 0 <= j < s.len() ==> s[j] != 0x2e,
    ensures
        max_length(s, limit) == s.take(limit as int),
{
    lemma_last_index_of(s, 0x2e);
    if last_index_of(s, 0x2e) is Some {
        let i = last_index_of(s, 0x2e)->Some_0;
        assert(s[i] == 0x2e);
    }
}

/// What truncation keeps: a name within the limit is unchanged; otherwise the
/// result holds at most `limit` bytes unless it is a whole extension (from the
/// last `.` to the end) that is at least `limit` long; and when the input has
/// a `.`, the result ends with the input's extension.
pub proof fn lemma_max_length_bounds(s: Seq<u8>, limit: nat)
    ensures
        s.len() <= limit ==> max_length(s, limit) == s,
        max_length(s, limit).len() <= limit || (last_index_of(s, 0x2e) matches Some(d) && max_length(
            s,
            limit,
        ) == s.skip(d) && s.len() - d >= limit),
        last_index_of(s, 0x2e) matches Some(d) ==> max_length(s, limit).len() >= s.len() - d
            && max_length(s, limit).skip(max_length(s, limit).len() - (s.len() - d)) == s.skip(d),
{
    lemma_last_index_of(s, 0x2e);
    if let Some(d) = last_index_of(s, 0x2e) {
        let r = max_length(s, limit);
        let ext = s.skip(d);
        if s.len() <= limit {
            assert(r.skip(r.len() - (s.len() - d)) =~= ext);
        } else if ext.len() < limit {
            assert(r.skip(r.len() - (s.len() - d)) =~= ext);
        } else {
            assert(r.skip(0) =~= ext);
        }
    }
}

} // verus!
