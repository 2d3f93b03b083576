//! `safe_platform` filter: rewrite names that Windows reserves.

use vstd::prelude::*;

use crate::filter::copy_range;

verus! {

/// The Windows-reserved characters `< > : " | ? *`.
pub open spec fn is_reserved_char(b: u8) -> bool {
    b == 0x3C || b == 0x3E || b == 0x3A || b == 0x22 || b == 0x7C || b == 0x3F || b == 0x2A
}

/// What a byte becomes in the first pass: reserved characters and ASCII
/// control bytes turn into `_`.
pub open spec fn platform_byte(b: u8) -> u8 {
    if is_reserved_char(b) || b < 0x20 {
        0x5F
    } else {
        b
    }
}

/// The reserved device names, upper case.
pub open spec fn reserved_bases() -> Seq<Seq<u8>> {
    seq![
        seq![0x43u8, 0x4Fu8, 0x4Eu8], // CON
        seq![0x50u8, 0x52u8, 0x4Eu8], // PRN
        seq![0x41u8, 0x55u8, 0x58u8], // AUX
        seq![0x4Eu8, 0x55u8, 0x4Cu8], // NUL
        seq![0x43u8, 0x4Fu8, 0x4Du8, 0x31u8], // COM1
        seq![0x43u8, 0x4Fu8, 0x4Du8, 0x32u8], // COM2
        seq![0x43u8, 0x4Fu8, 0x4Du8, 0x33u8], // COM3
        seq![0x43u8, 0x4Fu8, 0x4Du8, 0x34u8], // COM4
        seq![0x43u8, 0x4Fu8, 0x4Du8, 0x35u8], // COM5
        seq![0x43u8, 0x4Fu8, 0x4Du8, 0x36u8], // COM6
        seq![0x43u8, 0x4Fu8, 0x4Du8, 0x37u8], // COM7
        seq![0x43u8, 0x4Fu8, 0x4Du8, 0x38u8], // COM8
        seq![0x43u8, 0x4Fu8, 0x4Du8, 0x39u8], // COM9
        seq![0x4Cu8, 0x50u8, 0x54u8, 0x31u8], // LPT1
        seq![0x4Cu8, 0x50u8, 0x54u8, 0x32u8], // LPT2
        seq![0x4Cu8, 0x50u8, 0x54u8, 0x33u8], // LPT3
        seq![0x4Cu8, 0x50u8, 0x54u8, 0x34u8], // LPT4
        seq![0x4Cu8, 0x50u8, 0x54u8, 0x35u8], // LPT5
        seq![0x4Cu8, 0x50u8, 0x54u8, 0x36u8], // LPT6
        seq![0x4Cu8, 0x50u8, 0x54u8, 0x37u8], // LPT7
        seq![0x4Cu8, 0x50u8, 0x54u8, 0x38u8], // LPT8
        seq![0x4Cu8, 0x50u8, 0x54u8, 0x39u8], // LPT9
    ]
}

/// ASCII lower case of a byte; other bytes unchanged.
pub open spec fn ascii_lower(b: u8) -> u8 {
    if 0x41 <= b <= 0x5A {
        (b + 32) as u8
    } else {
        b
    }
}

/// Equality of two byte strings ignoring ASCII case.
pub open spec fn eq_ignore_ascii_case(a: Seq<u8>, b: Seq<u8>) -> bool {
    a.len() == b.len() && forall|i: int| 0 <= i < a.len() ==> ascii_lower(a[i]) == ascii_lower(b[i])
}

/// Holds when `base` is one of the reserved device names, ignoring ASCII case.
pub open spec fn is_reserved_base(base: Seq<u8>) -> bool {
    exists|i: int| 0 <= i < reserved_bases().len() && eq_ignore_ascii_case(base, reserved_bases()[i])
}

/// Index of the first occurrence of `b` in `s`, if any.
pub open spec fn first_index_of(s: Seq<u8>, b: u8) -> Option<int>
    decreases s.len(),
{
    if s.len() == 0 {
        None
    } else if s[0] == b {
        Some(0)
    } else {
        match first_index_of(s.drop_first(), b) {
            Some(i) => Some(i + 1),
            None => None,
        }
    }
}

/// End of the basename of `s`: its first `.`, or its length.
pub open spec fn basename_end(s: Seq<u8>) -> int {
    match first_index_of(s, 0x2e) {
        Some(i) => i,
        None => s.len() as int,
    }
}

/// `s` with its basename suffixed by `_` when the basename is reserved.
pub open spec fn suffix_reserved(s: Seq<u8>) -> Seq<u8> {
    let base = s.take(basename_end(s));
    if is_reserved_base(base) {
        base.push(0x5F) + s.skip(basename_end(s))
    } else {
        s
    }
}

/// `s` without its trailing run of `.` and space bytes.
pub open spec fn strip_trailing_dots(s: Seq<u8>) -> Seq<u8>
    decreases s.len(),
{
    if s.len() > 0 && (s.last() == 0x2e || s.last() == 0x20) {
        strip_trailing_dots(s.drop_last())
    } else {
        s
    }
}

/// The rewrite of `s`: reserved and control bytes become `_`, trailing dots
/// and spaces are removed, and then a reserved basename gets a `_` suffix.
pub open spec fn safe_platform(s: Seq<u8>) -> Seq<u8> {
    suffix_reserved(strip_trailing_dots(Seq::new(s.len(), |i: int| platform_byte(s[i]))))
}

/// The reserved device names as executable data.
fn reserved_base_entries() -> (t: &'static [&'static [u8]])
    ensures
        t@.len() == reserved_bases().len(),
        forall|i: int| 0 <= i < t@.len() ==> (#[trigger] t@[i])@ == reserved_bases()[i],
{
    let t: &'static [&'static [u8]] = &[
        &[0x43u8, 0x4Fu8, 0x4Eu8],
        &[0x50u8, 0x52u8, 0x4Eu8],
        &[0x41u8, 0x55u8, 0x58u8],
        &[0x4Eu8, 0x55u8, 0x4Cu8],
        &[0x43u8, 0x4Fu8, 0x4Du8, 0x31u8],
        &[0x43u8, 0x4Fu8, 0x4Du8, 0x32u8],
        &[0x43u8, 0x4Fu8, 0x4Du8, 0x33u8],
        &[0x43u8, 0x4Fu8, 0x4Du8, 0x34u8],
        &[0x43u8, 0x4Fu8, 0x4Du8, 0x35u8],
        &[0x43u8, 0x4Fu8, 0x4Du8, 0x36u8],
        &[0x43u8, 0x4Fu8, 0x4Du8, 0x37u8],
        &[0x43u8, 0x4Fu8, 0x4Du8, 0x38u8],
        &[0x43u8, 0x4Fu8, 0x4Du8, 0x39u8],
        &[0x4Cu8, 0x50u8, 0x54u8, 0x31u8],
        &[0x4Cu8, 0x50u8, 0x54u8, 0x32u8],
        &[0x4Cu8, 0x50u8, 0x54u8, 0x33u8],
        &[0x4Cu8, 0x50u8, 0x54u8, 0x34u8],
        &[0x4Cu8, 0x50u8, 0x54u8, 0x35u8],
        &[0x4Cu8, 0x50u8, 0x54u8, 0x36u8],
        &[0x4Cu8, 0x50u8, 0x54u8, 0x37u8],
        &[0x4Cu8, 0x50u8, 0x54u8, 0x38u8],
        &[0x4Cu8, 0x50u8, 0x54u8, 0x39u8],
    ];
    t
}

fn lower(b: u8) -> (r: u8)
    ensures
        r == ascii_lower(b),
{
    if 0x41 <= b && b <= 0x5A {
        b + 32
    } else {
        b
    }
}

fn eq_ignore_case(a: &[u8], a_len: usize, b: &[u8]) -> (r: bool)
    requires
        a_len <= a@.len(),
    ensures
        r == eq_ignore_ascii_case(a@.take(a_len as int), b@),
{
    if a_len != b.len() {
        return false;
    }
    let mut i: usize = 0;
    while i < a_len
        invariant
            a_len == b@.len(),
            a_len <= a@.len(),
            i <= a_len,
            forall|j: int| 0 <= j < i ==> ascii_lower(a@[j]) == ascii_lower(b@[j]),
        decreases a_len - i,
    {
        if lower(a[i]) != lower(b[i]) {
            assert(!(ascii_lower(a@.take(a_len as int)[i as int]) == ascii_lower(b@[i as int])));
            return false;
        }
        i += 1;
    }
    true
}

/// Whether the first `len` bytes of `name` form a reserved device name.
fn is_reserved(name: &[u8], len: usize) -> (r: bool)
    requires
        len <= name@.len(),
    ensures
        r == is_reserved_base(name@.take(len as int)),
{
    let t = reserved_base_entries();
    let mut i: usize = 0;
    while i < t.len()
        invariant
            t@.len() == reserved_bases().len(),
            forall|k: int| 0 <= k < t@.len() ==> (#[trigger] t@[k])@ == reserved_bases()[k],
            len <= name@.len(),
            i <= t@.len(),
            forall|k: int| 0 <= k < i ==> !eq_ignore_ascii_case(name@.take(len as int), reserved_bases()[k]),
        decreases t@.len() - i,
    {
        if eq_ignore_case(name, len, t[i]) {
            assert(eq_ignore_ascii_case(name@.take(len as int), reserved_bases()[i as int]));
            return true;
        }
        i += 1;
    }
    false
}

/// Rewrite Windows-reserved names and characters.
///
/// `<>:"|?*` and ASCII control bytes (0x00–0x1F) become `_`, and trailing
/// dots and spaces are removed; then a reserved basename is suffixed with
/// `_` before the extension (matched ignoring ASCII case): `CON.txt` becomes
/// `CON_.txt`, `CON ` becomes `CON_`. No result is a reserved name.
///
/// A basename that is not valid UTF-8 holds a byte at or above `0x80`, and so
/// never matches a reserved name; the check therefore runs on the bytes.
pub fn apply(input: &[u8]) -> (r: Vec<u8>)
    ensures
        r@ == safe_platform(input@),
{
    // First pass: replace reserved chars and control bytes.
    let mut out: Vec<u8> = Vec::with_capacity(input.len());
    let mut i: usize = 0;
    while i < input.len()
        invariant
            i <= input@.len(),
            out@ =~= Seq::new(i as nat, |j: int| platform_byte(input@[j])),
        decreases input@.len() - i,
    {
        let b = input[i];
        if b == 0x3C || b == 0x3E || b == 0x3A || b == 0x22 || b == 0x7C || b == 0x3F || b == 0x2A
            || b < 0x20 {
            out.push(0x5F);
        } else {
            out.push(b);
        }
        i += 1;
    }
    let ghost p0 = out@;
    assert(p0 =~= Seq::new(input@.len(), |j: int| platform_byte(input@[j])));
    // Second pass: strip trailing dots and spaces.
    let mut end: usize = out.len();
    assert(p0.take(end as int) =~= p0);
    while end > 0 && (out[end - 1] == 0x2e || out[end - 1] == 0x20)
        invariant
            out@ == p0,
            end <= p0.len(),
            strip_trailing_dots(p0) == strip_trailing_dots(p0.take(end as int)),
        decreases end,
    {
        assert(p0.take(end as int).drop_last() =~= p0.take(end - 1));
        end -= 1;
    }
    let out = copy_range(&out, 0, end);
    let ghost p1 = out@;
    assert(p1 == strip_trailing_dots(p0));
    // Third pass: a reserved basename (up to the first dot) gets a `_` suffix.
    let mut dot: usize = 0;
    assert(p1.skip(0) =~= p1);
    while dot < out.len() && out[dot] != 0x2e
        invariant
            out@ == p1,
            dot <= p1.len(),
            basename_end(p1) == dot + basename_end(p1.skip(dot as int)),
        decreases p1.len() - dot,
    {
        assert(p1.skip(dot as int).drop_first() =~= p1.skip(dot + 1));
        dot += 1;
    }
    assert(basename_end(p1) == dot);
    if is_reserved(&out, dot) {
        let mut new_out = copy_range(&out, 0, dot);
        new_out.push(0x5F);
        let mut k: usize = dot;
        while k < out.len()
            invariant
                out@ == p1,
                dot <= k <= p1.len(),
                new_out@ =~= p1.take(dot as int).push(0x5F) + p1.subrange(dot as int, k as int),
            decreases p1.len() - k,
        {
            new_out.push(out[k]);
            k += 1;
        }
        assert(p1.subrange(dot as int, p1.len() as int) =~= p1.skip(dot as int));
        return new_out;
    }
    out
}

/// Holds for bytes that Windows accepts in a name: no reserved character and
/// no ASCII control byte.
pub open spec fn is_portable_byte(b: u8) -> bool {
    !is_reserved_char(b) && b >= 0x20
}

proof fn lemma_strip_trailing_dots(s: Seq<u8>) -> (k: int)
    ensures
        0 <= k <= s.len(),
        strip_trailing_dots(s) == s.take(k),
        k > 0 ==> s[k - 1] != 0x2e && s[k - 1] != 0x20,
    decreases s.len(),
{
    if s.len() > 0 && (s.last() == 0x2e || s.last() == 0x20) {
        let k1 = lemma_strip_trailing_dots(s.drop_last());
        assert(s.drop_last().take(k1) =~= s.take(k1));
        k1
    } else {
        assert(s.take(s.len() as int) =~= s);
        s.len() as int
    }
}

/// Where the first `.` of `s` is: none before it, and it is one.
proof fn lemma_first_index_of(s: Seq<u8>, b: u8)
    ensures
        match first_index_of(s, b) {
            Some(k) => 0 <= k < s.len() && s[k] == b && forall|i: int| 0 <= i < k ==> s[i] != b,
            None => forall|i: int| 0 <= i < s.len() ==> s[i] != b,
        },
    decreases s.len(),
{
    if s.len() > 0 {
        lemma_first_index_of(s.drop_first(), b);
        assert forall|i: int| 1 <= i < s.len() implies s[i] == s.drop_first()[i - 1] by {}
    }
}

/// The first `b` of `x + y`, where `x` holds none, is the first of `y`.
proof fn lemma_first_index_of_after(x: Seq<u8>, y: Seq<u8>, b: u8)
    requires
        forall|i: int| 0 <= i < x.len() ==> x[i] != b,
    ensures
        first_index_of(x + y, b) == match first_index_of(y, b) {
            Some(j) => Some(x.len() + j),
            None => None::<int>,
        },
    decreases x.len(),
{
    if x.len() > 0 {
        assert((x + y).drop_first() =~= x.drop_first() + y);
        lemma_first_index_of_after(x.drop_first(), y, b);
    } else {
        assert(x + y =~= y);
    }
}

/// No reserved device name ends with `_`.
proof fn lemma_reserved_not_underscored(base: Seq<u8>)
    ensures
        !is_reserved_base(base.push(0x5F)),
{
    if is_reserved_base(base.push(0x5F)) {
        let i = choose|i: int|
            0 <= i < reserved_bases().len() && eq_ignore_ascii_case(base.push(0x5F), reserved_bases()[i]);
        let r = reserved_bases()[i];
        let n = base.len() as int;
        assert(ascii_lower(base.push(0x5F)[n]) == ascii_lower(r[n]));
        assert(r.last() != 0x5F && !(0x41 <= r.last() <= 0x5A && r.last() + 32 == 0x5F));
    }
}

/// The rewritten name holds no reserved character and no control byte, does
/// not end with a dot or a space, and its basename (up to its first `.`) is
/// no reserved device name: it is never a Windows reserved name.
pub proof fn lemma_safe_platform_clean(s: Seq<u8>)
    ensures
        forall|i: int|
            0 <= i < safe_platform(s).len() ==> is_portable_byte(#[trigger] safe_platform(s)[i]),
        safe_platform(s).len() > 0 ==> safe_platform(s).last() != 0x2e && safe_platform(s).last()
            != 0x20,
        !is_reserved_base(safe_platform(s).take(basename_end(safe_platform(s)))),
{
    let p0 = Seq::new(s.len(), |i: int| platform_byte(s[i]));
    let k = lemma_strip_trailing_dots(p0);
    let p1 = strip_trailing_dots(p0);
    assert forall|i: int| 0 <= i < p1.len() implies is_portable_byte(#[trigger] p1[i]) by {
        assert(p1[i] == p0[i]);
    }
    let r = suffix_reserved(p1);
    let d = basename_end(p1);
    lemma_basename_end(p1);
    lemma_first_index_of(p1, 0x2e);
    let base = p1.take(d);
    if is_reserved_base(base) {
        let tail = p1.skip(d);
        assert(r == base.push(0x5F) + tail);
        assert forall|i: int| 0 <= i < r.len() implies is_portable_byte(#[trigger] r[i]) by {
            if i < d {
                assert(r[i] == p1[i]);
            } else if i > d {
                assert(r[i] == p1[i - 1]);
            }
        }
        if tail.len() > 0 {
            assert(r.last() == p1.last());
        }
        assert forall|i: int| 0 <= i < base.push(0x5F).len() implies base.push(0x5F)[i] != 0x2e by {
            if i < d {
                assert(base.push(0x5F)[i] == p1[i]);
            }
        }
        lemma_first_index_of_after(base.push(0x5F), tail, 0x2e);
        lemma_first_index_of(tail, 0x2e);
        if tail.len() > 0 {
            assert(tail[0] == p1[d]);
            assert(first_index_of(tail, 0x2e) == Some(0int)) by {
                lemma_first_index_of(tail, 0x2e);
                if let Some(j) = first_index_of(tail, 0x2e) {
                    if j > 0 {
                        assert(tail[0] != 0x2e);
                    }
                }
            }
        } else {
            assert(tail =~= Seq::<u8>::empty());
        }
        assert(r.take(basename_end(r)) =~= base.push(0x5F));
        lemma_reserved_not_underscored(base);
    } else {
        assert(r == p1);
    }
}

/// No byte of a reserved device name lowers to `_`.
proof fn lemma_reserved_base_bytes(k: int, j: int)
    requires
        0 <= k < reserved_bases().len(),
        0 <= j < reserved_bases()[k].len(),
    ensures
        ascii_lower(reserved_bases()[k][j]) != 0x5F,
{
    let r = reserved_bases()[k];
    assert(0x41 <= r[j] <= 0x5A || 0x30 <= r[j] <= 0x39);
}

/// Two byte strings with `b` at the same places have their first `b` at the
/// same place.
proof fn lemma_first_index_of_same(x: Seq<u8>, y: Seq<u8>, b: u8)
    requires
        x.len() == y.len(),
        forall|i: int| 0 <= i < x.len() ==> (x[i] == b <==> y[i] == b),
    ensures
        first_index_of(x, b) == first_index_of(y, b),
    decreases x.len(),
{
    if x.len() > 0 {
        assert forall|i: int| 0 <= i < x.drop_first().len() implies (x.drop_first()[i] == b
            <==> y.drop_first()[i] == b) by {
            assert(x.drop_first()[i] == x[i + 1] && y.drop_first()[i] == y[i + 1]);
        }
        lemma_first_index_of_same(x.drop_first(), y.drop_first(), b);
    }
}

/// The rewrite touches only what it must. For a name that does not end with
/// a dot or a space and whose basename is no reserved device name, the length
/// is kept, each reserved character `< > : " | ? *` and each ASCII control
/// byte (below `0x20`) becomes `_`, and every other byte (bytes at or above
/// `0x80` among them, such as those of a UTF-8 `é`) is kept where it is.
pub proof fn lemma_safe_platform_keeps_portable_bytes(s: Seq<u8>)
    requires
        s.len() > 0 ==> s.last() != 0x2e && s.last() != 0x20,
        !is_reserved_base(s.take(basename_end(s))),
    ensures
        safe_platform(s).len() == s.len(),
        forall|i: int|
            0 <= i < s.len() && s[i] >= 0x20 && s[i] != 0x3C && s[i] != 0x3E && s[i] != 0x3A
                && s[i] != 0x22 && s[i] != 0x7C && s[i] != 0x3F && s[i] != 0x2A
                ==> #[trigger] safe_platform(s)[i] == s[i],
        forall|i: int|
            0 <= i < s.len() && (s[i] < 0x20 || s[i] == 0x3C || s[i] == 0x3E || s[i] == 0x3A
                || s[i] == 0x22 || s[i] == 0x7C || s[i] == 0x3F || s[i] == 0x2A)
                ==> #[trigger] safe_platform(s)[i] == 0x5F,
{
    let m = Seq::new(s.len(), |i: int| platform_byte(s[i]));
    assert(strip_trailing_dots(m) == m) by {
        if m.len() > 0 {
            assert(m.last() == platform_byte(s.last()));
        }
    }
    assert forall|i: int| 0 <= i < m.len() implies (m[i] == 0x2e <==> s[i] == 0x2e) by {}
    lemma_first_index_of_same(m, s, 0x2e);
    assert(basename_end(m) == basename_end(s));
    let d = basename_end(s);
    lemma_basename_end(s);
    if is_reserved_base(m.take(d)) {
        let k = choose|k: int|
            0 <= k < reserved_bases().len() && eq_ignore_ascii_case(m.take(d), reserved_bases()[k]);
        let r = reserved_bases()[k];
        assert forall|j: int| 0 <= j < d implies ascii_lower(s.take(d)[j]) == ascii_lower(r[j]) by {
            assert(ascii_lower(m.take(d)[j]) == ascii_lower(r[j]));
            lemma_reserved_base_bytes(k, j);
            assert(m[j] == platform_byte(s[j]));
        }
        assert(eq_ignore_ascii_case(s.take(d), r));
        assert(false);
    }
    assert(safe_platform(s) == m);
}

/// A name made only of bytes that Windows accepts, not ending with a dot or a
/// space, and whose basename is no reserved device name, is left unchanged.
pub proof fn lemma_safe_platform_keeps_portable_name(s: Seq<u8>)
    requires
        forall|i: int|
            0 <= i < s.len() ==> s[i] >= 0x20 && s[i] != 0x3C && s[i] != 0x3E && s[i] != 0x3A
                && s[i] != 0x22 && s[i] != 0x7C && s[i] != 0x3F && s[i] != 0x2A,
        s.len() > 0 ==> s.last() != 0x2e && s.last() != 0x20,
        !is_reserved_base(s.take(basename_end(s))),
    ensures
        safe_platform(s) == s,
{
    lemma_safe_platform_keeps_portable_bytes(s);
    assert(safe_platform(s) =~= s);
}

/// A name made only of bytes that Windows accepts, not ending with a dot or a
/// space, whose basename is a reserved device name, keeps every byte and gets
/// one `_` right after its basename: `CON.txt` becomes `CON_.txt`.
pub proof fn lemma_safe_platform_suffixes_reserved_name(s: Seq<u8>)
    requires
        forall|i: int|
            0 <= i < s.len() ==> s[i] >= 0x20 && s[i] != 0x3C && s[i] != 0x3E && s[i] != 0x3A
                && s[i] != 0x22 && s[i] != 0x7C && s[i] != 0x3F && s[i] != 0x2A,
        s.len() > 0 ==> s.last() != 0x2e && s.last() != 0x20,
        is_reserved_base(s.take(basename_end(s))),
    ensures
        safe_platform(s) == s.take(basename_end(s)).push(0x5F) + s.skip(basename_end(s)),
{
    let m = Seq::new(s.len(), |i: int| platform_byte(s[i]));
    assert(m =~= s);
}

proof fn lemma_basename_end(s: Seq<u8>)
    ensures
        0 <= basename_end(s) <= s.len(),
    decreases s.len(),
{
    if s.len() > 0 {
        lemma_basename_end(s.drop_first());
    }
}

} // verus!
