//! `wipeup` filter: collapse runs of a separator byte; optionally trim the ends.

use vstd::prelude::*;

verus! {

/// `s` with every run of `sep` collapsed to a single `sep`.
pub open spec fn collapse(s: Seq<u8>, sep: u8) -> Seq<u8>
    decreases s.len(),
{
    if s.len() == 0 {
        s
    } else if s.last() == sep && s.len() >= 2 && s[s.len() - 2] == sep {
        collapse(s.drop_last(), sep)
    } else {
        collapse(s.drop_last(), sep).push(s.last())
    }
}

/// `s` without its leading run of `sep`.
pub open spec fn trim_start(s: Seq<u8>, sep: u8) -> Seq<u8>
    decreases s.len(),
{
    if s.len() > 0 && s[0] == sep {
        trim_start(s.drop_first(), sep)
    } else {
        s
    }
}

/// `s` without its trailing run of `sep`.
pub open spec fn trim_end(s: Seq<u8>, sep: u8) -> Seq<u8>
    decreases s.len(),
{
    if s.len() > 0 && s.last() == sep {
        trim_end(s.drop_last(), sep)
    } else {
        s
    }
}

/// The wipeup of `s`: runs of `sep` collapsed, and with `remove_trailing`
/// also the leading and trailing separators removed.
pub open spec fn wipeup(s: Seq<u8>, sep: u8, remove_trailing: bool) -> Seq<u8> {
    if remove_trailing {
        trim_end(trim_start(collapse(s, sep), sep), sep)
    } else {
        collapse(s, sep)
    }
}

/// Holds when no two neighbouring bytes of `s` are both `sep`.
pub open spec fn no_adjacent(s: Seq<u8>, sep: u8) -> bool {
    forall|i: int| 0 <= i && i + 1 < s.len() ==> !(#[trigger] s[i] == sep && s[i + 1] == sep)
}

/// The bytes of `s` other than `sep`, in order.
pub open spec fn non_separators(s: Seq<u8>, sep: u8) -> Seq<u8> {
    s.filter(is_not(sep))
}

/// The predicate "differs from `sep`".
pub open spec fn is_not(sep: u8) -> spec_fn(u8) -> bool {
    |b: u8| b != sep
}

/// Collapse consecutive runs of `separator` into a single occurrence. When
/// `remove_trailing` is true, also trim leading and trailing runs entirely.
pub fn apply(input: &[u8], separator: u8, remove_trailing: bool) -> (out: Vec<u8>)
    ensures
        out@ == wipeup(input@, separator, remove_trailing),
{
    let mut out: Vec<u8> = Vec::with_capacity(input.len());
    let mut prev_was_sep = false;
    let mut i: usize = 0;
    while i < input.len()
        invariant
            i <= input@.len(),
            prev_was_sep == (i > 0 && input@[i - 1] == separator),
            out@ == collapse(input@.take(i as int), separator),
        decreases input@.len() - i,
    {
        let b = input[i];
        let ghost t = input@.take(i + 1);
        assert(t.drop_last() =~= input@.take(i as int));
        if b == separator {
            if !prev_was_sep {
                out.push(b);
                prev_was_sep = true;
            }
        } else {
            out.push(b);
            prev_was_sep = false;
        }
        i += 1;
    }
    assert(input@.take(i as int) =~= input@);
    if remove_trailing {
        let ghost c = out@;
        let mut start: usize = 0;
        assert(c.subrange(0, c.len() as int) =~= c);
        while start < out.len() && out[start] == separator
            invariant
                out@ == c,
                start <= c.len(),
                trim_start(c, separator) == trim_start(c.subrange(start as int, c.len() as int), separator),
            decreases c.len() - start,
        {
            assert(c.subrange(start as int, c.len() as int).drop_first() =~= c.subrange(
                start + 1,
                c.len() as int,
            ));
            start += 1;
        }
        let ghost m = c.subrange(start as int, c.len() as int);
        assert(trim_start(c, separator) == m);
        let mut end: usize = out.len();
        assert(c.subrange(start as int, end as int) =~= m);
        while end > start && out[end - 1] == separator
            invariant
                out@ == c,
                start <= end <= c.len(),
                trim_end(m, separator) == trim_end(c.subrange(start as int, end as int), separator),
            decreases end,
        {
            assert(c.subrange(start as int, end as int).drop_last() =~= c.subrange(
                start as int,
                end - 1,
            ));
            end -= 1;
        }
        let mut trimmed: Vec<u8> = Vec::with_capacity(end - start);
        let mut k: usize = start;
        while k < end
            invariant
                out@ == c,
                start <= k <= end <= c.len(),
                trimmed@ =~= c.subrange(start as int, k as int),
            decreases end - k,
        {
            trimmed.push(out[k]);
            k += 1;
        }
        return trimmed;
    }
    out
}

proof fn lemma_collapse_props(s: Seq<u8>, sep: u8)
    ensures
        no_adjacent(collapse(s, sep), sep),
        collapse(s, sep).len() > 0 ==> s.len() > 0 && collapse(s, sep).last() == s.last(),
        non_separators(collapse(s, sep), sep) == non_separators(s, sep),
        collapse(s, sep).len() <= s.len(),
    decreases s.len(),
{
    reveal(Seq::filter);
    if s.len() > 0 {
        lemma_collapse_props(s.drop_last(), sep);
        let p = collapse(s.drop_last(), sep);
        assert(s.drop_last().push(s.last()) =~= s);
        if s.last() == sep && s.len() >= 2 && s[s.len() - 2] == sep {
            assert(s.drop_last().last() == sep);
            assert(non_separators(s, sep) =~= non_separators(s.drop_last(), sep)) by {
                assert(s.filter(is_not(sep)) == s.drop_last().filter(is_not(sep)));
            }
        } else {
            let q = p.push(s.last());
            assert(q.drop_last() =~= p);
            assert forall|i: int| 0 <= i && i + 1 < q.len() implies !(#[trigger] q[i] == sep
                && q[i + 1] == sep) by {
                if i + 1 == q.len() - 1 {
                    if s.last() == sep {
                        if p.len() > 0 {
                            assert(p.last() == s.drop_last().last());
                        }
                    }
                } else {
                    assert(q[i] == p[i] && q[i + 1] == p[i + 1]);
                }
            }
            assert(non_separators(q, sep) =~= non_separators(s, sep)) by {
                assert(q.filter(is_not(sep)) == p.filter(is_not(sep)) + (if s.last()
                    != sep {
                    seq![s.last()]
                } else {
                    Seq::<u8>::empty()
                }));
                assert(s.filter(is_not(sep)) == s.drop_last().filter(is_not(sep)) + (
                if s.last() != sep {
                    seq![s.last()]
                } else {
                    Seq::<u8>::empty()
                }));
            }
        }
    }
}

proof fn lemma_trim_start(s: Seq<u8>, sep: u8) -> (k: int)
    ensures
        0 <= k <= s.len(),
        trim_start(s, sep) == s.skip(k),
        forall|i: int| 0 <= i < k ==> s[i] == sep,
        k < s.len() ==> s[k] != sep,
    decreases s.len(),
{
    if s.len() > 0 && s[0] == sep {
        let k1 = lemma_trim_start(s.drop_first(), sep);
        assert(s.drop_first().skip(k1) =~= s.skip(k1 + 1));
        assert forall|i: int| 0 <= i < k1 + 1 implies s[i] == sep by {
            if i > 0 {
                assert(s[i] == s.drop_first()[i - 1]);
            }
        }
        k1 + 1
    } else {
        assert(s.skip(0) =~= s);
        0
    }
}

proof fn lemma_trim_end(s: Seq<u8>, sep: u8) -> (k: int)
    ensures
        0 <= k <= s.len(),
        trim_end(s, sep) == s.take(k),
        forall|i: int| k <= i < s.len() ==> s[i] == sep,
        k > 0 ==> s[k - 1] != sep,
    decreases s.len(),
{
    if s.len() > 0 && s.last() == sep {
        let k1 = lemma_trim_end(s.drop_last(), sep);
        assert(s.drop_last().take(k1) =~= s.take(k1));
        assert forall|i: int| k1 <= i < s.len() implies s[i] == sep by {
            if i < s.len() - 1 {
                assert(s[i] == s.drop_last()[i]);
            }
        }
        k1
    } else {
        assert(s.take(s.len() as int) =~= s);
        s.len() as int
    }
}

proof fn lemma_all_sep_no_non_separators(s: Seq<u8>, sep: u8)
    requires
        forall|i: int| 0 <= i < s.len() ==> s[i] == sep,
    ensures
        non_separators(s, sep).len() == 0,
{
    assert(s.all(|x: u8| !is_not(sep)(x)));
    s.lemma_all_neg_filter_empty(is_not(sep));
}

proof fn lemma_collapse_fixed(s: Seq<u8>, sep: u8)
    requires
        no_adjacent(s, sep),
    ensures
        collapse(s, sep) == s,
    decreases s.len(),
{
    if s.len() > 0 {
        let t = s.drop_last();
        assert forall|i: int| 0 <= i && i + 1 < t.len() implies !(#[trigger] t[i] == sep && t[i
            + 1] == sep) by {
            assert(t[i] == s[i] && t[i + 1] == s[i + 1]);
        }
        lemma_collapse_fixed(t, sep);
        if s.len() >= 2 {
            assert(!(s[s.len() - 2] == sep && s[s.len() - 1] == sep));
        }
        assert(t.push(s.last()) =~= s);
    }
}

/// The shape of a wipeup result: no two neighbouring separators; with
/// `remove_trailing`, no separator at either end; the bytes other than the
/// separator are exactly those of the input, in order; never longer.
pub proof fn lemma_wipeup_shape(s: Seq<u8>, sep: u8, remove_trailing: bool)
    ensures
        no_adjacent(wipeup(s, sep, remove_trailing), sep),
        remove_trailing && wipeup(s, sep, remove_trailing).len() > 0 ==> wipeup(
            s,
            sep,
            remove_trailing,
        )[0] != sep && wipeup(s, sep, remove_trailing).last() != sep,
        non_separators(wipeup(s, sep, remove_trailing), sep) == non_separators(s, sep),
        wipeup(s, sep, remove_trailing).len() <= s.len(),
{
    lemma_collapse_props(s, sep);
    if remove_trailing {
        let c = collapse(s, sep);
        let k = lemma_trim_start(c, sep);
        let m = c.skip(k);
        let e = lemma_trim_end(m, sep);
        let r = m.take(e);
        assert forall|i: int| 0 <= i && i + 1 < r.len() implies !(#[trigger] r[i] == sep && r[i
            + 1] == sep) by {
            assert(r[i] == c[k + i] && r[i + 1] == c[k + i + 1]);
        }
        if r.len() > 0 {
            assert(r[0] == m[0]);
        }
        assert(c =~= c.take(k) + m);
        assert(m =~= r + m.skip(e));
        Seq::filter_distributes_over_add(c.take(k), m, is_not(sep));
        Seq::filter_distributes_over_add(r, m.skip(e), is_not(sep));
        lemma_all_sep_no_non_separators(c.take(k), sep);
        lemma_all_sep_no_non_separators(m.skip(e), sep);
        assert(non_separators(c.take(k), sep) =~= Seq::<u8>::empty());
        assert(non_separators(m.skip(e), sep) =~= Seq::<u8>::empty());
        assert(non_separators(c, sep) =~= non_separators(r, sep));
    }
}

/// A name with no two neighbouring separators (and, when trimming, none at
/// either end) is left as it is: single separators are kept.
pub proof fn lemma_wipeup_keeps_clean_name(s: Seq<u8>, sep: u8, remove_trailing: bool)
    requires
        forall|i: int| 0 <= i && i + 1 < s.len() ==> !(#[trigger] s[i] == sep && s[i + 1] == sep),
        remove_trailing && s.len() > 0 ==> s[0] != sep && s.last() != sep,
    ensures
        wipeup(s, sep, remove_trailing) == s,
{
    assert(no_adjacent(s, sep));
    lemma_collapse_fixed(s, sep);
}

/// Collapsing sees a doubled separator as a single one wherever it stands.
proof fn lemma_collapse_double(a: Seq<u8>, b: Seq<u8>, sep: u8)
    ensures
        collapse(a + seq![sep, sep] + b, sep) == collapse(a + seq![sep] + b, sep),
    decreases b.len(),
{
    let x = a + seq![sep, sep] + b;
    let y = a + seq![sep] + b;
    if b.len() == 0 {
        assert(x.drop_last() =~= y);
        assert(x.last() == sep && x[x.len() - 2] == sep);
    } else {
        let b1 = b.drop_last();
        lemma_collapse_double(a, b1, sep);
        assert(x.drop_last() =~= a + seq![sep, sep] + b1);
        assert(y.drop_last() =~= a + seq![sep] + b1);
        assert(x.last() == y.last());
        assert(x[x.len() - 2] == y[y.len() - 2]);
    }
}

/// A run of separators counts as one: doubling a separator anywhere in a
/// name does not change its wipeup.
pub proof fn lemma_wipeup_run_is_one(a: Seq<u8>, b: Seq<u8>, sep: u8, remove_trailing: bool)
    ensures
        wipeup(a + seq![sep, sep] + b, sep, remove_trailing) == wipeup(
            a + seq![sep] + b,
            sep,
            remove_trailing,
        ),
{
    lemma_collapse_double(a, b, sep);
}

/// Wiping up a name twice gives the same name as wiping it up once.
pub proof fn lemma_wipeup_idempotent(s: Seq<u8>, sep: u8, remove_trailing: bool)
    ensures
        wipeup(wipeup(s, sep, remove_trailing), sep, remove_trailing) == wipeup(
            s,
            sep,
            remove_trailing,
        ),
{
    let r = wipeup(s, sep, remove_trailing);
    lemma_wipeup_shape(s, sep, remove_trailing);
    lemma_collapse_fixed(r, sep);
    if remove_trailing {
        let k = lemma_trim_start(r, sep);
        if r.len() > 0 {
            assert(k == 0);
        }
        assert(r.skip(k) =~= r);
        let e = lemma_trim_end(r, sep);
        if r.len() > 0 {
            assert(e == r.len());
        }
        assert(r.take(e) =~= r);
    }
}

} // verus!
