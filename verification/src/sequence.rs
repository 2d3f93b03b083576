//! [`Sequence`]: an ordered list of [`Filter`]s applied left to right.

use vstd::prelude::*;

use crate::filter::safe::{lemma_safe_removes_unsafe, safe};
use crate::filter::wipeup::{lemma_wipeup_shape, lemma_wipeup_idempotent, non_separators, wipeup};
use crate::filter::{
    default_unsafe_set, filter_output, is_safe_default, is_wipeup_default, Filter,
    DEFAULT_SEPARATOR,
};

verus! {

/// What the filters `fs` make of `s`, applied in order.
pub open spec fn pipeline(fs: Seq<Filter>, s: Seq<u8>) -> Seq<u8>
    decreases fs.len(),
{
    if fs.len() == 0 {
        s
    } else {
        filter_output(fs.last(), pipeline(fs.drop_last(), s))
    }
}

/// Ordered list of [`Filter`]s applied left-to-right to a name byte sequence.
///
/// Three built-in constructors mirror the named sequences:
/// [`Sequence::default`] (`safe` + `wipeup`), [`Sequence::iso8859_1`]
/// (`iso8859_1` + `safe` + `wipeup`) and [`Sequence::utf_8`]
/// (`utf_8` + `safe` + `wipeup`).
#[derive(Debug, Clone, PartialEq, Eq)]
pub struct Sequence {
    pub(crate) filters: Vec<Filter>,
    pub(crate) name: String,
}

/// Holds when `fs` is the `safe` + `wipeup` pair with their defaults.
pub open spec fn is_default_pair(fs: Seq<Filter>) -> bool {
    fs.len() == 2 && is_safe_default(fs[0]) && is_wipeup_default(fs[1])
}

/// Holds when `fs` is `first`, then the default `safe` + `wipeup` pair.
pub open spec fn is_default_pair_after(fs: Seq<Filter>, first: Filter) -> bool {
    fs.len() == 3 && fs[0] == first && is_safe_default(fs[1]) && is_wipeup_default(fs[2])
}

impl Sequence {
    /// The filters, in pipeline order.
    pub closed spec fn filter_seq(&self) -> Seq<Filter> {
        self.filters@
    }

    /// The sequence's name.
    pub closed spec fn label(&self) -> Seq<char> {
        self.name@
    }

    /// What this sequence makes of the name `s`.
    pub open spec fn output(&self, s: Seq<u8>) -> Seq<u8> {
        pipeline(self.filter_seq(), s)
    }

    /// Holds for the built-in `default` sequence: `safe` + `wipeup`, named
    /// `default`.
    pub open spec fn is_builtin_default(&self) -> bool {
        is_default_pair(self.filter_seq()) && self.label() == "default"@
    }

    /// The built-in `default` sequence (`safe` + `wipeup`).
    #[allow(clippy::should_implement_trait)]
    pub fn default() -> (s: Self)
        ensures
            s.is_builtin_default(),
    {
        let mut filters: Vec<Filter> = Vec::new();
        filters.push(Filter::safe_default());
        filters.push(Filter::wipeup_default());
        Sequence { name: "default".to_owned(), filters }
    }

    /// Built-in `iso8859_1` sequence: `iso8859_1` + `safe` + `wipeup`.
    pub fn iso8859_1() -> (s: Self)
        ensures
            is_default_pair_after(s.filter_seq(), Filter::Iso8859_1),
            s.label() == "iso8859_1"@,
    {
        let mut filters: Vec<Filter> = Vec::new();
        filters.push(Filter::Iso8859_1);
        filters.push(Filter::safe_default());
        filters.push(Filter::wipeup_default());
        Sequence { name: "iso8859_1".to_owned(), filters }
    }

    /// Built-in `utf_8` sequence: `utf_8` + `safe` + `wipeup`.
    pub fn utf_8() -> (s: Self)
        ensures
            is_default_pair_after(s.filter_seq(), Filter::Utf8),
            s.label() == "utf_8"@,
    {
        let mut filters: Vec<Filter> = Vec::new();
        filters.push(Filter::Utf8);
        filters.push(Filter::safe_default());
        filters.push(Filter::wipeup_default());
        Sequence { name: "utf_8".to_owned(), filters }
    }

    /// Empty named sequence; add filters with [`Sequence::push`].
    pub fn new(name: &str) -> (s: Self)
        ensures
            s.filter_seq() == Seq::<Filter>::empty(),
            s.label() == name@,
    {
        Sequence { name: name.to_owned(), filters: Vec::new() }
    }

    /// Append a filter and return the sequence for fluent chaining.
    pub fn push(self, filter: Filter) -> (s: Self)
        ensures
            s.filter_seq() == self.filter_seq().push(filter),
            s.label() == self.label(),
    {
        let mut me = self;
        me.filters.push(filter);
        me
    }

    /// Sequence name.
    pub fn name(&self) -> (r: &str)
        ensures
            r@ == self.label(),
    {
        self.name.as_str()
    }

    /// Filters in pipeline order.
    pub fn filters(&self) -> (r: &[Filter])
        ensures
            r@ == self.filter_seq(),
    {
        self.filters.as_slice()
    }

    /// A copy of this sequence: the same name, and filters of the same form.
    pub fn duplicate(&self) -> (s: Self)
        ensures
            s.label() == self.label(),
            s.filter_seq().len() == self.filter_seq().len(),
            forall|i: int| 0 <= i < self.filter_seq().len() ==> #[trigger] s.filter_seq()[i]@ == self.filter_seq()[i]@,
    {
        let mut filters: Vec<Filter> = Vec::new();
        let mut i: usize = 0;
        while i < self.filters.len()
            invariant
                i <= self.filters@.len(),
                filters@.len() == i,
                forall|j: int| 0 <= j < i ==> #[trigger] filters@[j]@ == self.filters@[j]@,
            decreases self.filters@.len() - i,
        {
            filters.push(self.filters[i].duplicate());
            i += 1;
        }
        Sequence { name: self.name.as_str().to_owned(), filters }
    }

    /// Apply all filters in order to `input`. Returns the transformed bytes.
    pub fn apply(&self, input: &[u8]) -> (out: Vec<u8>)
        ensures
            out@ == self.output(input@),
    {
        let mut buf = vstd::slice::slice_to_vec(input);
        let mut i: usize = 0;
        assert(self.filters@.take(0) =~= Seq::<Filter>::empty());
        while i < self.filters.len()
            invariant
                i <= self.filters@.len(),
                buf@ == pipeline(self.filters@.take(i as int), input@),
            decreases self.filters@.len() - i,
        {
            buf = self.filters[i].apply(buf.as_slice());
            assert(self.filters@.take(i + 1).drop_last() =~= self.filters@.take(i as int));
            i += 1;
        }
        assert(self.filters@.take(i as int) =~= self.filters@);
        buf
    }
}

impl Default for Sequence {
    /// The built-in `default` sequence, as [`Sequence::default`] builds it.
    fn default() -> (s: Self)
        ensures
            s.is_builtin_default(),
    {
        Sequence::default()
    }
}

/// Every byte of a wipeup result is the separator or a byte of the input.
proof fn lemma_wipeup_bytes_from_input(s: Seq<u8>, sep: u8, remove_trailing: bool)
    ensures
        forall|i: int|
            0 <= i < wipeup(s, sep, remove_trailing).len() && #[trigger] wipeup(
                s,
                sep,
                remove_trailing,
            )[i] != sep ==> s.contains(wipeup(s, sep, remove_trailing)[i]),
{
    let r = wipeup(s, sep, remove_trailing);
    lemma_wipeup_shape(s, sep, remove_trailing);
    assert forall|i: int| 0 <= i < r.len() && #[trigger] r[i] != sep implies s.contains(r[i]) by {
        r.lemma_filter_contains(crate::filter::wipeup::is_not(sep), i);
        assert(non_separators(r, sep).contains(r[i]));
        s.lemma_filter_contains_rev(crate::filter::wipeup::is_not(sep), r[i]);
    }
}

/// The default `safe` + `wipeup` pipeline is idempotent: a name it produced
/// passes through it unchanged, so running detox again renames nothing.
pub proof fn lemma_default_pair_idempotent(fs: Seq<Filter>, s: Seq<u8>)
    requires
        is_default_pair(fs),
    ensures
        pipeline(fs, pipeline(fs, s)) == pipeline(fs, s),
{
    let unsafe_set = default_unsafe_set();
    assert(!unsafe_set.contains(DEFAULT_SEPARATOR)) by {
        if unsafe_set.contains(DEFAULT_SEPARATOR) {
            let k = choose|k: int| 0 <= k < unsafe_set.len() && unsafe_set[k] == DEFAULT_SEPARATOR;
            assert(unsafe_set[k] != DEFAULT_SEPARATOR);
        }
    }
    reveal_with_fuel(pipeline, 3);
    assert(fs.drop_last().drop_last() =~= Seq::<Filter>::empty());
    assert(fs.drop_last().last() == fs[0]);
    let a = safe(s, DEFAULT_SEPARATOR, unsafe_set);
    let w = wipeup(a, DEFAULT_SEPARATOR, true);
    assert(pipeline(fs, s) == w);
    lemma_safe_removes_unsafe(s, DEFAULT_SEPARATOR, unsafe_set);
    lemma_wipeup_bytes_from_input(a, DEFAULT_SEPARATOR, true);
    let a2 = safe(w, DEFAULT_SEPARATOR, unsafe_set);
    assert forall|i: int| 0 <= i < w.len() implies a2[i] == w[i] by {
        if w[i] != DEFAULT_SEPARATOR {
            let j = choose|j: int| 0 <= j < a.len() && a[j] == w[i];
            assert(!unsafe_set.contains(a[j]));
        }
    }
    assert(a2 =~= w);
    lemma_wipeup_idempotent(a, DEFAULT_SEPARATOR, true);
    assert(pipeline(fs, w) == wipeup(a2, DEFAULT_SEPARATOR, true));
}

/// A sequence that ends with the default `safe` + `wipeup` pair (as the
/// three built-in sequences do) never yields a byte of the default unsafe
/// set: no space, no quote or bracket, and no path separator `/`, whatever
/// the name and the filters before the pair.
pub proof fn lemma_default_pair_output_safe(fs: Seq<Filter>, s: Seq<u8>)
    requires
        fs.len() >= 2,
        is_safe_default(fs[fs.len() - 2]),
        is_wipeup_default(fs[fs.len() - 1]),
    ensures
        forall|i: int| 0 <= i < pipeline(fs, s).len() ==> !default_unsafe_set().contains(#[trigger] pipeline(fs, s)[i]),
{
    let unsafe_set = default_unsafe_set();
    assert(!unsafe_set.contains(DEFAULT_SEPARATOR)) by {
        if unsafe_set.contains(DEFAULT_SEPARATOR) {
            let k = choose|k: int| 0 <= k < unsafe_set.len() && unsafe_set[k] == DEFAULT_SEPARATOR;
            assert(unsafe_set[k] != DEFAULT_SEPARATOR);
        }
    }
    let init = fs.drop_last();
    assert(init.last() == fs[fs.len() - 2]);
    let before = pipeline(init.drop_last(), s);
    let a = safe(before, DEFAULT_SEPARATOR, unsafe_set);
    assert(pipeline(init, s) == a);
    let w = wipeup(a, DEFAULT_SEPARATOR, true);
    assert(pipeline(fs, s) == w);
    lemma_safe_removes_unsafe(before, DEFAULT_SEPARATOR, unsafe_set);
    lemma_wipeup_bytes_from_input(a, DEFAULT_SEPARATOR, true);
    assert forall|i: int| 0 <= i < w.len() implies !unsafe_set.contains(#[trigger] w[i]) by {
        if w[i] != DEFAULT_SEPARATOR {
            let j = choose|j: int| 0 <= j < a.len() && a[j] == w[i];
        }
    }
}

/// The built-in `default` sequence, however it was built, has the name
/// `default` and transforms every name the same way.
pub proof fn lemma_builtin_default_unique(a: Sequence, b: Sequence, s: Seq<u8>)
    requires
        a.is_builtin_default(),
        b.is_builtin_default(),
    ensures
        a.label() == b.label(),
        a.output(s) == b.output(s),
{
    reveal_with_fuel(pipeline, 3);
    let fa = a.filter_seq();
    let fb = b.filter_seq();
    assert(fa.drop_last().drop_last() =~= Seq::<Filter>::empty());
    assert(fb.drop_last().drop_last() =~= Seq::<Filter>::empty());
    assert(fa.drop_last().last() == fa[0]);
    assert(fb.drop_last().last() == fb[0]);
}

} // verus!
