//! The filter pipeline: each [`Filter`] is one byte-sequence transformation.
//! A [`Sequence`](crate::Sequence) applies its filters left to right.

use vstd::prelude::*;

pub mod iso8859_1;
pub mod max_length;
pub mod safe;
pub mod safe_platform;
pub mod uncgi;
pub mod utf8;
pub mod wipeup;

verus! {

/// Default separator byte for [`Filter::Wipeup`]: `_`.
pub const DEFAULT_SEPARATOR: u8 = 0x5F;

/// The default unsafe set of [`Filter::Safe`]: space, `()[]{}<>'"!@#$&*?;|\/`
/// and DEL. It holds the path separator `/`.
pub open spec fn default_unsafe_set() -> Seq<u8> {
    seq![0x20u8, 0x28u8, 0x29u8, 0x5Bu8, 0x5Du8, 0x7Bu8, 0x7Du8, 0x3Cu8, 0x3Eu8, 0x27u8, 0x22u8, 0x21u8, 0x40u8, 0x23u8, 0x24u8, 0x26u8, 0x2Au8, 0x3Fu8, 0x3Bu8, 0x7Cu8, 0x5Cu8, 0x2Fu8, 0x7Fu8]
}

/// The default unsafe set of [`Filter::Safe`] as executable data.
pub fn default_unsafe_chars() -> (r: &'static [u8])
    ensures
        r@ == default_unsafe_set(),
{
    let r: &'static [u8] = &[0x20u8, 0x28u8, 0x29u8, 0x5Bu8, 0x5Du8, 0x7Bu8, 0x7Du8, 0x3Cu8, 0x3Eu8, 0x27u8, 0x22u8, 0x21u8, 0x40u8, 0x23u8, 0x24u8, 0x26u8, 0x2Au8, 0x3Fu8, 0x3Bu8, 0x7Cu8, 0x5Cu8, 0x2Fu8, 0x7Fu8];
    assert(r@ =~= default_unsafe_set());
    r
}

/// A fresh vector holding `input[from..to]`.
pub fn copy_range(input: &[u8], from: usize, to: usize) -> (out: Vec<u8>)
    requires
        from <= to <= input@.len(),
    ensures
        out@ == input@.subrange(from as int, to as int),
{
    let mut out: Vec<u8> = Vec::with_capacity(to - from);
    let mut k: usize = from;
    while k < to
        invariant
            from <= k <= to <= input@.len(),
            out@ =~= input@.subrange(from as int, k as int),
        decreases to - k,
    {
        out.push(input[k]);
        k += 1;
    }
    out
}

/// One transformation step in the [`Sequence`](crate::Sequence) pipeline.
#[non_exhaustive]
#[derive(Debug, Clone, PartialEq, Eq)]
pub enum Filter {
    /// Decode CGI percent-escapes (`%XX` to a single byte).
    Uncgi,
    /// Translate Latin-1 high bytes (0x80–0xFF) to ASCII via the Latin-1 table.
    Iso8859_1,
    /// Translate UTF-8 codepoints to ASCII via the codepoint table.
    /// Unmapped codepoints pass through.
    Utf8,
    /// Replace each unsafe-set byte with `replacement`.
    Safe {
        /// Replacement byte (default `_`).
        replacement: u8,
        /// Bytes considered unsafe. See [`default_unsafe_chars`].
        unsafe_chars: Vec<u8>,
    },
    /// Collapse runs of `separator` into one occurrence; when
    /// `remove_trailing` is true, also trim leading and trailing runs.
    Wipeup {
        /// Separator byte (default [`DEFAULT_SEPARATOR`]).
        separator: u8,
        /// When true, trim leading and trailing runs of `separator`.
        remove_trailing: bool,
    },
    /// Truncate to `limit` bytes while preserving the final extension token
    /// (everything after the last `.`).
    MaxLength {
        /// Maximum total byte length of the basename.
        limit: usize,
    },
    /// Rewrite Windows-reserved device names (CON, PRN, AUX, NUL, COM1–9,
    /// LPT1–9) by suffixing the basename with `_`, and rewrite Windows-
    /// reserved characters (`< > : " | ? *`) and ASCII control bytes to `_`.
    SafePlatform,
}

/// The mathematical form of a [`Filter`]: its kind and its parameters.
pub enum FilterView {
    Uncgi,
    Iso8859_1,
    Utf8,
    Safe { replacement: u8, unsafe_chars: Seq<u8> },
    Wipeup { separator: u8, remove_trailing: bool },
    MaxLength { limit: usize },
    SafePlatform,
}

impl View for Filter {
    type V = FilterView;

    open spec fn view(&self) -> FilterView {
        match self {
            Filter::Uncgi => FilterView::Uncgi,
            Filter::Iso8859_1 => FilterView::Iso8859_1,
            Filter::Utf8 => FilterView::Utf8,
            Filter::Safe { replacement, unsafe_chars } => FilterView::Safe {
                replacement: *replacement,
                unsafe_chars: unsafe_chars@,
            },
            Filter::Wipeup { separator, remove_trailing } => FilterView::Wipeup {
                separator: *separator,
                remove_trailing: *remove_trailing,
            },
            Filter::MaxLength { limit } => FilterView::MaxLength { limit: *limit },
            Filter::SafePlatform => FilterView::SafePlatform,
        }
    }
}

/// What filter `f` makes of the name `s`.
pub open spec fn filter_output(f: Filter, s: Seq<u8>) -> Seq<u8> {
    match f {
        Filter::Uncgi => uncgi::uncgi(s),
        Filter::Iso8859_1 => iso8859_1::iso8859_1(s),
        Filter::Utf8 => utf8::utf8_translit(s),
        Filter::Safe { replacement, unsafe_chars } => safe::safe(s, replacement, unsafe_chars@),
        Filter::Wipeup { separator, remove_trailing } => wipeup::wipeup(
            s,
            separator,
            remove_trailing,
        ),
        Filter::MaxLength { limit } => max_length::max_length(s, limit as nat),
        Filter::SafePlatform => safe_platform::safe_platform(s),
    }
}

/// Holds for the `safe` filter with replacement `_` and the default unsafe set.
pub open spec fn is_safe_default(f: Filter) -> bool {
    f matches Filter::Safe { replacement, unsafe_chars } && replacement == DEFAULT_SEPARATOR
        && unsafe_chars@ == default_unsafe_set()
}

/// Holds for the `wipeup` filter on `_` with trimming.
pub open spec fn is_wipeup_default(f: Filter) -> bool {
    f == (Filter::Wipeup { separator: DEFAULT_SEPARATOR, remove_trailing: true })
}

impl Filter {
    /// A [`Filter::Safe`] with the default unsafe set and `_` replacement.
    pub fn safe_default() -> (f: Self)
        ensures
            is_safe_default(f),
    {
        Filter::Safe {
            replacement: DEFAULT_SEPARATOR,
            unsafe_chars: vstd::slice::slice_to_vec(default_unsafe_chars()),
        }
    }

    /// A [`Filter::Wipeup`] with `_` separator and trailing trimming enabled.
    pub fn wipeup_default() -> (f: Self)
        ensures
            is_wipeup_default(f),
    {
        Filter::Wipeup { separator: DEFAULT_SEPARATOR, remove_trailing: true }
    }

    /// A copy of this filter.
    pub fn duplicate(&self) -> (f: Self)
        ensures
            f@ == self@,
    {
        match self {
            Filter::Uncgi => Filter::Uncgi,
            Filter::Iso8859_1 => Filter::Iso8859_1,
            Filter::Utf8 => Filter::Utf8,
            Filter::Safe { replacement, unsafe_chars } => Filter::Safe {
                replacement: *replacement,
                unsafe_chars: vstd::slice::slice_to_vec(unsafe_chars.as_slice()),
            },
            Filter::Wipeup { separator, remove_trailing } => Filter::Wipeup {
                separator: *separator,
                remove_trailing: *remove_trailing,
            },
            Filter::MaxLength { limit } => Filter::MaxLength { limit: *limit },
            Filter::SafePlatform => Filter::SafePlatform,
        }
    }

    /// Apply this single filter to `input`, returning the transformed bytes.
    pub fn apply(&self, input: &[u8]) -> (out: Vec<u8>)
        ensures
            out@ == filter_output(*self, input@),
    {
        match self {
            Filter::Uncgi => uncgi::apply(input),
            Filter::Iso8859_1 => iso8859_1::apply(input),
            Filter::Utf8 => utf8::apply(input),
            Filter::Safe { replacement, unsafe_chars } => safe::apply(
                input,
                *replacement,
                unsafe_chars.as_slice(),
            ),
            Filter::Wipeup { separator, remove_trailing } => wipeup::apply(
                input,
                *separator,
                *remove_trailing,
            ),
            Filter::MaxLength { limit } => max_length::apply(input, *limit),
            Filter::SafePlatform => safe_platform::apply(input),
        }
    }
}

} // verus!
