//! The table of named sequences, and the parser of `detoxrc` files.
//!
//! Grammar:
//!
//! ```text
//! config         := (sequence-block | comment | whitespace)*
//! sequence-block := "sequence" ident "{" filter-entry+ "}"
//! filter-entry   := "filter" ident (";" | "{" param* "}" ";"?)?
//! param          := ident "=" value ";"
//! value          := single-quoted byte
//! comment        := "#" up to the end of the line
//! ```

use vstd::prelude::*;
use vstd::string::StrSliceExecFns;

use crate::filter::{default_unsafe_chars, default_unsafe_set, Filter, FilterView, DEFAULT_SEPARATOR};
use crate::error::DetoxError;
use crate::filter::copy_range;
use crate::lossy::{from_utf8_lossy, utf8_lossy};
use crate::planner::NamedPath;
use vstd::utf8::encode_utf8;
use crate::sequence::Sequence;
use crate::text::{concat, concat_char, str_eq};

verus! {

/// The mathematical form of a [`DetoxConfig`]: each sequence name mapped to
/// the sequence's filters.
pub type ConfigView = Map<Seq<char>, Seq<FilterView>>;

/// The forms of the filters `fs`.
pub open spec fn filters_view(fs: Seq<crate::filter::Filter>) -> Seq<FilterView> {
    fs.map_values(|f: crate::filter::Filter| f@)
}

/// The order of names: code point by code point, a proper prefix first (the
/// order of `String`).
pub open spec fn name_precedes(a: Seq<char>, b: Seq<char>) -> bool
    decreases a.len(),
{
    if a.len() == 0 {
        b.len() > 0
    } else if b.len() == 0 {
        false
    } else if a[0] != b[0] {
        (a[0] as u32) < (b[0] as u32)
    } else {
        name_precedes(a.drop_first(), b.drop_first())
    }
}

/// No name precedes itself.
pub proof fn lemma_name_precedes_irreflexive(a: Seq<char>)
    ensures
        !name_precedes(a, a),
    decreases a.len(),
{
    if a.len() > 0 {
        lemma_name_precedes_irreflexive(a.drop_first());
    }
}

/// Of two different names, one precedes the other.
pub proof fn lemma_name_precedes_total(a: Seq<char>, b: Seq<char>)
    requires
        a != b,
    ensures
        name_precedes(a, b) || name_precedes(b, a),
    decreases a.len(),
{
    if a.len() > 0 && b.len() > 0 && a[0] == b[0] {
        if a.drop_first() == b.drop_first() {
            assert(a =~= seq![a[0]] + a.drop_first());
            assert(b =~= seq![b[0]] + b.drop_first());
        }
        lemma_name_precedes_total(a.drop_first(), b.drop_first());
    } else if a.len() > 0 && b.len() > 0 {
        vstd::utf8::char_u32_cast(a[0], a[0] as u32);
        vstd::utf8::char_u32_cast(b[0], b[0] as u32);
    } else if a.len() == 0 && b.len() == 0 {
        assert(a =~= b);
    }
}

/// The order of names is transitive.
pub proof fn lemma_name_precedes_transitive(a: Seq<char>, b: Seq<char>, c: Seq<char>)
    requires
        name_precedes(a, b),
        name_precedes(b, c),
    ensures
        name_precedes(a, c),
    decreases a.len(),
{
    if a.len() > 0 && b.len() > 0 && c.len() > 0 && a[0] == b[0] && b[0] == c[0] {
        lemma_name_precedes_transitive(a.drop_first(), b.drop_first(), c.drop_first());
    }
}

/// Holds when each name of `es` precedes the next: they are sorted and
/// pairwise different.
pub open spec fn names_ascending(es: Seq<Sequence>) -> bool {
    forall|i: int, j: int|
        0 <= i < j < es.len() ==> name_precedes(#[trigger] es[i].label(), #[trigger] es[j].label())
}

/// The table that the sequences `es` make, each under its name.
pub open spec fn entries_map(es: Seq<Sequence>) -> ConfigView
    decreases es.len(),
{
    if es.len() == 0 {
        Map::empty()
    } else {
        entries_map(es.drop_last()).insert(es.last().label(), filters_view(es.last().filter_seq()))
    }
}

/// With names pairwise different, the table holds exactly the names of `es`,
/// each with its sequence's filters.
pub proof fn lemma_entries_map(es: Seq<Sequence>)
    requires
        names_ascending(es),
    ensures
        forall|k: Seq<char>|
            entries_map(es).contains_key(k) <==> exists|i: int| 0 <= i < es.len() && #[trigger] es[i].label() == k,
        forall|i: int|
            0 <= i < es.len() ==> entries_map(es)[#[trigger] es[i].label()] == filters_view(es[i].filter_seq()),
    decreases es.len(),
{
    if es.len() > 0 {
        let init = es.drop_last();
        assert(names_ascending(init)) by {
            assert forall|i: int, j: int| 0 <= i < j < init.len() implies name_precedes(
                #[trigger] init[i].label(),
                #[trigger] init[j].label(),
            ) by {
                assert(init[i] == es[i] && init[j] == es[j]);
            }
        }
        lemma_entries_map(init);
        let n = es.len() - 1;
        assert forall|i: int| 0 <= i < n implies #[trigger] es[i].label() != es[n].label() by {
            assert(name_precedes(es[i].label(), es[n].label()));
            lemma_name_precedes_irreflexive(es[i].label());
        }
        assert forall|k: Seq<char>|
            entries_map(es).contains_key(k) <==> exists|i: int| 0 <= i < es.len() && #[trigger] es[i].label() == k by {
            if entries_map(init).contains_key(k) {
                let i = choose|i: int| 0 <= i < init.len() && #[trigger] init[i].label() == k;
                assert(es[i].label() == k);
            }
            if exists|i: int| 0 <= i < es.len() && #[trigger] es[i].label() == k {
                let i = choose|i: int| 0 <= i < es.len() && #[trigger] es[i].label() == k;
                if i < n {
                    assert(init[i].label() == k);
                }
            }
        }
        assert forall|i: int| 0 <= i < es.len() implies entries_map(es)[#[trigger] es[i].label()]
            == filters_view(es[i].filter_seq()) by {
            if i < n {
                assert(init[i] == es[i]);
            }
        }
    }
}

/// The table of the three built-in sequences.
pub open spec fn builtin_config() -> ConfigView {
    map![
        "default"@ => default_filters(),
        "iso8859_1"@ => seq![FilterView::Iso8859_1] + default_filters(),
        "utf_8"@ => seq![FilterView::Utf8] + default_filters(),
    ]
}

/// The filters of the built-in `default` sequence: `safe` and `wipeup` with
/// their defaults.
pub open spec fn default_filters() -> Seq<FilterView> {
    seq![
        FilterView::Safe { replacement: DEFAULT_SEPARATOR, unsafe_chars: default_unsafe_set() },
        FilterView::Wipeup { separator: DEFAULT_SEPARATOR, remove_trailing: true },
    ]
}

/// A parse failure: the byte position where it was found, and the message.
pub type FailureView = (int, Seq<char>);

/// Name for what std's `Debug` formatting (`{:?}`) makes of a string.
pub uninterp spec fn debug_str_form(s: Seq<char>) -> Seq<char>;

/// Name for what std's `Debug` formatting (`{:?}`) makes of an
/// `Option<char>`.
pub uninterp spec fn debug_option_char_form(c: Option<char>) -> Seq<char>;

/// Calls std's `Debug` formatting (`format!("{:?}", ..)`) on a string; the
/// contract names the result and claims nothing else of it.
#[verifier::external_body]
fn debug_str_of(s: &str) -> (r: String)
    ensures
        r@ == debug_str_form(s@),
{
    format!("{:?}", s)
}

/// Calls std's `Debug` formatting (`format!("{:?}", ..)`) on an
/// `Option<char>`; the contract names the result and claims nothing else of
/// it.
#[verifier::external_body]
fn debug_option_char_of(c: Option<char>) -> (r: String)
    ensures
        r@ == debug_option_char_form(c),
{
    format!("{:?}", c)
}

/// Whether `b` is white space between tokens (space, tab, LF, CR).
pub open spec fn is_blank(b: u8) -> bool {
    b == 0x20 || b == 0x09 || b == 0x0a || b == 0x0d
}

/// The position after the white space and comments that start at `p`.
pub open spec fn skip_trivia(src: Seq<u8>, p: int) -> int
    decreases src.len() - p, 0int,
{
    if 0 <= p < src.len() && is_blank(src[p]) {
        skip_trivia(src, p + 1)
    } else if 0 <= p < src.len() && src[p] == 0x23 {
        skip_comment(src, p + 1)
    } else {
        p
    }
}

/// The position after the rest of a comment at `p`, and the trivia after it.
pub open spec fn skip_comment(src: Seq<u8>, p: int) -> int
    decreases src.len() - p, 1int,
{
    if 0 <= p < src.len() && src[p] != 0x0a {
        skip_comment(src, p + 1)
    } else {
        skip_trivia(src, p)
    }
}

/// The position of the first line feed at or after `p`, or the end.
pub open spec fn line_end(src: Seq<u8>, p: int) -> int
    decreases src.len() - p,
{
    if 0 <= p < src.len() && src[p] != 0x0a {
        line_end(src, p + 1)
    } else {
        p
    }
}

/// The rest of the line at `p`, at most 40 bytes of it.
pub open spec fn peek_line_bytes(src: Seq<u8>, p: int) -> Seq<u8> {
    let n = line_end(src, p) - p;
    src.subrange(p, p + if n < 40 { n } else { 40 })
}

/// How a failure shows what was found at `p`.
pub open spec fn found_line(src: Seq<u8>, p: int) -> Seq<char> {
    debug_str_form(utf8_lossy(peek_line_bytes(src, p)))
}

/// Whether `b` may stand in an identifier: an ASCII letter or digit, `_`
/// or `-`.
pub open spec fn is_ident_byte(b: u8) -> bool {
    (0x30 <= b <= 0x39) || (0x41 <= b <= 0x5a) || (0x61 <= b <= 0x7a) || b == 0x5f || b == 0x2d
}

/// The end of the identifier bytes that start at `p`.
pub open spec fn ident_end(src: Seq<u8>, p: int) -> int
    decreases src.len() - p,
{
    if 0 <= p < src.len() && is_ident_byte(src[p]) {
        ident_end(src, p + 1)
    } else {
        p
    }
}

/// Whether the bytes `kw` stand at `p`.
pub open spec fn starts_at(src: Seq<u8>, p: int, kw: Seq<u8>) -> bool {
    0 <= p && p + kw.len() <= src.len() && src.subrange(p, p + kw.len()) == kw
}

/// The keyword `kw` at `p` (no trivia skipped): the position after it.
pub open spec fn expect_keyword(src: Seq<u8>, p: int, kw: Seq<char>) -> Result<int, FailureView> {
    if starts_at(src, p, encode_utf8(kw)) {
        Ok(p + encode_utf8(kw).len())
    } else {
        Err((p, "expected '"@ + kw + "', found "@ + found_line(src, p)))
    }
}

/// The byte `b` after trivia at `p`: the position after it.
pub open spec fn expect_byte(src: Seq<u8>, p: int, b: u8) -> Result<int, FailureView> {
    let q = skip_trivia(src, p);
    if 0 <= q < src.len() && src[q] == b {
        Ok(q + 1)
    } else {
        Err(
            (
                q,
                "expected '"@ + seq![b as char] + "', found "@ + debug_option_char_form(
                    if 0 <= q < src.len() {
                        Some(src[q] as char)
                    } else {
                        None
                    },
                ),
            ),
        )
    }
}

/// An identifier after trivia at `p`: its bytes and the position after it.
pub open spec fn ident(src: Seq<u8>, p: int) -> Result<(Seq<u8>, int), FailureView> {
    let q = skip_trivia(src, p);
    let e = ident_end(src, q);
    if e == q {
        Err((q, "expected identifier"@))
    } else {
        Ok((src.subrange(q, e), e))
    }
}

/// A single-quoted byte after trivia at `p`: the byte and the position after
/// the closing quote.
pub open spec fn quoted_byte(src: Seq<u8>, p: int) -> Result<(u8, int), FailureView> {
    let q = skip_trivia(src, p);
    if !(0 <= q < src.len() && src[q] == 0x27) {
        Err((q, "expected single-quoted byte literal"@))
    } else if q + 1 >= src.len() {
        Err((q + 1, "unterminated byte literal"@))
    } else if !(q + 2 < src.len() && src[q + 2] == 0x27) {
        Err((q + 2, "expected closing single quote"@))
    } else {
        Ok((src[q + 1], q + 3))
    }
}

/// The parameters of a filter entry that the filters read. The last
/// assignment of a key wins; other keys are accepted and ignored.
#[derive(Clone, Copy)]
pub struct FilterParams {
    /// `replace`: the replacement byte of `safe`.
    pub replace: Option<u8>,
    /// `sep`: the separator of `wipeup`.
    pub sep: Option<u8>,
    /// `limit`: the limit of `max_length`.
    pub limit: Option<u8>,
}

/// No parameter given.
pub open spec fn no_params() -> FilterParams {
    FilterParams { replace: None, sep: None, limit: None }
}

/// `ps` after the assignment `key = v`.
pub open spec fn set_param(ps: FilterParams, key: Seq<char>, v: u8) -> FilterParams {
    if key == "replace"@ {
        FilterParams { replace: Some(v), ..ps }
    } else if key == "sep"@ {
        FilterParams { sep: Some(v), ..ps }
    } else if key == "limit"@ {
        FilterParams { limit: Some(v), ..ps }
    } else {
        ps
    }
}

impl FilterParams {
    /// These parameters after the assignment `key = v`.
    fn assign(self, key: &str, v: u8) -> (ps: Self)
        ensures
            ps == set_param(self, key@, v),
    {
        let mut ps = self;
        if str_eq(key, "replace") {
            ps.replace = Some(v);
        } else if str_eq(key, "sep") {
            ps.sep = Some(v);
        } else if str_eq(key, "limit") {
            ps.limit = Some(v);
        }
        ps
    }
}

/// Space, tab, line feed and carriage return are all white space between
/// tokens: skipping trivia at one of them goes on past it, exactly as if it
/// started at the next byte.
pub proof fn lemma_blank_bytes_skipped(src: Seq<u8>, p: int)
    requires
        0 <= p < src.len(),
        src[p] == 0x20 || src[p] == 0x09 || src[p] == 0x0a || src[p] == 0x0d,
    ensures
        skip_trivia(src, p) == skip_trivia(src, p + 1),
        skip_trivia(src, p) > p,
{
    lemma_skip_bounds(src, p + 1);
}

/// Skipping trivia stops only at the end of the text or at a byte that can
/// start a token: never at a space, tab, line feed, carriage return or `#`.
pub proof fn lemma_skip_trivia_stops(src: Seq<u8>, p: int)
    ensures
        0 <= skip_trivia(src, p) < src.len() ==> {
            let b = src[skip_trivia(src, p)];
            b != 0x20 && b != 0x09 && b != 0x0a && b != 0x0d && b != 0x23
        },
        0 <= skip_comment(src, p) < src.len() ==> {
            let b = src[skip_comment(src, p)];
            b != 0x20 && b != 0x09 && b != 0x0a && b != 0x0d && b != 0x23
        },
    decreases src.len() - p,
{
    if 0 <= p < src.len() {
        lemma_skip_trivia_stops(src, p + 1);
        if src[p] == 0x0a {
            assert(skip_comment(src, p) == skip_trivia(src, p));
            assert(skip_trivia(src, p) == skip_trivia(src, p + 1));
        }
    } else {
        assert(skip_comment(src, p) == skip_trivia(src, p));
        assert(skip_trivia(src, p) == p);
    }
}

/// `p` is at least where it started, and not beyond the end.
pub proof fn lemma_skip_bounds(src: Seq<u8>, p: int)
    ensures
        p <= skip_trivia(src, p),
        p <= skip_comment(src, p),
        p <= src.len() ==> skip_trivia(src, p) <= src.len() && skip_comment(src, p) <= src.len(),
    decreases src.len() - p,
{
    if 0 <= p < src.len() {
        lemma_skip_bounds(src, p + 1);
    }
}

/// The end of an identifier is at or after its start, and not beyond the end.
pub proof fn lemma_ident_end_bounds(src: Seq<u8>, p: int)
    ensures
        p <= ident_end(src, p),
        p <= src.len() ==> ident_end(src, p) <= src.len(),
    decreases src.len() - p,
{
    if 0 <= p < src.len() {
        lemma_ident_end_bounds(src, p + 1);
    }
}

/// The assignments of a parameter block from `p` on, up to its `}`: the
/// parameters and the position after the `}`.
pub open spec fn params_from(src: Seq<u8>, p: int, ps: FilterParams) -> Result<(FilterParams, int), FailureView>
    decreases src.len() - p,
{
    let q = skip_trivia(src, p);
    if 0 <= q < src.len() && src[q] == 0x7d {
        Ok((ps, q + 1))
    } else {
        match ident(src, q) {
            Err(e) => Err(e),
            Ok((key, q1)) => match expect_byte(src, q1, 0x3d) {
                Err(e) => Err(e),
                Ok(q2) => match quoted_byte(src, q2) {
                    Err(e) => Err(e),
                    Ok((v, q3)) => match expect_byte(src, q3, 0x3b) {
                        Err(e) => Err(e),
                        Ok(q4) => {
                            proof {
                                lemma_skip_bounds(src, p);
                                lemma_skip_bounds(src, q);
                                lemma_ident_end_bounds(src, skip_trivia(src, q));
                                lemma_skip_bounds(src, q1);
                                lemma_skip_bounds(src, q2);
                                lemma_skip_bounds(src, q3);
                            }
                            params_from(src, q4, set_param(ps, utf8_lossy(key), v))
                        },
                    },
                },
            },
        }
    }
}

/// The form of the filter named `name` with parameters `ps`; `None` when no
/// filter has that name.
pub open spec fn build_filter(name: Seq<char>, ps: FilterParams) -> Option<FilterView> {
    if name == "uncgi"@ {
        Some(FilterView::Uncgi)
    } else if name == "iso8859_1"@ {
        Some(FilterView::Iso8859_1)
    } else if name == "utf_8"@ {
        Some(FilterView::Utf8)
    } else if name == "safe"@ {
        Some(
            FilterView::Safe {
                replacement: match ps.replace {
                    Some(b) => b,
                    None => DEFAULT_SEPARATOR,
                },
                unsafe_chars: default_unsafe_set(),
            },
        )
    } else if name == "wipeup"@ {
        Some(
            FilterView::Wipeup {
                separator: match ps.sep {
                    Some(b) => b,
                    None => DEFAULT_SEPARATOR,
                },
                remove_trailing: true,
            },
        )
    } else if name == "max_length"@ {
        Some(
            FilterView::MaxLength {
                limit: match ps.limit {
                    Some(b) => b as usize,
                    None => 255,
                },
            },
        )
    } else if name == "safe_platform"@ {
        Some(FilterView::SafePlatform)
    } else {
        None
    }
}

/// What follows a filter entry's name at `p`: a `;`, a parameter block
/// (optionally followed by `;`), or nothing.
pub open spec fn entry_params(src: Seq<u8>, p: int) -> Result<(FilterParams, int), FailureView> {
    let q = skip_trivia(src, p);
    if 0 <= q < src.len() && src[q] == 0x7b {
        match params_from(src, q + 1, no_params()) {
            Err(e) => Err(e),
            Ok((ps, q1)) => {
                let q2 = skip_trivia(src, q1);
                if 0 <= q2 < src.len() && src[q2] == 0x3b {
                    Ok((ps, q2 + 1))
                } else {
                    Ok((ps, q2))
                }
            },
        }
    } else if 0 <= q < src.len() && src[q] == 0x3b {
        Ok((no_params(), q + 1))
    } else {
        Ok((no_params(), q))
    }
}

/// A filter entry at `p`: the filter and the position after the entry.
pub open spec fn filter_entry(src: Seq<u8>, p: int) -> Result<(FilterView, int), FailureView> {
    match expect_keyword(src, p, "filter"@) {
        Err(e) => Err(e),
        Ok(q1) => match ident(src, q1) {
            Err(e) => Err(e),
            Ok((name, q2)) => match entry_params(src, q2) {
                Err(e) => Err(e),
                Ok((ps, q3)) => match build_filter(utf8_lossy(name), ps) {
                    Some(f) => Ok((f, q3)),
                    None => Err((q3, "unknown filter '"@ + utf8_lossy(name) + "'"@)),
                },
            },
        },
    }
}

/// A parameter block ends after where it starts, and not beyond the end.
pub proof fn lemma_params_from_bounds(src: Seq<u8>, p: int, ps: FilterParams)
    ensures
        params_from(src, p, ps) matches Ok((_, r)) ==> p < r <= src.len(),
    decreases src.len() - p,
{
    lemma_skip_bounds(src, p);
    let q = skip_trivia(src, p);
    if !(0 <= q < src.len() && src[q] == 0x7d) {
        if let Ok((key, q1)) = ident(src, q) {
            lemma_skip_bounds(src, q);
            lemma_ident_end_bounds(src, skip_trivia(src, q));
            if let Ok(q2) = expect_byte(src, q1, 0x3d) {
                lemma_skip_bounds(src, q1);
                if let Ok((v, q3)) = quoted_byte(src, q2) {
                    lemma_skip_bounds(src, q2);
                    if let Ok(q4) = expect_byte(src, q3, 0x3b) {
                        lemma_skip_bounds(src, q3);
                        lemma_params_from_bounds(src, q4, set_param(ps, utf8_lossy(key), v));
                    }
                }
            }
        }
    }
}

/// A filter entry ends after where it starts, and not beyond the end.
pub proof fn lemma_filter_entry_bounds(src: Seq<u8>, p: int)
    ensures
        filter_entry(src, p) matches Ok((_, r)) ==> 0 <= p < r <= src.len(),
{
    if let Ok(q1) = expect_keyword(src, p, "filter"@) {
        lemma_skip_bounds(src, q1);
        lemma_ident_end_bounds(src, skip_trivia(src, q1));
        if let Ok((name, q2)) = ident(src, q1) {
            lemma_skip_bounds(src, q2);
            let q = skip_trivia(src, q2);
            if 0 <= q < src.len() && src[q] == 0x7b {
                lemma_params_from_bounds(src, q + 1, no_params());
                if let Ok((ps, q1b)) = params_from(src, q + 1, no_params()) {
                    lemma_skip_bounds(src, q1b);
                }
            }
        }
    }
}

/// The filter entries of a sequence block from `p` on, up to its `}`: the
/// filters (after `fs`) and the position after the `}`.
pub open spec fn filters_from(src: Seq<u8>, p: int, fs: Seq<FilterView>) -> Result<(Seq<FilterView>, int), FailureView>
    decreases src.len() - p,
{
    let q = skip_trivia(src, p);
    if 0 <= q < src.len() && src[q] == 0x7d {
        Ok((fs, q + 1))
    } else {
        match filter_entry(src, q) {
            Err(e) => Err(e),
            Ok((f, q1)) => {
                proof {
                    lemma_skip_bounds(src, p);
                    lemma_filter_entry_bounds(src, q);
                }
                filters_from(src, q1, fs.push(f))
            },
        }
    }
}

/// A filter list ends after where it starts, and not beyond the end.
pub proof fn lemma_filters_from_bounds(src: Seq<u8>, p: int, fs: Seq<FilterView>)
    ensures
        filters_from(src, p, fs) matches Ok((_, r)) ==> p < r <= src.len(),
    decreases src.len() - p,
{
    lemma_skip_bounds(src, p);
    let q = skip_trivia(src, p);
    if !(0 <= q < src.len() && src[q] == 0x7d) {
        lemma_filter_entry_bounds(src, q);
        if let Ok((f, q1)) = filter_entry(src, q) {
            lemma_filters_from_bounds(src, q1, fs.push(f));
        }
    }
}

/// A sequence block at `p`: its name, its filters (at least one) and the
/// position after it.
pub open spec fn sequence_block(src: Seq<u8>, p: int) -> Result<(Seq<char>, Seq<FilterView>, int), FailureView> {
    match expect_keyword(src, p, "sequence"@) {
        Err(e) => Err(e),
        Ok(q1) => match ident(src, q1) {
            Err(e) => Err(e),
            Ok((name, q2)) => match expect_byte(src, q2, 0x7b) {
                Err(e) => Err(e),
                Ok(q3) => match filter_entry(src, skip_trivia(src, q3)) {
                    Err(e) => Err(e),
                    Ok((f, q4)) => match filters_from(src, q4, seq![f]) {
                        Err(e) => Err(e),
                        Ok((fs, q5)) => Ok((utf8_lossy(name), fs, q5)),
                    },
                },
            },
        },
    }
}

/// A sequence block ends after where it starts, and not beyond the end.
pub proof fn lemma_sequence_block_bounds(src: Seq<u8>, p: int)
    ensures
        sequence_block(src, p) matches Ok((_, _, r)) ==> 0 <= p < r <= src.len(),
{
    if let Ok(q1) = expect_keyword(src, p, "sequence"@) {
        lemma_skip_bounds(src, q1);
        lemma_ident_end_bounds(src, skip_trivia(src, q1));
        if let Ok((name, q2)) = ident(src, q1) {
            lemma_skip_bounds(src, q2);
            if let Ok(q3) = expect_byte(src, q2, 0x7b) {
                lemma_skip_bounds(src, q3);
                lemma_filter_entry_bounds(src, skip_trivia(src, q3));
                if let Ok((f, q4)) = filter_entry(src, skip_trivia(src, q3)) {
                    lemma_filters_from_bounds(src, q4, seq![f]);
                }
            }
        }
    }
}

/// The blocks of a config from `p` on (trivia already skipped), added to the
/// table `m`.
pub open spec fn config_from(src: Seq<u8>, p: int, m: ConfigView) -> Result<ConfigView, FailureView>
    decreases src.len() - p,
{
    if p >= src.len() {
        Ok(m)
    } else if starts_at(src, p, encode_utf8("sequence"@)) {
        match sequence_block(src, p) {
            Err(e) => Err(e),
            Ok((name, fs, q)) => {
                proof {
                    lemma_sequence_block_bounds(src, p);
                    lemma_skip_bounds(src, q);
                }
                config_from(src, skip_trivia(src, q), m.insert(name, fs))
            },
        }
    } else {
        Err((p, "expected 'sequence' block, found "@ + found_line(src, p)))
    }
}

/// What a `detoxrc` file of bytes `src` loads: the built-in sequences, and
/// those it defines in its blocks, a later block replacing a sequence of the
/// same name.
pub open spec fn parse_config(src: Seq<u8>) -> Result<ConfigView, FailureView> {
    config_from(src, skip_trivia(src, 0), builtin_config())
}

/// The blocks of a config from `p` on (trivia already skipped), in file
/// order: each block's name and filters.
pub open spec fn config_blocks(src: Seq<u8>, p: int) -> Result<Seq<(Seq<char>, Seq<FilterView>)>, FailureView>
    decreases src.len() - p,
{
    if p >= src.len() {
        Ok(Seq::empty())
    } else if starts_at(src, p, encode_utf8("sequence"@)) {
        match sequence_block(src, p) {
            Err(e) => Err(e),
            Ok((name, fs, q)) => {
                proof {
                    lemma_sequence_block_bounds(src, p);
                    lemma_skip_bounds(src, q);
                }
                match config_blocks(src, skip_trivia(src, q)) {
                    Err(e) => Err(e),
                    Ok(bs) => Ok(seq![(name, fs)] + bs),
                }
            },
        }
    } else {
        Err((p, "expected 'sequence' block, found "@ + found_line(src, p)))
    }
}

/// The table `m` with the blocks `bs` added in order, a later block
/// replacing an entry of the same name.
pub open spec fn apply_blocks(m: ConfigView, bs: Seq<(Seq<char>, Seq<FilterView>)>) -> ConfigView
    decreases bs.len(),
{
    if bs.len() == 0 {
        m
    } else {
        apply_blocks(m, bs.drop_last()).insert(bs.last().0, bs.last().1)
    }
}

/// The filters of the last of the blocks `bs` named `k`, if any.
pub open spec fn last_block(bs: Seq<(Seq<char>, Seq<FilterView>)>, k: Seq<char>) -> Option<Seq<FilterView>>
    decreases bs.len(),
{
    if bs.len() == 0 {
        None
    } else if bs.last().0 == k {
        Some(bs.last().1)
    } else {
        last_block(bs.drop_last(), k)
    }
}

proof fn lemma_apply_blocks_front(m: ConfigView, b: (Seq<char>, Seq<FilterView>), bs: Seq<(Seq<char>, Seq<FilterView>)>)
    ensures
        apply_blocks(m.insert(b.0, b.1), bs) == apply_blocks(m, seq![b] + bs),
    decreases bs.len(),
{
    let all = seq![b] + bs;
    if bs.len() == 0 {
        assert(all.drop_last() =~= Seq::<(Seq<char>, Seq<FilterView>)>::empty());
        assert(all.last() == b);
        assert(apply_blocks(m, all) == apply_blocks(m, all.drop_last()).insert(b.0, b.1));
    } else {
        lemma_apply_blocks_front(m, b, bs.drop_last());
        assert(all.drop_last() =~= seq![b] + bs.drop_last());
        assert(all.last() == bs.last());
        assert(apply_blocks(m, all) == apply_blocks(m, all.drop_last()).insert(bs.last().0, bs.last().1));
    }
}

proof fn lemma_config_from_blocks(src: Seq<u8>, p: int, m: ConfigView)
    ensures
        config_from(src, p, m) == match config_blocks(src, p) {
            Ok(bs) => Ok::<ConfigView, FailureView>(apply_blocks(m, bs)),
            Err(e) => Err(e),
        },
    decreases src.len() - p,
{
    if p < src.len() && starts_at(src, p, encode_utf8("sequence"@)) {
        if let Ok((name, fs, q)) = sequence_block(src, p) {
            lemma_sequence_block_bounds(src, p);
            lemma_skip_bounds(src, q);
            lemma_config_from_blocks(src, skip_trivia(src, q), m.insert(name, fs));
            if let Ok(bs) = config_blocks(src, skip_trivia(src, q)) {
                lemma_apply_blocks_front(m, (name, fs), bs);
            }
        }
    }
}

/// What adding blocks to a table gives: a name is in it when it was before
/// or some block has it, and its filters are those of the last block of
/// that name, or what the table held.
pub proof fn lemma_apply_blocks(m: ConfigView, bs: Seq<(Seq<char>, Seq<FilterView>)>, k: Seq<char>)
    ensures
        apply_blocks(m, bs).contains_key(k) <==> (m.contains_key(k) || last_block(bs, k) is Some),
        last_block(bs, k) is Some <==> exists|i: int| 0 <= i < bs.len() && #[trigger] bs[i].0 == k,
        apply_blocks(m, bs).contains_key(k) ==> apply_blocks(m, bs)[k] == match last_block(bs, k) {
            Some(fs) => fs,
            None => m[k],
        },
    decreases bs.len(),
{
    if bs.len() > 0 {
        let init = bs.drop_last();
        lemma_apply_blocks(m, init, k);
        if exists|i: int| 0 <= i < init.len() && #[trigger] init[i].0 == k {
            let i = choose|i: int| 0 <= i < init.len() && #[trigger] init[i].0 == k;
            assert(bs[i].0 == k);
        }
        if exists|i: int| 0 <= i < bs.len() && #[trigger] bs[i].0 == k {
            let i = choose|i: int| 0 <= i < bs.len() && #[trigger] bs[i].0 == k;
            if i < bs.len() - 1 {
                assert(init[i].0 == k);
            }
        }
    }
}

/// What a config that parses loads: the built-in sequences with the file's
/// blocks added in order. So a name is loaded when it is built in or some
/// block defines it; a defined name has the filters of its last block, and
/// a built-in name that no block defines keeps its built-in filters.
pub proof fn lemma_parse_config_result(src: Seq<u8>, k: Seq<char>)
    ensures
        parse_config(src) == match config_blocks(src, skip_trivia(src, 0)) {
            Ok(bs) => Ok::<ConfigView, FailureView>(apply_blocks(builtin_config(), bs)),
            Err(e) => Err(e),
        },
        config_blocks(src, skip_trivia(src, 0)) matches Ok(bs) ==> {
            let m = apply_blocks(builtin_config(), bs);
            &&& m.contains_key(k) <==> (builtin_config().contains_key(k) || exists|i: int|
                0 <= i < bs.len() && #[trigger] bs[i].0 == k)
            &&& m.contains_key(k) ==> m[k] == match last_block(bs, k) {
                Some(fs) => fs,
                None => builtin_config()[k],
            }
        },
{
    lemma_config_from_blocks(src, skip_trivia(src, 0), builtin_config());
    if let Ok(bs) = config_blocks(src, skip_trivia(src, 0)) {
        lemma_apply_blocks(builtin_config(), bs, k);
    }
}

/// Whether `m` holds the three built-in names.
pub open spec fn has_builtin_names(m: ConfigView) -> bool {
    m.contains_key("default"@) && m.contains_key("iso8859_1"@) && m.contains_key("utf_8"@)
}

proof fn lemma_config_from_keeps_names(src: Seq<u8>, p: int, m: ConfigView)
    requires
        has_builtin_names(m),
    ensures
        config_from(src, p, m) matches Ok(r) ==> has_builtin_names(r),
    decreases src.len() - p,
{
    if p < src.len() && starts_at(src, p, encode_utf8("sequence"@)) {
        if let Ok((name, fs, q)) = sequence_block(src, p) {
            lemma_sequence_block_bounds(src, p);
            lemma_skip_bounds(src, q);
            lemma_config_from_keeps_names(src, skip_trivia(src, q), m.insert(name, fs));
        }
    }
}

/// Whatever a `detoxrc` file holds, the three built-in sequence names are
/// loaded when it parses: a block can replace a built-in, never remove one.
pub proof fn lemma_builtins_always_present(src: Seq<u8>)
    ensures
        parse_config(src) matches Ok(m) ==> has_builtin_names(m),
{
    lemma_config_from_keeps_names(src, skip_trivia(src, 0), builtin_config());
}

/// A file of white space and comments loads exactly the built-in sequences.
pub proof fn lemma_trivia_only_is_builtin(src: Seq<u8>)
    requires
        skip_trivia(src, 0) >= src.len(),
    ensures
        parse_config(src) == Ok::<ConfigView, FailureView>(builtin_config()),
{
}

/// The line (from 1) of byte position `p`.
pub open spec fn line_at(src: Seq<u8>, p: int) -> int
    decreases p,
{
    if p <= 0 {
        1
    } else if src[p - 1] == 0x0a {
        line_at(src, p - 1) + 1
    } else {
        line_at(src, p - 1)
    }
}

/// The column (from 1) of byte position `p`.
pub open spec fn col_at(src: Seq<u8>, p: int) -> int
    decreases p,
{
    if p <= 0 {
        1
    } else if src[p - 1] == 0x0a {
        1
    } else {
        col_at(src, p - 1) + 1
    }
}

/// A parse failure: the byte position where it was found, and the message.
struct Failure {
    pos: usize,
    message: String,
}

/// A recursive-descent parser over the bytes of a `detoxrc` file. It keeps
/// only the byte position; the line and column of a failure are computed
/// from that position.
struct Parser<'a> {
    src: &'a [u8],
    pos: usize,
}

impl<'a> Parser<'a> {
    fn new(src: &'a str) -> (p: Self)
        ensures
            p.src@ == encode_utf8(src@),
            p.pos == 0,
    {
        Parser { src: src.as_bytes(), pos: 0 }
    }

    fn eof(&self) -> (r: bool)
        ensures
            r == (self.pos >= self.src@.len()),
    {
        self.pos >= self.src.len()
    }

    fn peek(&self) -> (r: Option<u8>)
        ensures
            r == (if self.pos < self.src@.len() {
                Some(self.src@[self.pos as int])
            } else {
                None
            }),
    {
        if self.pos < self.src.len() {
            Some(self.src[self.pos])
        } else {
            None
        }
    }

    fn bump(&mut self) -> (r: Option<u8>)
        requires
            old(self).pos <= old(self).src@.len(),
        ensures
            final(self).src == old(self).src,
            old(self).pos < old(self).src@.len() ==> r == Some(old(self).src@[old(self).pos as int])
                && final(self).pos == old(self).pos + 1,
            old(self).pos >= old(self).src@.len() ==> r is None && final(self).pos == old(self).pos,
    {
        if self.pos < self.src.len() {
            let b = self.src[self.pos];
            self.pos = self.pos + 1;
            Some(b)
        } else {
            None
        }
    }

    fn starts_with(&self, kw: &str) -> (r: bool)
        requires
            self.pos <= self.src@.len(),
        ensures
            r == starts_at(self.src@, self.pos as int, encode_utf8(kw@)),
    {
        let k = kw.as_bytes();
        let len = self.src.len();
        if k.len() > len - self.pos {
            return false;
        }
        let mut i: usize = 0;
        while i < k.len()
            invariant
                k@ == encode_utf8(kw@),
                len == self.src@.len(),
                self.pos + k@.len() <= len,
                i <= k@.len(),
                forall|j: int| 0 <= j < i ==> self.src@[self.pos + j] == #[trigger] k@[j],
            decreases k@.len() - i,
        {
            if self.src[self.pos + i] != k[i] {
                assert(self.src@.subrange(self.pos as int, self.pos + k@.len())[i as int] != k@[i as int]);
                return false;
            }
            i += 1;
        }
        assert(self.src@.subrange(self.pos as int, self.pos + k@.len()) =~= k@);
        true
    }

    fn skip_trivia(&mut self)
        requires
            old(self).pos <= old(self).src@.len(),
        ensures
            final(self).src == old(self).src,
            final(self).pos == skip_trivia(old(self).src@, old(self).pos as int),
    {
        let ghost p0 = self.pos as int;
        let ghost s0 = self.src;
        loop
            invariant
                self.src == s0,
                self.pos <= self.src@.len(),
                skip_trivia(self.src@, p0) == skip_trivia(self.src@, self.pos as int),
            ensures
                self.src == s0,
                skip_trivia(self.src@, p0) == self.pos,
            decreases self.src@.len() - self.pos,
        {
            match self.peek() {
                Some(b) => {
                    if b == 0x20 || b == 0x09 || b == 0x0a || b == 0x0d {
                        self.bump();
                    } else if b == 0x23 {
                        self.bump();
                        let ghost after_hash = self.pos;
                        loop
                            invariant
                                self.src == s0,
                                after_hash <= self.pos <= self.src@.len(),
                                skip_trivia(self.src@, p0) == skip_comment(self.src@, self.pos as int),
                            ensures
                                self.src == s0,
                                after_hash <= self.pos <= self.src@.len(),
                                skip_trivia(self.src@, p0) == skip_trivia(self.src@, self.pos as int),
                            decreases self.src@.len() - self.pos,
                        {
                            match self.peek() {
                                Some(c) => {
                                    if c == 0x0a {
                                        break;
                                    }
                                    self.bump();
                                },
                                None => {
                                    break;
                                },
                            }
                        }
                    } else {
                        break;
                    }
                },
                None => {
                    break;
                },
            }
        }
    }

    fn peek_line(&self) -> (r: String)
        requires
            self.pos <= self.src@.len(),
        ensures
            r@ == utf8_lossy(peek_line_bytes(self.src@, self.pos as int)),
    {
        let mut e: usize = self.pos;
        while e < self.src.len() && self.src[e] != 0x0a
            invariant
                self.pos <= e <= self.src@.len(),
                line_end(self.src@, self.pos as int) == line_end(self.src@, e as int),
            decreases self.src@.len() - e,
        {
            e += 1;
        }
        let n = e - self.pos;
        let end = if n < 40 { self.pos + n } else { self.pos + 40 };
        let bytes = copy_range(self.src, self.pos, end);
        from_utf8_lossy(bytes.as_slice())
    }

    fn expect(&mut self, kw: &str) -> (r: Result<(), Failure>)
        requires
            old(self).pos <= old(self).src@.len(),
        ensures
            final(self).src == old(self).src,
            final(self).pos <= final(self).src@.len(),
            r matches Err(e) ==> e.pos <= final(self).src@.len(),
            match expect_keyword(old(self).src@, old(self).pos as int, kw@) {
                Ok(q) => r is Ok && final(self).pos == q,
                Err((q, m)) => r matches Err(f) && f.pos == q && f.message@ == m,
            },
    {
        if self.starts_with(kw) {
            let n = kw.as_bytes().len();
            let len = self.src.len();
            assert(self.pos + n <= len);
            self.pos = self.pos + n;
            Ok(())
        } else {
            let found = debug_str_of(self.peek_line().as_str());
            let a = concat("expected '", kw);
            let b = concat(a.as_str(), "', found ");
            let m = concat(b.as_str(), found.as_str());
            Err(self.error(m))
        }
    }

    fn expect_byte(&mut self, b: u8) -> (r: Result<(), Failure>)
        requires
            old(self).pos <= old(self).src@.len(),
        ensures
            final(self).src == old(self).src,
            final(self).pos <= final(self).src@.len(),
            r matches Err(e) ==> e.pos <= final(self).src@.len(),
            match expect_byte(old(self).src@, old(self).pos as int, b) {
                Ok(q) => r is Ok && final(self).pos == q,
                Err((q, m)) => r matches Err(f) && f.pos == q && f.message@ == m,
            },
    {
        proof {
            lemma_skip_bounds(self.src@, self.pos as int);
        }
        self.skip_trivia();
        match self.peek() {
            Some(c) => {
                if c == b {
                    self.bump();
                    return Ok(());
                }
            },
            None => {},
        }
        let found = match self.peek() {
            Some(c) => Some(c as char),
            None => None,
        };
        let shown = debug_option_char_of(found);
        let a = concat_char("expected '", b as char);
        let a2 = concat(a.as_str(), "', found ");
        let m = concat(a2.as_str(), shown.as_str());
        proof {
            assert("expected '"@.push(b as char) =~= "expected '"@ + seq![b as char]);
        }
        Err(self.error(m))
    }

    fn parse_ident(&mut self) -> (r: Result<String, Failure>)
        requires
            old(self).pos <= old(self).src@.len(),
        ensures
            final(self).src == old(self).src,
            final(self).pos <= final(self).src@.len(),
            r matches Err(e) ==> e.pos <= final(self).src@.len(),
            match ident(old(self).src@, old(self).pos as int) {
                Ok((bytes, q)) => r matches Ok(s) && s@ == utf8_lossy(bytes) && final(self).pos == q,
                Err((q, m)) => r matches Err(f) && f.pos == q && f.message@ == m,
            },
    {
        proof {
            lemma_skip_bounds(self.src@, self.pos as int);
        }
        self.skip_trivia();
        let start = self.pos;
        let ghost s0 = self.src;
        loop
            invariant
                self.src == s0,
                start <= self.pos <= self.src@.len(),
                ident_end(self.src@, start as int) == ident_end(self.src@, self.pos as int),
            ensures
                self.src == s0,
                start <= self.pos <= self.src@.len(),
                ident_end(self.src@, start as int) == self.pos,
            decreases self.src@.len() - self.pos,
        {
            match self.peek() {
                Some(b) => {
                    if (0x30 <= b && b <= 0x39) || (0x41 <= b && b <= 0x5a) || (0x61 <= b && b <= 0x7a) || b == 0x5f
                        || b == 0x2d {
                        self.bump();
                    } else {
                        break;
                    }
                },
                None => {
                    break;
                },
            }
        }
        if start == self.pos {
            return Err(self.error("expected identifier".to_owned()));
        }
        let bytes = copy_range(self.src, start, self.pos);
        Ok(from_utf8_lossy(bytes.as_slice()))
    }

    fn parse_single_quoted_byte(&mut self) -> (r: Result<u8, Failure>)
        requires
            old(self).pos <= old(self).src@.len(),
        ensures
            final(self).src == old(self).src,
            final(self).pos <= final(self).src@.len(),
            r matches Err(e) ==> e.pos <= final(self).src@.len(),
            match quoted_byte(old(self).src@, old(self).pos as int) {
                Ok((b, q)) => r == Ok::<u8, Failure>(b) && final(self).pos == q,
                Err((q, m)) => r matches Err(f) && f.pos == q && f.message@ == m,
            },
    {
        proof {
            lemma_skip_bounds(self.src@, self.pos as int);
        }
        self.skip_trivia();
        match self.peek() {
            Some(c) => {
                if c != 0x27 {
                    return Err(self.error("expected single-quoted byte literal".to_owned()));
                }
            },
            None => {
                return Err(self.error("expected single-quoted byte literal".to_owned()));
            },
        }
        self.bump();
        let b = match self.bump() {
            Some(b) => b,
            None => {
                return Err(self.error("unterminated byte literal".to_owned()));
            },
        };
        match self.peek() {
            Some(c) => {
                if c != 0x27 {
                    return Err(self.error("expected closing single quote".to_owned()));
                }
            },
            None => {
                return Err(self.error("expected closing single quote".to_owned()));
            },
        }
        self.bump();
        Ok(b)
    }

    fn build_filter(&self, name: &str, params: FilterParams) -> (r: Result<Filter, Failure>)
        requires
            self.pos <= self.src@.len(),
        ensures
            r matches Err(e) ==> e.pos <= self.src@.len(),
            match build_filter(name@, params) {
                Some(f) => r matches Ok(g) && g@ == f,
                None => r matches Err(e) && e.pos == self.pos && e.message@ == "unknown filter '"@ + name@
                    + "'"@,
            },
    {
        if str_eq(name, "uncgi") {
            Ok(Filter::Uncgi)
        } else if str_eq(name, "iso8859_1") {
            Ok(Filter::Iso8859_1)
        } else if str_eq(name, "utf_8") {
            Ok(Filter::Utf8)
        } else if str_eq(name, "safe") {
            let replacement = match params.replace {
                Some(b) => b,
                None => DEFAULT_SEPARATOR,
            };
            Ok(Filter::Safe { replacement, unsafe_chars: vstd::slice::slice_to_vec(default_unsafe_chars()) })
        } else if str_eq(name, "wipeup") {
            let separator = match params.sep {
                Some(b) => b,
                None => DEFAULT_SEPARATOR,
            };
            Ok(Filter::Wipeup { separator, remove_trailing: true })
        } else if str_eq(name, "max_length") {
            let limit: usize = match params.limit {
                Some(b) => b as usize,
                None => 255,
            };
            Ok(Filter::MaxLength { limit })
        } else if str_eq(name, "safe_platform") {
            Ok(Filter::SafePlatform)
        } else {
            let a = concat("unknown filter '", name);
            let m = concat(a.as_str(), "'");
            Err(self.error(m))
        }
    }

    fn parse_filter_entry(&mut self) -> (r: Result<Filter, Failure>)
        requires
            old(self).pos <= old(self).src@.len(),
        ensures
            final(self).src == old(self).src,
            final(self).pos <= final(self).src@.len(),
            r matches Err(e) ==> e.pos <= final(self).src@.len(),
            match filter_entry(old(self).src@, old(self).pos as int) {
                Ok((f, q)) => r matches Ok(g) && g@ == f && final(self).pos == q,
                Err((q, m)) => r matches Err(e) && e.pos == q && e.message@ == m,
            },
    {
        let ghost src = self.src@;
        let ghost s0 = self.src;
        let ghost p0 = self.pos as int;
        match self.expect("filter") {
            Ok(_) => {},
            Err(f) => {
                return Err(f);
            },
        }
        let name = match self.parse_ident() {
            Ok(n) => n,
            Err(f) => {
                return Err(f);
            },
        };
        let ghost q2 = self.pos as int;
        proof {
            lemma_skip_bounds(src, q2);
        }
        self.skip_trivia();
        let ghost q3 = self.pos as int;
        let mut params = FilterParams { replace: None, sep: None, limit: None };
        let mut block = false;
        match self.peek() {
            Some(c) => {
                if c == 0x7b {
                    block = true;
                } else if c == 0x3b {
                    self.bump();
                }
            },
            None => {},
        }
        if block {
            self.bump();
            let ghost start = self.pos as int;
            loop
                invariant_except_break
                    params_from(src, start, no_params()) == params_from(src, self.pos as int, params),
                invariant
                    self.src == s0,
                    s0 == old(self).src,
                    src == old(self).src@,
                    p0 == old(self).pos,
                    self.src@ == src,
                    self.pos <= src.len(),
                    params_from(src, start, no_params()) matches Err(e) ==> filter_entry(src, p0) == Err::<
                        (FilterView, int),
                        FailureView,
                    >(e),
                ensures
                    self.src == s0,
                    self.pos <= src.len(),
                    params_from(src, start, no_params()) == Ok::<(FilterParams, int), FailureView>(
                        (params, self.pos as int),
                    ),
                decreases src.len() - self.pos,
            {
                let ghost here = self.pos as int;
                proof {
                    lemma_skip_bounds(src, here);
                }
                self.skip_trivia();
                let ghost q = self.pos as int;
                match self.peek() {
                    Some(c) => {
                        if c == 0x7d {
                            self.bump();
                            break;
                        }
                    },
                    None => {},
                }
                proof {
                    lemma_skip_bounds(src, q);
                    lemma_ident_end_bounds(src, skip_trivia(src, q));
                }
                let key = match self.parse_ident() {
                    Ok(k) => k,
                    Err(f) => {
                        return Err(f);
                    },
                };
                let ghost q1 = self.pos as int;
                proof {
                    lemma_skip_bounds(src, q1);
                }
                match self.expect_byte(0x3d) {
                    Ok(_) => {},
                    Err(f) => {
                        return Err(f);
                    },
                }
                let ghost qa = self.pos as int;
                proof {
                    lemma_skip_bounds(src, qa);
                }
                let value = match self.parse_single_quoted_byte() {
                    Ok(v) => v,
                    Err(f) => {
                        return Err(f);
                    },
                };
                let ghost qb = self.pos as int;
                proof {
                    lemma_skip_bounds(src, qb);
                }
                match self.expect_byte(0x3b) {
                    Ok(_) => {},
                    Err(f) => {
                        return Err(f);
                    },
                }
                params = params.assign(key.as_str(), value);
            }
            proof {
                lemma_skip_bounds(src, self.pos as int);
            }
            self.skip_trivia();
            match self.peek() {
                Some(c) => {
                    if c == 0x3b {
                        self.bump();
                    }
                },
                None => {},
            }
        }
        self.build_filter(name.as_str(), params)
    }

    fn parse_sequence(&mut self) -> (r: Result<(String, Sequence), Failure>)
        requires
            old(self).pos <= old(self).src@.len(),
        ensures
            final(self).src == old(self).src,
            final(self).pos <= final(self).src@.len(),
            r matches Err(e) ==> e.pos <= final(self).src@.len(),
            match sequence_block(old(self).src@, old(self).pos as int) {
                Ok((n, fs, q)) => r matches Ok((name, s)) && name@ == n && s.label() == n && filters_view(
                    s.filter_seq(),
                ) == fs && final(self).pos == q,
                Err((q, m)) => r matches Err(e) && e.pos == q && e.message@ == m,
            },
    {
        let ghost src = self.src@;
        let ghost s0 = self.src;
        let ghost p0 = self.pos as int;
        match self.expect("sequence") {
            Ok(_) => {},
            Err(f) => {
                return Err(f);
            },
        }
        let name = match self.parse_ident() {
            Ok(n) => n,
            Err(f) => {
                return Err(f);
            },
        };
        match self.expect_byte(0x7b) {
            Ok(_) => {},
            Err(f) => {
                return Err(f);
            },
        }
        let ghost q3 = self.pos as int;
        proof {
            lemma_skip_bounds(src, q3);
        }
        self.skip_trivia();
        let first = match self.parse_filter_entry() {
            Ok(f) => f,
            Err(f) => {
                return Err(f);
            },
        };
        let mut seq = Sequence::new(name.as_str()).push(first);
        let ghost start = self.pos as int;
        let ghost head = filters_view(seq.filter_seq());
        assert(head =~= seq![first@]);
        loop
            invariant_except_break
                filters_from(src, start, head) == filters_from(
                    src,
                    self.pos as int,
                    filters_view(seq.filter_seq()),
                ),
            invariant
                self.src == s0,
                s0 == old(self).src,
                src == old(self).src@,
                p0 == old(self).pos,
                self.src@ == src,
                self.pos <= src.len(),
                seq.label() == name@,
                filters_from(src, start, head) matches Err(e) ==> sequence_block(src, p0) == Err::<
                    (Seq<char>, Seq<FilterView>, int),
                    FailureView,
                >(e),
            ensures
                self.src == s0,
                self.pos <= src.len(),
                seq.label() == name@,
                filters_from(src, start, head) == Ok::<(Seq<FilterView>, int), FailureView>(
                    (filters_view(seq.filter_seq()), self.pos as int),
                ),
            decreases src.len() - self.pos,
        {
            let ghost here = self.pos as int;
            proof {
                lemma_skip_bounds(src, here);
            }
            self.skip_trivia();
            let ghost q = self.pos as int;
            match self.peek() {
                Some(c) => {
                    if c == 0x7d {
                        self.bump();
                        break;
                    }
                },
                None => {},
            }
            proof {
                lemma_filter_entry_bounds(src, q);
            }
            let filter = match self.parse_filter_entry() {
                Ok(f) => f,
                Err(f) => {
                    return Err(f);
                },
            };
            let ghost before = filters_view(seq.filter_seq());
            seq = seq.push(filter);
            assert(filters_view(seq.filter_seq()) =~= before.push(filter@));
        }
        Ok((name, seq))
    }

    fn error(&self, message: String) -> (f: Failure)
        ensures
            f.pos == self.pos,
            f.message == message,
    {
        Failure { pos: self.pos, message }
    }
}

/// The line and column (both from 1) of byte position `pos`.
fn line_col(src: &[u8], pos: usize) -> (r: (usize, usize))
    requires
        pos <= src@.len(),
        src@.len() < usize::MAX,
    ensures
        r.0 == line_at(src@, pos as int),
        r.1 == col_at(src@, pos as int),
{
    let mut line: usize = 1;
    let mut col: usize = 1;
    let mut k: usize = 0;
    while k < pos
        invariant
            k <= pos <= src@.len() < usize::MAX,
            line == line_at(src@, k as int),
            col == col_at(src@, k as int),
            1 <= line,
            1 <= col,
            line + col <= k + 2,
        decreases pos - k,
    {
        if src[k] == 0x0a {
            line = line + 1;
            col = 1;
        } else {
            col = col + 1;
        }
        k += 1;
    }
    (line, col)
}

/// The error that a parse failure of the file at `path` becomes.
fn failure_error(src: &[u8], f: Failure, path: &[u8]) -> (e: DetoxError)
    requires
        f.pos <= src@.len(),
        src@.len() < usize::MAX,
    ensures
        e matches DetoxError::Parse { path: p, line, column, message } && p@ == path@ && line == line_at(
            src@,
            f.pos as int,
        ) && column == col_at(src@, f.pos as int) && message@ == f.message@,
{
    let (line, column) = line_col(src, f.pos);
    DetoxError::Parse { path: vstd::slice::slice_to_vec(path), line, column, message: f.message }
}

/// Parse the `detoxrc` text `src` (of the file at `path`). The three
/// built-in sequences are always present; a block defines a sequence, and
/// replaces one of the same name. A failure is a [`DetoxError::Parse`] with
/// the line and column where it was found.
pub fn parse(src: &str, path: &[u8]) -> (r: Result<DetoxConfig, DetoxError>)
    requires
        encode_utf8(src@).len() < usize::MAX,
    ensures
        match parse_config(encode_utf8(src@)) {
            Ok(m) => r matches Ok(c) && c@ == m,
            Err((pos, msg)) => r matches Err(DetoxError::Parse { path: p, line, column, message }) && p@
                == path@ && line == line_at(encode_utf8(src@), pos) && column == col_at(
                encode_utf8(src@),
                pos,
            ) && message@ == msg,
        },
{
    let mut p = Parser::new(src);
    let mut cfg = DetoxConfig::built_in();
    let ghost bytes = encode_utf8(src@);
    proof {
        lemma_skip_bounds(bytes, 0);
    }
    p.skip_trivia();
    while !p.eof()
        invariant
            bytes == encode_utf8(src@),
            p.src@ == bytes,
            bytes.len() < usize::MAX,
            p.pos <= bytes.len(),
            parse_config(bytes) == config_from(bytes, p.pos as int, cfg@),
        decreases bytes.len() - p.pos,
    {
        let ghost q = p.pos as int;
        if p.starts_with("sequence") {
            proof {
                lemma_sequence_block_bounds(bytes, q);
            }
            match p.parse_sequence() {
                Ok((_name, seq)) => {
                    cfg.insert(seq);
                },
                Err(f) => {
                    return Err(failure_error(p.src, f, path));
                },
            }
        } else {
            let found = debug_str_of(p.peek_line().as_str());
            let m = concat("expected 'sequence' block, found ", found.as_str());
            return Err(failure_error(p.src, p.error(m), path));
        }
        proof {
            lemma_skip_bounds(bytes, p.pos as int);
        }
        p.skip_trivia();
    }
    Ok(cfg)
}

/// The home directory: `HOME` when set and not empty, else `USERPROFILE`
/// when set and not empty.
pub open spec fn home_of(home: Option<Seq<char>>, user_profile: Option<Seq<char>>) -> Option<Seq<char>> {
    match home {
        Some(h) if h.len() > 0 => Some(h),
        _ => match user_profile {
            Some(u) if u.len() > 0 => Some(u),
            _ => None,
        },
    }
}

/// The characters of an optional string.
pub open spec fn opt_view(s: Option<&str>) -> Option<Seq<char>> {
    match s {
        Some(t) => Some(t@),
        None => None,
    }
}

/// The `detoxrc` files to look for when no file is named on the command
/// line, in order of precedence: `$XDG_CONFIG_HOME/detoxrc`, then
/// `.detoxrc` in the home directory, then `/etc/detoxrc`.
pub open spec fn config_candidate_views(xdg: Option<Seq<char>>, home: Option<Seq<char>>) -> Seq<(Seq<u8>, Seq<u8>)> {
    let a: Seq<(Seq<u8>, Seq<u8>)> = match xdg {
        Some(x) => seq![(encode_utf8(x), encode_utf8("detoxrc"@))],
        None => Seq::empty(),
    };
    let b: Seq<(Seq<u8>, Seq<u8>)> = match home {
        Some(h) => seq![(encode_utf8(h), encode_utf8(".detoxrc"@))],
        None => Seq::empty(),
    };
    a + b + seq![(encode_utf8("/etc"@), encode_utf8("detoxrc"@))]
}

/// The home directory, from the values of `HOME` and `USERPROFILE` (`None`
/// when unset): the first that is set and not empty.
pub fn home_dir<'a>(home: Option<&'a str>, user_profile: Option<&'a str>) -> (r: Option<&'a str>)
    ensures
        opt_view(r) == home_of(opt_view(home), opt_view(user_profile)),
{
    match home {
        Some(h) => {
            if h.unicode_len() > 0 {
                return Some(h);
            }
        },
        None => {},
    }
    match user_profile {
        Some(u) => {
            if u.unicode_len() > 0 {
                return Some(u);
            }
        },
        None => {},
    }
    None
}

/// The `detoxrc` files to look for, in order, given the values of
/// `XDG_CONFIG_HOME`, `HOME` and `USERPROFILE` (`None` when unset). The first
/// that exists is read; a file named on the command line is read instead.
pub fn config_candidates(xdg_config_home: Option<&str>, home: Option<&str>, user_profile: Option<&str>) -> (r: Vec<
    NamedPath,
>)
    ensures
        r@.map_values(|p: NamedPath| p@) == config_candidate_views(
            opt_view(xdg_config_home),
            home_of(opt_view(home), opt_view(user_profile)),
        ),
{
    let mut r: Vec<NamedPath> = Vec::new();
    match xdg_config_home {
        Some(x) => {
            r.push(NamedPath::new(x.as_bytes(), "detoxrc".as_bytes()));
        },
        None => {},
    }
    match home_dir(home, user_profile) {
        Some(h) => {
            r.push(NamedPath::new(h.as_bytes(), ".detoxrc".as_bytes()));
        },
        None => {},
    }
    r.push(NamedPath::new("/etc".as_bytes(), "detoxrc".as_bytes()));
    proof {
        let v = config_candidate_views(
            opt_view(xdg_config_home),
            home_of(opt_view(home), opt_view(user_profile)),
        );
        assert(r@.map_values(|p: NamedPath| p@) =~= v);
    }
    r
}

/// The named sequences that are loaded: the three built-ins, and those a
/// `detoxrc` file defines.
#[derive(Debug)]
pub struct DetoxConfig {
    sequences: Vec<Sequence>,
}

impl View for DetoxConfig {
    type V = ConfigView;

    closed spec fn view(&self) -> ConfigView {
        entries_map(self.sequences@)
    }
}

impl DetoxConfig {
    #[verifier::type_invariant]
    spec fn well_formed(self) -> bool {
        names_ascending(self.sequences@)
    }

    /// A config holding only the three built-in sequences (`default`,
    /// `iso8859_1`, `utf_8`), the fallback when no `detoxrc` is found.
    pub fn built_in() -> (c: Self)
        ensures
            c@ == builtin_config(),
    {
        let mut sequences: Vec<Sequence> = Vec::new();
        sequences.push(Sequence::default());
        sequences.push(Sequence::iso8859_1());
        sequences.push(Sequence::utf_8());
        proof {
            let es = sequences@;
            reveal_strlit("default");
            reveal_strlit("iso8859_1");
            reveal_strlit("utf_8");
            assert(name_precedes(es[0].label(), es[1].label()));
            assert(name_precedes(es[1].label(), es[2].label()));
            assert(name_precedes(es[0].label(), es[2].label()));
            assert(names_ascending(es));
            lemma_entries_map(es);
            assert(filters_view(es[0].filter_seq()) =~= default_filters());
            assert(filters_view(es[1].filter_seq()) =~= seq![FilterView::Iso8859_1] + default_filters());
            assert(filters_view(es[2].filter_seq()) =~= seq![FilterView::Utf8] + default_filters());
            assert(entries_map(es) =~= builtin_config()) by {
                assert forall|k: Seq<char>| #[trigger] entries_map(es).contains_key(k)
                    <==> builtin_config().contains_key(k) by {
                    if entries_map(es).contains_key(k) {
                        let i = choose|i: int| 0 <= i < es.len() && #[trigger] es[i].label() == k;
                    }
                    if k == "default"@ {
                        assert(es[0].label() == k);
                    } else if k == "iso8859_1"@ {
                        assert(es[1].label() == k);
                    } else if k == "utf_8"@ {
                        assert(es[2].label() == k);
                    }
                }
            }
        }
        DetoxConfig { sequences }
    }

    /// The sequence named `name`, if one is loaded.
    pub fn get(&self, name: &str) -> (r: Option<&Sequence>)
        ensures
            match r {
                Some(s) => self@.contains_key(name@) && s.label() == name@ && filters_view(s.filter_seq())
                    == self@[name@],
                None => !self@.contains_key(name@),
            },
    {
        proof {
            use_type_invariant(self);
            lemma_entries_map(self.sequences@);
        }
        let mut i: usize = 0;
        while i < self.sequences.len()
            invariant
                i <= self.sequences@.len(),
                forall|j: int| 0 <= j < i ==> #[trigger] self.sequences@[j].label() != name@,
            decreases self.sequences@.len() - i,
        {
            if str_eq(self.sequences[i].name(), name) {
                proof {
                    use_type_invariant(self);
                    lemma_entries_map(self.sequences@);
                    assert(self.sequences@[i as int].label() == name@);
                }
                return Some(&self.sequences[i]);
            }
            i += 1;
        }
        None
    }

    /// The loaded sequence names, in ascending order (`-L`).
    pub fn list_names(&self) -> (r: Vec<&str>)
        ensures
            forall|i: int, j: int| 0 <= i < j < r@.len() ==> name_precedes(#[trigger] r@[i]@, #[trigger] r@[j]@),
            forall|k: Seq<char>| self@.contains_key(k) <==> exists|i: int| 0 <= i < r@.len() && #[trigger] r@[i]@ == k,
    {
        proof {
            use_type_invariant(self);
            lemma_entries_map(self.sequences@);
        }
        let mut r: Vec<&str> = Vec::new();
        let mut i: usize = 0;
        while i < self.sequences.len()
            invariant
                i <= self.sequences@.len(),
                r@.len() == i,
                forall|j: int| 0 <= j < i ==> #[trigger] r@[j]@ == self.sequences@[j].label(),
            decreases self.sequences@.len() - i,
        {
            r.push(self.sequences[i].name());
            i += 1;
        }
        proof {
            let es = self.sequences@;
            assert forall|i: int, j: int| 0 <= i < j < r@.len() implies name_precedes(
                #[trigger] r@[i]@,
                #[trigger] r@[j]@,
            ) by {
                assert(name_precedes(es[i].label(), es[j].label()));
            }
            assert forall|k: Seq<char>| self@.contains_key(k) <==> exists|i: int|
                0 <= i < r@.len() && #[trigger] r@[i]@ == k by {
                if self@.contains_key(k) {
                    let i = choose|i: int| 0 <= i < es.len() && #[trigger] es[i].label() == k;
                    assert(r@[i]@ == k);
                }
                if exists|i: int| 0 <= i < r@.len() && #[trigger] r@[i]@ == k {
                    let i = choose|i: int| 0 <= i < r@.len() && #[trigger] r@[i]@ == k;
                    assert(es[i].label() == k);
                }
            }
        }
        r
    }

    /// Add `seq` under its name, in place of a loaded sequence of that name.
    fn insert(&mut self, seq: Sequence)
        ensures
            final(self)@ == old(self)@.insert(seq.label(), filters_view(seq.filter_seq())),
    {
        proof {
            use_type_invariant(&*self);
        }
        let mut es: Vec<Sequence> = Vec::new();
        std::mem::swap(&mut es, &mut self.sequences);
        let ghost old_es = es@;
        let ghost name = seq.label();
        let mut j: usize = 0;
        while j < es.len()
            invariant
                es@ == old_es,
                name == seq.label(),
                j <= old_es.len(),
                forall|i: int| 0 <= i < j ==> name_precedes(#[trigger] old_es[i].label(), name),
            ensures
                es@ == old_es,
                j <= old_es.len(),
                forall|i: int| 0 <= i < j ==> name_precedes(#[trigger] old_es[i].label(), name),
                j < old_es.len() ==> !name_precedes(old_es[j as int].label(), name),
            decreases old_es.len() - j,
        {
            if !precedes(es[j].name(), seq.name()) {
                break;
            }
            j += 1;
        }
        proof {
            lemma_entries_map(old_es);
        }
        if j < es.len() && str_eq(es[j].name(), seq.name()) {
            let ghost fv = filters_view(seq.filter_seq());
            es.set(j, seq);
            proof {
                let es = es@;
                assert(forall|i: int| 0 <= i < es.len() ==> #[trigger] es[i].label() == old_es[i].label());
                assert(names_ascending(es));
                lemma_entries_map(es);
                assert(entries_map(es) =~= entries_map(old_es).insert(name, fv)) by {
                    assert forall|k: Seq<char>| #[trigger] entries_map(es).contains_key(k)
                        <==> entries_map(old_es).insert(name, fv).contains_key(k) by {
                        if entries_map(es).contains_key(k) {
                            let i = choose|i: int| 0 <= i < es.len() && #[trigger] es[i].label() == k;
                            assert(old_es[i].label() == k);
                        }
                        if entries_map(old_es).contains_key(k) {
                            let i = choose|i: int| 0 <= i < old_es.len() && #[trigger] old_es[i].label() == k;
                            assert(es[i].label() == k);
                        }
                        if k == name {
                            assert(es[j as int].label() == k);
                        }
                    }
                    assert forall|k: Seq<char>| #[trigger] entries_map(es).contains_key(k) implies entries_map(es)[k]
                        == entries_map(old_es).insert(name, fv)[k] by {
                        let i = choose|i: int| 0 <= i < es.len() && #[trigger] es[i].label() == k;
                        if i != j {
                            assert(es[i] == old_es[i]);
                            assert(k != name) by {
                                if i < j {
                                    lemma_name_precedes_irreflexive(name);
                                } else {
                                    assert(name_precedes(old_es[j as int].label(), old_es[i].label()));
                                    lemma_name_precedes_irreflexive(name);
                                }
                            }
                        }
                    }
                }
            }
        } else {
            let ghost fv = filters_view(seq.filter_seq());
            proof {
                if j < old_es.len() {
                    lemma_name_precedes_total(old_es[j as int].label(), name);
                }
                assert forall|i: int| j <= i < old_es.len() implies name_precedes(name, #[trigger] old_es[i].label()) by {
                    if i > j {
                        assert(name_precedes(old_es[j as int].label(), old_es[i].label()));
                        lemma_name_precedes_transitive(name, old_es[j as int].label(), old_es[i].label());
                    }
                }
            }
            es.insert(j, seq);
            proof {
                let es = es@;
                assert(es[j as int].label() == name);
                assert forall|a: int, b: int| 0 <= a < b < es.len() implies name_precedes(
                    #[trigger] es[a].label(),
                    #[trigger] es[b].label(),
                ) by {
                    if b < j {
                        assert(es[a] == old_es[a] && es[b] == old_es[b]);
                    } else if b == j {
                        assert(es[a] == old_es[a]);
                    } else if a > j {
                        assert(es[a] == old_es[a - 1] && es[b] == old_es[b - 1]);
                    } else if a == j {
                        assert(es[b] == old_es[b - 1]);
                        assert(name_precedes(name, old_es[b - 1].label()));
                    } else {
                        assert(es[a] == old_es[a] && es[b] == old_es[b - 1]);
                        assert(name_precedes(name, old_es[b - 1].label()));
                        lemma_name_precedes_transitive(old_es[a].label(), name, old_es[b - 1].label());
                    }
                }
                lemma_entries_map(es);
                assert(entries_map(es) =~= entries_map(old_es).insert(name, fv)) by {
                    assert forall|k: Seq<char>| #[trigger] entries_map(es).contains_key(k)
                        <==> entries_map(old_es).insert(name, fv).contains_key(k) by {
                        if entries_map(es).contains_key(k) && k != name {
                            let i = choose|i: int| 0 <= i < es.len() && #[trigger] es[i].label() == k;
                            if i < j {
                                assert(old_es[i].label() == k);
                            } else {
                                assert(old_es[i - 1].label() == k);
                            }
                        }
                        if entries_map(old_es).contains_key(k) {
                            let i = choose|i: int| 0 <= i < old_es.len() && #[trigger] old_es[i].label() == k;
                            if i < j {
                                assert(es[i].label() == k);
                            } else {
                                assert(es[i + 1].label() == k);
                            }
                        }
                    }
                    assert forall|k: Seq<char>| #[trigger] entries_map(es).contains_key(k) implies entries_map(es)[k]
                        == entries_map(old_es).insert(name, fv)[k] by {
                        let i = choose|i: int| 0 <= i < es.len() && #[trigger] es[i].label() == k;
                        if i < j {
                            assert(es[i] == old_es[i]);
                        } else if i > j {
                            assert(es[i] == old_es[i - 1]);
                        }
                    }
                }
            }
        }
        self.sequences = es;
    }
}

impl Clone for DetoxConfig {
    /// A copy holding the same sequences.
    fn clone(&self) -> (c: Self)
        ensures
            c@ == self@,
    {
        proof {
            use_type_invariant(self);
        }
        let mut sequences: Vec<Sequence> = Vec::new();
        let mut i: usize = 0;
        while i < self.sequences.len()
            invariant
                i <= self.sequences@.len(),
                sequences@.len() == i,
                forall|j: int| 0 <= j < i ==> #[trigger] sequences@[j].label() == self.sequences@[j].label(),
                forall|j: int| 0 <= j < i ==> filters_view(#[trigger] sequences@[j].filter_seq())
                    == filters_view(self.sequences@[j].filter_seq()),
            decreases self.sequences@.len() - i,
        {
            let s = self.sequences[i].duplicate();
            assert(filters_view(s.filter_seq()) =~= filters_view(self.sequences@[i as int].filter_seq()));
            sequences.push(s);
            i += 1;
        }
        proof {
            let es = sequences@;
            let old_es = self.sequences@;
            assert(names_ascending(es)) by {
                assert forall|a: int, b: int| 0 <= a < b < es.len() implies name_precedes(
                    #[trigger] es[a].label(),
                    #[trigger] es[b].label(),
                ) by {
                    assert(name_precedes(old_es[a].label(), old_es[b].label()));
                }
            }
            lemma_entries_map(es);
            lemma_entries_map(old_es);
            assert(entries_map(es) =~= entries_map(old_es)) by {
                assert forall|k: Seq<char>| #[trigger] entries_map(es).contains_key(k)
                    <==> entries_map(old_es).contains_key(k) by {
                    if entries_map(es).contains_key(k) {
                        let i = choose|i: int| 0 <= i < es.len() && #[trigger] es[i].label() == k;
                        assert(old_es[i].label() == k);
                    }
                    if entries_map(old_es).contains_key(k) {
                        let i = choose|i: int| 0 <= i < old_es.len() && #[trigger] old_es[i].label() == k;
                        assert(es[i].label() == k);
                    }
                }
                assert forall|k: Seq<char>| #[trigger] entries_map(es).contains_key(k) implies entries_map(es)[k]
                    == entries_map(old_es)[k] by {
                    let i = choose|i: int| 0 <= i < es.len() && #[trigger] es[i].label() == k;
                    assert(old_es[i].label() == k);
                }
            }
        }
        DetoxConfig { sequences }
    }
}

impl Default for DetoxConfig {
    /// A config holding no sequence.
    fn default() -> (c: Self)
        ensures
            c@ == Map::<Seq<char>, Seq<FilterView>>::empty(),
    {
        DetoxConfig { sequences: Vec::new() }
    }
}

/// Whether the name `a` precedes the name `b`.
fn precedes(a: &str, b: &str) -> (r: bool)
    ensures
        r == name_precedes(a@, b@),
{
    let n = a.unicode_len();
    let m = b.unicode_len();
    let mut i: usize = 0;
    assert(a@.skip(0) =~= a@);
    assert(b@.skip(0) =~= b@);
    while i < n && i < m
        invariant
            n == a@.len(),
            m == b@.len(),
            i <= n,
            i <= m,
            name_precedes(a@, b@) == name_precedes(a@.skip(i as int), b@.skip(i as int)),
        decreases n - i,
    {
        let x = a.get_char(i);
        let y = b.get_char(i);
        if x != y {
            return (x as u32) < (y as u32);
        }
        assert(a@.skip(i as int).drop_first() =~= a@.skip(i + 1));
        assert(b@.skip(i as int).drop_first() =~= b@.skip(i + 1));
        i += 1;
    }
    i < m
}

} // verus!
