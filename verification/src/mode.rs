//! Which compatibility mode is active.
//!
//! From high to low precedence: a `--strict` argument, the
//! `RUSTY_DETOX_STRICT=1` environment setting, and a program name whose
//! basename is `detox` or `detox-alias`. A `--no-strict` argument overrides
//! all three.

use vstd::prelude::*;
use vstd::string::StrSliceExecFns;

use crate::text::str_eq;

verus! {

/// Whether to apply the ergonomic extensions or the strict parity with
/// `detox(1)`.
#[non_exhaustive]
#[derive(Debug, Clone, Copy, PartialEq, Eq, Structural)]
pub enum CompatibilityMode {
    /// Ergonomic mode.
    Default,
    /// Strict compatibility with `detox(1)`: its diagnostics, last-wins flags.
    Strict,
}

impl Default for CompatibilityMode {
    /// The ergonomic mode.
    fn default() -> (m: Self)
        ensures
            m == CompatibilityMode::Default,
    {
        CompatibilityMode::Default
    }
}

/// Whether `c` separates path components (`/` or `\`).
pub open spec fn is_path_separator(c: char) -> bool {
    c == '/' || c == '\\'
}

/// The index of the last path separator in `s`, if any.
pub open spec fn last_separator(s: Seq<char>) -> Option<int>
    decreases s.len(),
{
    if s.len() == 0 {
        None
    } else if is_path_separator(s.last()) {
        Some(s.len() - 1)
    } else {
        last_separator(s.drop_last())
    }
}

/// `s` without the `.exe` suffix, when it has one.
pub open spec fn strip_exe(s: Seq<char>) -> Seq<char> {
    if s.len() >= 4 && s.skip(s.len() - 4) == ".exe"@ {
        s.take(s.len() - 4)
    } else {
        s
    }
}

/// The last component of `path` (after the last `/` or `\`), without a
/// `.exe` suffix.
pub open spec fn basename_of(path: Seq<char>) -> Seq<char> {
    let last = match last_separator(path) {
        Some(i) => path.skip(i + 1),
        None => path,
    };
    strip_exe(last)
}

/// The code of `c`, with ASCII upper-case letters lowered.
pub open spec fn ascii_lower_code(c: char) -> u32 {
    let u = c as u32;
    if 65 <= u <= 90 {
        (u + 32) as u32
    } else {
        u
    }
}

/// Whether `a` and `b` are equal when ASCII letters are compared without
/// regard to case.
pub open spec fn eq_ascii_case_insensitive(a: Seq<char>, b: Seq<char>) -> bool {
    a.len() == b.len() && forall|i: int| 0 <= i < a.len() ==> ascii_lower_code(#[trigger] a[i]) == ascii_lower_code(b[i])
}

/// Whether a program named `name` runs in strict mode by its name.
pub open spec fn strict_by_name(name: Seq<char>) -> bool {
    let base = basename_of(name);
    eq_ascii_case_insensitive(base, "detox"@) || eq_ascii_case_insensitive(base, "detox-alias"@)
}

/// Whether some argument equals `flag`.
pub open spec fn has_argument(argv: Seq<String>, flag: Seq<char>) -> bool {
    exists|i: int| 0 <= i < argv.len() && #[trigger] argv[i]@ == flag
}

/// The mode that `argv` (program name first) and the value of the
/// `RUSTY_DETOX_STRICT` setting select.
pub open spec fn mode_of(argv: Seq<String>, strict_env: Option<Seq<char>>) -> CompatibilityMode {
    if has_argument(argv, "--no-strict"@) {
        CompatibilityMode::Default
    } else if has_argument(argv, "--strict"@) {
        CompatibilityMode::Strict
    } else if strict_env == Some("1"@) {
        CompatibilityMode::Strict
    } else if argv.len() > 0 && strict_by_name(argv[0]@) {
        CompatibilityMode::Strict
    } else {
        CompatibilityMode::Default
    }
}

fn has_flag(argv: &[String], flag: &str) -> (r: bool)
    ensures
        r == has_argument(argv@, flag@),
{
    let mut i: usize = 0;
    while i < argv.len()
        invariant
            i <= argv@.len(),
            forall|j: int| 0 <= j < i ==> argv@[j]@ != flag@,
        decreases argv@.len() - i,
    {
        if str_eq(argv[i].as_str(), flag) {
            return true;
        }
        i += 1;
    }
    false
}

fn lower_code(c: char) -> (r: u32)
    ensures
        r == ascii_lower_code(c),
{
    let u = c as u32;
    if 65 <= u && u <= 90 {
        u + 32
    } else {
        u
    }
}

fn eq_ignore_ascii_case(a: &str, b: &str) -> (r: bool)
    ensures
        r == eq_ascii_case_insensitive(a@, b@),
{
    let n = a.unicode_len();
    if n != b.unicode_len() {
        return false;
    }
    let mut i: usize = 0;
    while i < n
        invariant
            n == a@.len(),
            n == b@.len(),
            i <= n,
            forall|j: int| 0 <= j < i ==> ascii_lower_code(#[trigger] a@[j]) == ascii_lower_code(b@[j]),
        decreases n - i,
    {
        if lower_code(a.get_char(i)) != lower_code(b.get_char(i)) {
            return false;
        }
        i += 1;
    }
    true
}

/// The last path component of `path` (split at `/` or `\`), without a
/// `.exe` suffix.
pub fn basename(path: &str) -> (r: &str)
    ensures
        r@ == basename_of(path@),
{
    let n = path.unicode_len();
    let mut i: usize = n;
    assert(path@.take(n as int) =~= path@);
    while i > 0
        invariant
            n == path@.len(),
            i <= n,
            forall|j: int| i <= j < n ==> !is_path_separator(#[trigger] path@[j]),
            last_separator(path@) == last_separator(path@.take(i as int)),
        ensures
            i <= n,
            last_separator(path@) == last_separator(path@.take(i as int)),
            i > 0 ==> is_path_separator(path@[i - 1]),
        decreases i,
    {
        let c = path.get_char(i - 1);
        if c == '/' || c == '\\' {
            break;
        }
        assert(path@.take(i as int).drop_last() =~= path@.take(i - 1));
        i -= 1;
    }
    let last = path.substring_char(i, n);
    proof {
        if i > 0 {
            assert(path@.take(i as int).last() == path@[i - 1]);
            assert(last_separator(path@) == Some(i - 1));
        } else {
            assert(path@.take(0) =~= Seq::<char>::empty());
            assert(last_separator(path@) is None);
        }
        assert(last@ =~= path@.skip(i as int));
        assert(last@ =~= (match last_separator(path@) {
            Some(k) => path@.skip(k + 1),
            None => path@,
        }));
    }
    let m = last.unicode_len();
    if m >= 4 && str_eq(last.substring_char(m - 4, m), ".exe") {
        assert(last@.subrange(m - 4, m as int) =~= last@.skip(m - 4));
        let r = last.substring_char(0, m - 4);
        assert(r@ =~= last@.take(m - 4));
        r
    } else {
        proof {
            if m >= 4 {
                assert(last@.subrange(m - 4, m as int) =~= last@.skip(m - 4));
            }
        }
        last
    }
}

/// The mode that `argv` (program name first) selects, given the value of the
/// `RUSTY_DETOX_STRICT` environment setting (`None` when it is unset or not
/// Unicode).
pub fn resolve(argv: &[String], strict_env: Option<&str>) -> (m: CompatibilityMode)
    ensures
        m == mode_of(argv@, match strict_env {
            Some(s) => Some(s@),
            None => None,
        }),
{
    if has_flag(argv, "--no-strict") {
        return CompatibilityMode::Default;
    }
    if has_flag(argv, "--strict") {
        return CompatibilityMode::Strict;
    }
    match strict_env {
        Some(v) => {
            if str_eq(v, "1") {
                return CompatibilityMode::Strict;
            }
        },
        None => {},
    }
    if argv.len() > 0 {
        let base = basename(argv[0].as_str());
        if eq_ignore_ascii_case(base, "detox") || eq_ignore_ascii_case(base, "detox-alias") {
            return CompatibilityMode::Strict;
        }
    }
    CompatibilityMode::Default
}

} // verus!
