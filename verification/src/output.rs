//! The line printed for each rename: source, ` -> `, target, line feed, the
//! same in both compatibility modes and without colour.

use vstd::prelude::*;

use crate::lossy::{from_utf8_lossy, utf8_lossy};
use crate::text::concat;

verus! {

/// The rename line for `source` and `target`, each path's bytes shown as
/// std shows a path: decoded as UTF-8, U+FFFD in place of invalid sequences.
pub fn rename_line(source: &[u8], target: &[u8]) -> (line: String)
    ensures
        line@ == utf8_lossy(source@) + " -> "@ + utf8_lossy(target@) + "\n"@,
{
    let s = from_utf8_lossy(source);
    let t = from_utf8_lossy(target);
    let a = concat(s.as_str(), " -> ");
    let b = concat(a.as_str(), t.as_str());
    concat(b.as_str(), "\n")
}

} // verus!
