//! The error type of the library.
//!
//! Paths are held as their bytes; `Io` and `CrossDevice` carry the
//! `std::io::Error` that the file system reported.

use vstd::prelude::*;

use crate::lossy::{from_utf8_lossy, utf8_lossy};
use crate::text::{concat, concat_char};

verus! {

/// `std::io::Error`, carried opaquely inside [`DetoxError`].
#[verifier::external_type_specification]
#[verifier::external_body]
pub struct ExIoError(std::io::Error);

/// Error type returned by detox operations. Pattern-matchable; carries the
/// path (as bytes) and, where the file system failed, its error.
#[non_exhaustive]
#[derive(Debug)]
pub enum DetoxError {
    /// Filesystem I/O failure for a specific path.
    Io {
        /// Path being operated on when the error occurred.
        path: Vec<u8>,
        /// Underlying I/O error.
        source: std::io::Error,
    },
    /// Configuration file could not be opened or was invalid.
    Config {
        /// Config file path.
        path: Vec<u8>,
        /// Human-readable explanation.
        message: String,
    },
    /// Configuration parse error with line and column.
    Parse {
        /// Config file path.
        path: Vec<u8>,
        /// 1-indexed line number.
        line: usize,
        /// 1-indexed column number.
        column: usize,
        /// Parser diagnostic message.
        message: String,
    },
    /// Collision resolution exhausted (more than `collision_cap` attempts).
    Collision {
        /// Target path that could not be made unique.
        path: Vec<u8>,
        /// Number of suffix attempts before giving up.
        attempts: u32,
    },
    /// Cross-device rename: the fallback chain also failed.
    CrossDevice {
        /// Source path.
        source_path: Vec<u8>,
        /// Intended target path on the other device.
        target: Vec<u8>,
        /// Underlying error from the fallback chain.
        source_err: std::io::Error,
    },
    /// Path was invalid for the active platform.
    PathInvalid {
        /// Offending path.
        path: Vec<u8>,
        /// Human-readable explanation.
        reason: String,
    },
}

/// Calls std's `Display` formatting (`format!("{}", ..)`) on an I/O error.
/// Its text comes from the operating system; the contract claims nothing of
/// it.
#[verifier::external_body]
fn io_error_text(e: &std::io::Error) -> String {
    format!("{}", e)
}

/// The decimal digits of `n`, most significant first, as characters.
pub open spec fn decimal_chars(n: nat) -> Seq<char>
    decreases n,
{
    if n < 10 {
        seq![(0x30 + n) as char]
    } else {
        decimal_chars(n / 10).push((0x30 + n % 10) as char)
    }
}

/// The decimal digits of `n`.
pub fn decimal_text(n: usize) -> (s: String)
    ensures
        s@ == decimal_chars(n as nat),
    decreases n,
{
    if n < 10 {
        let d = (0x30 + n as u8) as char;
        proof {
            reveal_strlit("");
            assert(""@.push(d) =~= seq![d]);
        }
        concat_char("", d)
    } else {
        let head = decimal_text(n / 10);
        let d = (0x30 + (n % 10) as u8) as char;
        concat_char(head.as_str(), d)
    }
}

impl DetoxError {
    /// The diagnostic for this error: `rusty-detox: ` and what went wrong,
    /// paths shown as std shows a path (decoded as UTF-8, U+FFFD in place of
    /// invalid sequences). For `Io` and `CrossDevice` the text of the I/O
    /// error follows, as the operating system words it.
    pub fn message(&self) -> (m: String)
        ensures
            match self {
                DetoxError::Io { path, .. } => ("rusty-detox: I/O error on '"@ + utf8_lossy(path@) + "': "@).is_prefix_of(m@),
                DetoxError::Config { path, message } => m@ == "rusty-detox: config error at '"@ + utf8_lossy(path@) + "': "@
                    + message@,
                DetoxError::Parse { path, line, column, message } => m@ == "rusty-detox: parse error at "@ + utf8_lossy(path@)
                    + ":"@ + decimal_chars(*line as nat) + ":"@ + decimal_chars(*column as nat) + ": "@ + message@,
                DetoxError::Collision { path, attempts } => m@ == "rusty-detox: cannot resolve collision for '"@
                    + utf8_lossy(path@) + "' ("@ + decimal_chars(*attempts as nat) + " attempts)"@,
                DetoxError::CrossDevice { source_path, target, .. } => ("rusty-detox: cross-device rename failed from '"@
                    + utf8_lossy(source_path@) + "' to '"@ + utf8_lossy(target@) + "': "@).is_prefix_of(m@),
                DetoxError::PathInvalid { path, reason } => m@ == "rusty-detox: invalid path '"@ + utf8_lossy(path@)
                    + "': "@ + reason@,
            },
    {
        match self {
            DetoxError::Io { path, source } => {
                let p = from_utf8_lossy(path.as_slice());
                let a = concat("rusty-detox: I/O error on '", p.as_str());
                let b = concat(a.as_str(), "': ");
                let t = io_error_text(source);
                let m = concat(b.as_str(), t.as_str());
                assert(b@.is_prefix_of(m@)) by {
                    assert(m@.subrange(0, b@.len() as int) =~= b@);
                }
                m
            },
            DetoxError::Config { path, message } => {
                let p = from_utf8_lossy(path.as_slice());
                let a = concat("rusty-detox: config error at '", p.as_str());
                let b = concat(a.as_str(), "': ");
                concat(b.as_str(), message.as_str())
            },
            DetoxError::Parse { path, line, column, message } => {
                let p = from_utf8_lossy(path.as_slice());
                let a = concat("rusty-detox: parse error at ", p.as_str());
                let b = concat(a.as_str(), ":");
                let c = concat(b.as_str(), decimal_text(*line).as_str());
                let d = concat(c.as_str(), ":");
                let e = concat(d.as_str(), decimal_text(*column).as_str());
                let f = concat(e.as_str(), ": ");
                concat(f.as_str(), message.as_str())
            },
            DetoxError::Collision { path, attempts } => {
                let p = from_utf8_lossy(path.as_slice());
                let a = concat("rusty-detox: cannot resolve collision for '", p.as_str());
                let b = concat(a.as_str(), "' (");
                let c = concat(b.as_str(), decimal_text(*attempts as usize).as_str());
                concat(c.as_str(), " attempts)")
            },
            DetoxError::CrossDevice { source_path, target, source_err } => {
                let p = from_utf8_lossy(source_path.as_slice());
                let q = from_utf8_lossy(target.as_slice());
                let a = concat("rusty-detox: cross-device rename failed from '", p.as_str());
                let b = concat(a.as_str(), "' to '");
                let c = concat(b.as_str(), q.as_str());
                let d = concat(c.as_str(), "': ");
                let t = io_error_text(source_err);
                let m = concat(d.as_str(), t.as_str());
                assert(d@.is_prefix_of(m@)) by {
                    assert(m@.subrange(0, d@.len() as int) =~= d@);
                }
                m
            },
            DetoxError::PathInvalid { path, reason } => {
                let p = from_utf8_lossy(path.as_slice());
                let a = concat("rusty-detox: invalid path '", p.as_str());
                let b = concat(a.as_str(), "': ");
                concat(b.as_str(), reason.as_str())
            },
        }
    }
}

} // verus!
