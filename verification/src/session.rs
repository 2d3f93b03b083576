//! What a run of the program does before touching any file: which built-in
//! sequence a name selects, and how the command line decides between help,
//! version, listing, an error and a run.

use vstd::prelude::*;

use crate::strict::StrictArgs;
use crate::text::{concat, str_eq};
use crate::{Detox, DetoxBuilder, Sequence};
use crate::filter::Filter;
use crate::sequence::{is_default_pair_after};

verus! {

/// What the built-in sequence named `name` is: the `default` sequence for
/// `None` or `default`, the `iso8859_1` or `utf_8` sequence for those names.
pub open spec fn is_builtin_named(s: Sequence, name: Option<Seq<char>>) -> bool {
    match name {
        None => s.is_builtin_default(),
        Some(n) => if n == "default"@ {
            s.is_builtin_default()
        } else if n == "iso8859_1"@ {
            is_default_pair_after(s.filter_seq(), Filter::Iso8859_1) && s.label() == "iso8859_1"@
        } else if n == "utf_8"@ {
            is_default_pair_after(s.filter_seq(), Filter::Utf8) && s.label() == "utf_8"@
        } else {
            false
        },
    }
}

/// Whether `name` selects a built-in sequence.
pub open spec fn names_builtin(name: Option<Seq<char>>) -> bool {
    match name {
        None => true,
        Some(n) => n == "default"@ || n == "iso8859_1"@ || n == "utf_8"@,
    }
}

/// The built-in sequence that `name` selects (`None` selects `default`);
/// `None` for any other name.
pub fn builtin_sequence(name: Option<&str>) -> (r: Option<Sequence>)
    ensures
        r is Some <==> names_builtin(crate::config::opt_view(name)),
        r matches Some(s) ==> is_builtin_named(s, crate::config::opt_view(name)),
{
    match name {
        None => Some(Sequence::default()),
        Some(n) => {
            if str_eq(n, "default") {
                Some(Sequence::default())
            } else if str_eq(n, "iso8859_1") {
                Some(Sequence::iso8859_1())
            } else if str_eq(n, "utf_8") {
                Some(Sequence::utf_8())
            } else {
                None
            }
        },
    }
}

/// The diagnostic for a sequence name that selects nothing:
/// `<program>: sequence '<name>' not found`.
pub fn not_found_message(program: &str, name: &str) -> (m: String)
    ensures
        m@ == program@ + ": sequence '"@ + name@ + "' not found"@,
{
    let a = concat(program, ": sequence '");
    let b = concat(a.as_str(), name);
    concat(b.as_str(), "' not found")
}

/// What a run starts with, once its arguments are parsed.
pub enum Start {
    /// Print the usage line and succeed.
    Help,
    /// Print the version and succeed.
    Version,
    /// List the built-in sequence names and succeed.
    ListSequences,
    /// No path was given: fail.
    NoPaths,
    /// The named sequence does not exist: fail, with this diagnostic.
    UnknownSequence(String),
    /// Plan (and unless dry-running, rename) each path with this detox.
    Run(Detox),
}

/// The settings of the detox a run builds: flags as given, a cap of 1000.
pub open spec fn run_settings(verbose: bool, dry_run: bool, recursive: bool) -> (bool, bool, bool, u32) {
    (verbose, dry_run, recursive, 1000u32)
}

/// How a run with the given choices starts: listing wins over everything
/// else, then a missing path, then an unknown sequence name; otherwise a
/// detox with the selected sequence and flags.
fn start_with(
    list_sequences: bool,
    no_paths: bool,
    sequence: Option<&str>,
    verbose: bool,
    dry_run: bool,
    recursive: bool,
) -> (r: Start)
    ensures
        list_sequences ==> r is ListSequences,
        !list_sequences && no_paths ==> r is NoPaths,
        !list_sequences && !no_paths && !names_builtin(crate::config::opt_view(sequence)) ==> (r matches Start::UnknownSequence(m) && sequence matches Some(n) && m@ == "rusty-detox"@ + ": sequence '"@ + n@ + "' not found"@),
        !list_sequences && !no_paths && names_builtin(crate::config::opt_view(sequence)) ==> (r matches Start::Run(d) && is_builtin_named(d.active(), crate::config::opt_view(sequence)) && d.settings() == run_settings(verbose, dry_run, recursive)),
{
    if list_sequences {
        return Start::ListSequences;
    }
    if no_paths {
        return Start::NoPaths;
    }
    match builtin_sequence(sequence) {
        Some(s) => Start::Run(
            DetoxBuilder::new().sequence(s).verbose(verbose).dry_run(dry_run).recursive(recursive).build(),
        ),
        None => {
            let n = match sequence {
                Some(n) => n,
                None => "",
            };
            Start::UnknownSequence(not_found_message("rusty-detox", n))
        },
    }
}

/// How an ergonomic-mode run starts, given its parsed options (help,
/// version and completions are the option parser's own).
pub fn default_start(
    list_sequences: bool,
    paths: &[String],
    sequence: Option<&str>,
    verbose: bool,
    dry_run: bool,
    recursive: bool,
) -> (r: Start)
    ensures
        list_sequences ==> r is ListSequences,
        !list_sequences && paths@.len() == 0 ==> r is NoPaths,
        !list_sequences && paths@.len() > 0 && !names_builtin(crate::config::opt_view(sequence)) ==> (r matches Start::UnknownSequence(m) && sequence matches Some(n) && m@ == "rusty-detox"@ + ": sequence '"@ + n@ + "' not found"@),
        !list_sequences && paths@.len() > 0 && names_builtin(crate::config::opt_view(sequence)) ==> (r matches Start::Run(d) && is_builtin_named(d.active(), crate::config::opt_view(sequence)) && d.settings() == run_settings(verbose, dry_run, recursive)),
{
    start_with(list_sequences, paths.len() == 0, sequence, verbose, dry_run, recursive)
}

/// How a strict-mode run starts: help, then version, then listing win, in
/// that order; then as in the ergonomic mode.
pub fn strict_start(args: &StrictArgs) -> (r: Start)
    ensures
        args.help ==> r is Help,
        !args.help && args.version ==> r is Version,
        !args.help && !args.version && args.list_sequences ==> r is ListSequences,
        !args.help && !args.version && !args.list_sequences && args.paths@.len() == 0 ==> r is NoPaths,
        !args.help && !args.version && !args.list_sequences && args.paths@.len() > 0 && !names_builtin(args@.sequence) ==> (r matches Start::UnknownSequence(m) && args@.sequence matches Some(n) && m@ == "rusty-detox"@ + ": sequence '"@ + n + "' not found"@),
        !args.help && !args.version && !args.list_sequences && args.paths@.len() > 0 && names_builtin(args@.sequence) ==> (r matches Start::Run(d) && is_builtin_named(d.active(), args@.sequence) && d.settings() == run_settings(args.verbose, args.dry_run, args.recursive)),
{
    if args.help {
        return Start::Help;
    }
    if args.version {
        return Start::Version;
    }
    let sequence: Option<&str> = match &args.sequence {
        Some(s) => Some(s.as_str()),
        None => None,
    };
    start_with(args.list_sequences, args.paths.len() == 0, sequence, args.verbose, args.dry_run, args.recursive)
}

} // verus!
