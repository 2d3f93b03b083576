//! Argument parser of the strict compatibility mode.
//!
//! The flag semantics of `detox(1)`: the last of repeated flags wins, short flags group
//! (`-rv` is `-r -v`), a short flag's argument may be glued (`-sutf_8`) or
//! follow, `--` ends the options, and there are no subcommands: a
//! `completions` token is a path like any other.

use vstd::prelude::*;
use vstd::string::{StrSliceExecFns, StringExecFns};

use crate::text::{concat, concat_char, str_eq};

verus! {

/// Parsed strict-mode arguments.
#[derive(Debug, PartialEq, Eq)]
pub struct StrictArgs {
    /// Dry-run flag (`-n`).
    pub dry_run: bool,
    /// Recursive flag (`-r`).
    pub recursive: bool,
    /// Verbose flag (`-v`).
    pub verbose: bool,
    /// `-L`: list sequences.
    pub list_sequences: bool,
    /// `-s <name>` sequence selector (last wins).
    pub sequence: Option<String>,
    /// `-f <path>` config-file override (last wins).
    pub config_file: Option<String>,
    /// Positional path arguments.
    pub paths: Vec<String>,
    /// Help flag (`-h`).
    pub help: bool,
    /// Version flag (`-V`).
    pub version: bool,
}

/// Errors of strict-mode argument parsing.
#[derive(Debug, PartialEq, Eq)]
pub enum StrictParseError {
    /// Unknown short flag (e.g. `-Z`).
    UnknownFlag(char),
    /// Unknown long flag (e.g. `--unknown`).
    UnknownLongFlag(String),
    /// A flag expected an argument but the arguments ended.
    MissingArgument(String),
}

/// The mathematical form of [`StrictArgs`].
pub struct ArgsView {
    pub dry_run: bool,
    pub recursive: bool,
    pub verbose: bool,
    pub list_sequences: bool,
    pub sequence: Option<Seq<char>>,
    pub config_file: Option<Seq<char>>,
    pub paths: Seq<Seq<char>>,
    pub help: bool,
    pub version: bool,
}

/// The mathematical form of [`StrictParseError`].
pub enum ArgErrorView {
    UnknownFlag(char),
    UnknownLongFlag(Seq<char>),
    MissingArgument(Seq<char>),
}

/// The characters of each string in `v`.
pub open spec fn strings_view(v: Seq<String>) -> Seq<Seq<char>> {
    Seq::new(v.len(), |i: int| v[i]@)
}

impl View for StrictArgs {
    type V = ArgsView;

    open spec fn view(&self) -> ArgsView {
        ArgsView {
            dry_run: self.dry_run,
            recursive: self.recursive,
            verbose: self.verbose,
            list_sequences: self.list_sequences,
            sequence: match self.sequence {
                Some(s) => Some(s@),
                None => None,
            },
            config_file: match self.config_file {
                Some(s) => Some(s@),
                None => None,
            },
            paths: strings_view(self.paths@),
            help: self.help,
            version: self.version,
        }
    }
}

impl View for StrictParseError {
    type V = ArgErrorView;

    open spec fn view(&self) -> ArgErrorView {
        match self {
            StrictParseError::UnknownFlag(c) => ArgErrorView::UnknownFlag(*c),
            StrictParseError::UnknownLongFlag(s) => ArgErrorView::UnknownLongFlag(s@),
            StrictParseError::MissingArgument(s) => ArgErrorView::MissingArgument(s@),
        }
    }
}

/// Nothing set yet.
pub open spec fn empty_args() -> ArgsView {
    ArgsView {
        dry_run: false,
        recursive: false,
        verbose: false,
        list_sequences: false,
        sequence: None,
        config_file: None,
        paths: Seq::empty(),
        help: false,
        version: false,
    }
}

/// `st` after the long flag `long` (a flag without argument, or one that is
/// consumed elsewhere); `None` when `long` is no such flag.
pub open spec fn apply_long_switch(st: ArgsView, long: Seq<char>) -> Option<ArgsView> {
    if long == "dry-run"@ {
        Some(ArgsView { dry_run: true, ..st })
    } else if long == "recursive"@ {
        Some(ArgsView { recursive: true, ..st })
    } else if long == "verbose"@ {
        Some(ArgsView { verbose: true, ..st })
    } else if long == "list-sequences"@ {
        Some(ArgsView { list_sequences: true, ..st })
    } else if long == "help"@ {
        Some(ArgsView { help: true, ..st })
    } else if long == "version"@ {
        Some(ArgsView { version: true, ..st })
    } else if long == "strict"@ || long == "no-strict"@ {
        Some(st)
    } else {
        None
    }
}

/// `st` after the short switch `c`; `None` when `c` is no switch.
pub open spec fn apply_short_switch(st: ArgsView, c: char) -> Option<ArgsView> {
    if c == 'n' {
        Some(ArgsView { dry_run: true, ..st })
    } else if c == 'r' {
        Some(ArgsView { recursive: true, ..st })
    } else if c == 'v' {
        Some(ArgsView { verbose: true, ..st })
    } else if c == 'L' {
        Some(ArgsView { list_sequences: true, ..st })
    } else if c == 'h' {
        Some(ArgsView { help: true, ..st })
    } else if c == 'V' {
        Some(ArgsView { version: true, ..st })
    } else {
        None
    }
}

/// `st` with the argument of short flag `c` (`s` or `f`) set to `v`.
pub open spec fn set_short_value(st: ArgsView, c: char, v: Seq<char>) -> ArgsView {
    if c == 's' {
        ArgsView { sequence: Some(v), ..st }
    } else {
        ArgsView { config_file: Some(v), ..st }
    }
}

/// The short-flag group `shorts` of argument `i`, read from position `k` on.
/// The result says whether the next argument was consumed as a value.
pub open spec fn shorts_from(args: Seq<Seq<char>>, i: int, shorts: Seq<char>, k: int, st: ArgsView) -> Result<(ArgsView, bool), ArgErrorView>
    decreases shorts.len() - k,
{
    if k >= shorts.len() {
        Ok((st, false))
    } else {
        let c = shorts[k];
        if c == 's' || c == 'f' {
            if k + 1 < shorts.len() {
                Ok((set_short_value(st, c, shorts.skip(k + 1)), false))
            } else if i + 1 < args.len() {
                Ok((set_short_value(st, c, args[i + 1]), true))
            } else {
                Err(ArgErrorView::MissingArgument(seq![c]))
            }
        } else {
            match apply_short_switch(st, c) {
                Some(st2) => shorts_from(args, i, shorts, k + 1, st2),
                None => Err(ArgErrorView::UnknownFlag(c)),
            }
        }
    }
}

/// The parse of `args` from argument `i` on, starting from `st`.
pub open spec fn parse_from(args: Seq<Seq<char>>, i: int, st: ArgsView) -> Result<ArgsView, ArgErrorView>
    decreases args.len() + 1 - i,
{
    if i < 0 || i >= args.len() {
        Ok(st)
    } else {
        let a = args[i];
        if a == "--"@ {
            Ok(ArgsView { paths: st.paths + args.skip(i + 1), ..st })
        } else if a.len() >= 2 && a[0] == '-' && a[1] == '-' {
            let long = a.skip(2);
            if long == "sequence"@ || long == "config-file"@ {
                if i + 1 < args.len() {
                    let st2 = if long == "sequence"@ {
                        ArgsView { sequence: Some(args[i + 1]), ..st }
                    } else {
                        ArgsView { config_file: Some(args[i + 1]), ..st }
                    };
                    parse_from(args, i + 2, st2)
                } else {
                    Err(ArgErrorView::MissingArgument(long))
                }
            } else {
                match apply_long_switch(st, long) {
                    Some(st2) => parse_from(args, i + 1, st2),
                    None => Err(ArgErrorView::UnknownLongFlag(long)),
                }
            }
        } else if a.len() >= 1 && a[0] == '-' {
            if a.len() == 1 {
                parse_from(args, i + 1, ArgsView { paths: st.paths.push(a), ..st })
            } else {
                match shorts_from(args, i, a.skip(1), 0, st) {
                    Ok((st2, consumed)) => parse_from(args, if consumed { i + 2 } else { i + 1 }, st2),
                    Err(e) => Err(e),
                }
            }
        } else {
            parse_from(args, i + 1, ArgsView { paths: st.paths.push(a), ..st })
        }
    }
}

/// The parse of a whole argument list.
pub open spec fn parse_args(args: Seq<Seq<char>>) -> Result<ArgsView, ArgErrorView> {
    parse_from(args, 0, empty_args())
}

/// Whether `c` is a short flag that takes no value (`n r v L h V`).
pub open spec fn is_short_switch(c: char) -> bool {
    c == 'n' || c == 'r' || c == 'v' || c == 'L' || c == 'h' || c == 'V'
}

/// The short-flag group at argument `i` reads only `i + 1`: two argument
/// lists that agree there and have as many arguments left read it alike.
proof fn lemma_shorts_from_suffix(
    a: Seq<Seq<char>>,
    i: int,
    b: Seq<Seq<char>>,
    j: int,
    shorts: Seq<char>,
    k: int,
    st: ArgsView,
)
    requires
        a.len() - i == b.len() - j,
        0 <= i,
        0 <= j,
        i + 1 < a.len() ==> a[i + 1] == b[j + 1],
    ensures
        shorts_from(a, i, shorts, k, st) == shorts_from(b, j, shorts, k, st),
    decreases shorts.len() - k,
{
    if k < shorts.len() {
        let c = shorts[k];
        if !(c == 's' || c == 'f') {
            if let Some(st2) = apply_short_switch(st, c) {
                lemma_shorts_from_suffix(a, i, b, j, shorts, k + 1, st2);
            }
        }
    }
}

/// Parsing from argument `i` depends only on the arguments from `i` on.
pub proof fn lemma_parse_from_suffix(a: Seq<Seq<char>>, i: int, b: Seq<Seq<char>>, j: int, st: ArgsView)
    requires
        0 <= i <= a.len(),
        0 <= j <= b.len(),
        a.skip(i) == b.skip(j),
    ensures
        parse_from(a, i, st) == parse_from(b, j, st),
    decreases a.len() - i,
{
    assert(a.len() - i == a.skip(i).len());
    assert(b.len() - j == b.skip(j).len());
    if i < a.len() {
        assert(a[i] == a.skip(i)[0]);
        assert(b[j] == b.skip(j)[0]);
        let x = a[i];
        assert(a.skip(i + 1) =~= a.skip(i).skip(1));
        assert(b.skip(j + 1) =~= b.skip(j).skip(1));
        if i + 1 < a.len() {
            assert(a[i + 1] == a.skip(i)[1]);
            assert(b[j + 1] == b.skip(j)[1]);
        }
        if i + 2 <= a.len() {
            assert(a.skip(i + 2) =~= a.skip(i).skip(2));
            assert(b.skip(j + 2) =~= b.skip(j).skip(2));
        }
        if x == "--"@ {
        } else if x.len() >= 2 && x[0] == '-' && x[1] == '-' {
            let long = x.skip(2);
            if long == "sequence"@ || long == "config-file"@ {
                if i + 1 < a.len() {
                    let st2 = if long == "sequence"@ {
                        ArgsView { sequence: Some(a[i + 1]), ..st }
                    } else {
                        ArgsView { config_file: Some(a[i + 1]), ..st }
                    };
                    lemma_parse_from_suffix(a, i + 2, b, j + 2, st2);
                }
            } else if let Some(st2) = apply_long_switch(st, long) {
                lemma_parse_from_suffix(a, i + 1, b, j + 1, st2);
            }
        } else if x.len() >= 1 && x[0] == '-' {
            if x.len() == 1 {
                lemma_parse_from_suffix(a, i + 1, b, j + 1, ArgsView { paths: st.paths.push(x), ..st });
            } else {
                lemma_shorts_from_suffix(a, i, b, j, x.skip(1), 0, st);
                if let Ok((st2, consumed)) = shorts_from(a, i, x.skip(1), 0, st) {
                    if consumed {
                        lemma_shorts_consumed(a, i, x.skip(1), 0, st);
                        lemma_parse_from_suffix(a, i + 2, b, j + 2, st2);
                    } else {
                        lemma_parse_from_suffix(a, i + 1, b, j + 1, st2);
                    }
                }
            }
        } else {
            lemma_parse_from_suffix(a, i + 1, b, j + 1, ArgsView { paths: st.paths.push(x), ..st });
        }
    }
}

/// Short switches group: from where parsing reaches it, the argument `-c1c2`
/// (two switches) has the effect of the two arguments `-c1 -c2`.
pub proof fn lemma_grouped_switches(args: Seq<Seq<char>>, i: int, c1: char, c2: char, st: ArgsView)
    requires
        0 <= i < args.len(),
        args[i] == seq!['-', c1, c2],
        is_short_switch(c1),
        is_short_switch(c2),
    ensures
        parse_from(args, i, st) == parse_from(
            args.take(i) + seq![seq!['-', c1], seq!['-', c2]] + args.skip(i + 1),
            i,
            st,
        ),
{
    reveal_strlit("--");
    let split = args.take(i) + seq![seq!['-', c1], seq!['-', c2]] + args.skip(i + 1);
    let st1 = apply_short_switch(st, c1)->Some_0;
    let st2 = apply_short_switch(st1, c2)->Some_0;
    let g = seq!['-', c1, c2];
    assert(g.skip(1) =~= seq![c1, c2]);
    assert(shorts_from(args, i, seq![c1, c2], 2, st2) == Ok::<(ArgsView, bool), ArgErrorView>((st2, false)));
    assert(shorts_from(args, i, seq![c1, c2], 1, st1) == Ok::<(ArgsView, bool), ArgErrorView>((st2, false)));
    assert(shorts_from(args, i, seq![c1, c2], 0, st) == Ok::<(ArgsView, bool), ArgErrorView>((st2, false)));
    assert(g != "--"@);
    assert(parse_from(args, i, st) == parse_from(args, i + 1, st2));
    let h1 = seq!['-', c1];
    let h2 = seq!['-', c2];
    assert(split[i] == h1);
    assert(split[i + 1] == h2);
    assert(h1.skip(1) =~= seq![c1]);
    assert(h2.skip(1) =~= seq![c2]);
    assert(h1 != "--"@);
    assert(h2 != "--"@);
    assert(shorts_from(split, i, seq![c1], 1, st1) == Ok::<(ArgsView, bool), ArgErrorView>((st1, false)));
    assert(shorts_from(split, i, seq![c1], 0, st) == Ok::<(ArgsView, bool), ArgErrorView>((st1, false)));
    assert(parse_from(split, i, st) == parse_from(split, i + 1, st1));
    assert(shorts_from(split, i + 1, seq![c2], 1, st2) == Ok::<(ArgsView, bool), ArgErrorView>((st2, false)));
    assert(shorts_from(split, i + 1, seq![c2], 0, st1) == Ok::<(ArgsView, bool), ArgErrorView>((st2, false)));
    assert(parse_from(split, i + 1, st1) == parse_from(split, i + 2, st2));
    assert(args.skip(i + 1) =~= split.skip(i + 2));
    lemma_parse_from_suffix(args, i + 1, split, i + 2, st2);
}

/// The short-flag group at argument `i` reads nothing beyond the arguments
/// when it parses without them: more arguments after them change nothing.
proof fn lemma_shorts_from_extend(
    args: Seq<Seq<char>>,
    extra: Seq<Seq<char>>,
    i: int,
    shorts: Seq<char>,
    k: int,
    st: ArgsView,
)
    requires
        0 <= i < args.len(),
        shorts_from(args, i, shorts, k, st) is Ok,
    ensures
        shorts_from(args + extra, i, shorts, k, st) == shorts_from(args, i, shorts, k, st),
    decreases shorts.len() - k,
{
    let ext = args + extra;
    if k < shorts.len() {
        let c = shorts[k];
        if c == 's' || c == 'f' {
            if i + 1 < args.len() {
                assert(ext[i + 1] == args[i + 1]);
            }
        } else if let Some(st2) = apply_short_switch(st, c) {
            lemma_shorts_from_extend(args, extra, i, shorts, k + 1, st2);
        }
    }
}

/// Arguments that parse, with no `--` among them, parse alike when more
/// arguments follow, and the parse then goes on from where they ended.
proof fn lemma_parse_from_extend(args: Seq<Seq<char>>, extra: Seq<Seq<char>>, i: int, st: ArgsView)
    requires
        0 <= i <= args.len(),
        parse_from(args, i, st) is Ok,
        forall|k: int| 0 <= k < args.len() ==> args[k] != "--"@,
    ensures
        parse_from(args + extra, i, st) == parse_from(args + extra, args.len() as int, parse_from(args, i, st)->Ok_0),
    decreases args.len() - i,
{
    let ext = args + extra;
    if i < args.len() {
        let x = args[i];
        assert(ext[i] == x);
        if x.len() >= 2 && x[0] == '-' && x[1] == '-' {
            let long = x.skip(2);
            if long == "sequence"@ || long == "config-file"@ {
                assert(i + 1 < args.len());
                assert(ext[i + 1] == args[i + 1]);
                let st2 = if long == "sequence"@ {
                    ArgsView { sequence: Some(args[i + 1]), ..st }
                } else {
                    ArgsView { config_file: Some(args[i + 1]), ..st }
                };
                lemma_parse_from_extend(args, extra, i + 2, st2);
            } else if let Some(st2) = apply_long_switch(st, long) {
                lemma_parse_from_extend(args, extra, i + 1, st2);
            }
        } else if x.len() >= 1 && x[0] == '-' {
            if x.len() == 1 {
                lemma_parse_from_extend(args, extra, i + 1, ArgsView { paths: st.paths.push(x), ..st });
            } else {
                lemma_shorts_from_extend(args, extra, i, x.skip(1), 0, st);
                if let Ok((st2, consumed)) = shorts_from(args, i, x.skip(1), 0, st) {
                    if consumed {
                        lemma_shorts_consumed(args, i, x.skip(1), 0, st);
                        lemma_parse_from_extend(args, extra, i + 2, st2);
                    } else {
                        lemma_parse_from_extend(args, extra, i + 1, st2);
                    }
                }
            }
        } else {
            lemma_parse_from_extend(args, extra, i + 1, ArgsView { paths: st.paths.push(x), ..st });
        }
    }
}

/// A group consumes the next argument only when there is one.
proof fn lemma_shorts_consumed(args: Seq<Seq<char>>, i: int, shorts: Seq<char>, k: int, st: ArgsView)
    ensures
        shorts_from(args, i, shorts, k, st) matches Ok((_, consumed)) && consumed ==> i + 1 < args.len(),
    decreases shorts.len() - k,
{
    if k < shorts.len() {
        let c = shorts[k];
        if !(c == 's' || c == 'f') {
            if let Some(st2) = apply_short_switch(st, c) {
                lemma_shorts_consumed(args, i, shorts, k + 1, st2);
            }
        }
    }
}

/// The last of repeated `-s` flags wins: after arguments that parse (with no
/// `--` among them), a final `-s v` gives their parse with the sequence `v`.
pub proof fn lemma_last_sequence_wins(args: Seq<Seq<char>>, v: Seq<char>)
    requires
        parse_args(args) is Ok,
        forall|k: int| 0 <= k < args.len() ==> args[k] != "--"@,
    ensures
        parse_args(args + seq![seq!['-', 's'], v]) == Ok::<ArgsView, ArgErrorView>(
            ArgsView { sequence: Some(v), ..parse_args(args)->Ok_0 },
        ),
{
    reveal_strlit("--");
    let extra = seq![seq!['-', 's'], v];
    let ext = args + extra;
    let st = parse_args(args)->Ok_0;
    lemma_parse_from_extend(args, extra, 0, empty_args());
    let n = args.len() as int;
    let flag = seq!['-', 's'];
    assert(ext[n] == flag);
    assert(ext[n + 1] == v);
    assert(flag != "--"@);
    assert(flag.skip(1) =~= seq!['s']);
    assert(shorts_from(ext, n, seq!['s'], 0, st) == Ok::<(ArgsView, bool), ArgErrorView>(
        (set_short_value(st, 's', v), true),
    ));
    assert(parse_from(ext, n, st) == parse_from(ext, n + 2, set_short_value(st, 's', v)));
}

/// The last of repeated `-f` flags wins: after arguments that parse (with no
/// `--` among them), a final `-f v` gives their parse with the config file
/// `v`.
pub proof fn lemma_last_config_file_wins(args: Seq<Seq<char>>, v: Seq<char>)
    requires
        parse_args(args) is Ok,
        forall|k: int| 0 <= k < args.len() ==> args[k] != "--"@,
    ensures
        parse_args(args + seq![seq!['-', 'f'], v]) == Ok::<ArgsView, ArgErrorView>(
            ArgsView { config_file: Some(v), ..parse_args(args)->Ok_0 },
        ),
{
    reveal_strlit("--");
    let extra = seq![seq!['-', 'f'], v];
    let ext = args + extra;
    let st = parse_args(args)->Ok_0;
    lemma_parse_from_extend(args, extra, 0, empty_args());
    let n = args.len() as int;
    let flag = seq!['-', 'f'];
    assert(ext[n] == flag);
    assert(ext[n + 1] == v);
    assert(flag != "--"@);
    assert(flag.skip(1) =~= seq!['f']);
    assert(shorts_from(ext, n, seq!['f'], 0, st) == Ok::<(ArgsView, bool), ArgErrorView>(
        (set_short_value(st, 'f', v), true),
    ));
    assert(parse_from(ext, n, st) == parse_from(ext, n + 2, set_short_value(st, 'f', v)));
}

/// `--` only ends the options: after arguments that parse (with no `--`
/// among them), `--` and then any arguments give their parse with those
/// arguments appended to the paths they already named, each taken as a path
/// even where it starts with `-`.
pub proof fn lemma_double_dash_keeps_paths(args: Seq<Seq<char>>, rest: Seq<Seq<char>>)
    requires
        parse_args(args) is Ok,
        forall|k: int| 0 <= k < args.len() ==> args[k] != "--"@,
    ensures
        parse_args(args + seq!["--"@] + rest) == Ok::<ArgsView, ArgErrorView>(
            ArgsView { paths: parse_args(args)->Ok_0.paths + rest, ..parse_args(args)->Ok_0 },
        ),
{
    let extra = seq!["--"@] + rest;
    let ext = args + extra;
    assert(args + seq!["--"@] + rest =~= ext);
    lemma_parse_from_extend(args, extra, 0, empty_args());
    let n = args.len() as int;
    assert(ext[n] == "--"@);
    assert(ext.skip(n + 1) =~= rest);
}

/// Arguments that do not start with `-` are paths, kept in their order.
pub proof fn lemma_positional_paths(args: Seq<Seq<char>>, i: int, st: ArgsView)
    requires
        0 <= i <= args.len(),
        forall|k: int| i <= k < args.len() ==> args[k].len() == 0 || args[k][0] != '-',
    ensures
        parse_from(args, i, st) == Ok::<ArgsView, ArgErrorView>(
            ArgsView { paths: st.paths + args.skip(i), ..st },
        ),
    decreases args.len() - i,
{
    reveal_strlit("--");
    if i < args.len() {
        let a = args[i];
        assert(a != "--"@) by {
            if a == "--"@ {
                assert(a[0] == '-');
            }
        }
        let st2 = ArgsView { paths: st.paths.push(a), ..st };
        lemma_positional_paths(args, i + 1, st2);
        assert(st.paths.push(a) + args.skip(i + 1) =~= st.paths + args.skip(i));
    } else {
        assert(st.paths + args.skip(i) =~= st.paths);
    }
}

fn set_value(out: &mut StrictArgs, c: char, v: String)
    requires
        c == 's' || c == 'f',
    ensures
        final(out)@ == set_short_value(old(out)@, c, v@),
{
    if c == 's' {
        out.sequence = Some(v);
    } else {
        out.config_file = Some(v);
    }
}

fn apply_switch(out: &mut StrictArgs, c: char) -> (known: bool)
    ensures
        match apply_short_switch(old(out)@, c) {
            Some(st) => known && final(out)@ == st,
            None => !known && final(out)@ == old(out)@,
        },
{
    if c == 'n' {
        out.dry_run = true;
    } else if c == 'r' {
        out.recursive = true;
    } else if c == 'v' {
        out.verbose = true;
    } else if c == 'L' {
        out.list_sequences = true;
    } else if c == 'h' {
        out.help = true;
    } else if c == 'V' {
        out.version = true;
    } else {
        return false;
    }
    true
}

fn apply_long(out: &mut StrictArgs, long: &str) -> (known: bool)
    ensures
        match apply_long_switch(old(out)@, long@) {
            Some(st) => known && final(out)@ == st,
            None => !known && final(out)@ == old(out)@,
        },
{
    if str_eq(long, "dry-run") {
        out.dry_run = true;
    } else if str_eq(long, "recursive") {
        out.recursive = true;
    } else if str_eq(long, "verbose") {
        out.verbose = true;
    } else if str_eq(long, "list-sequences") {
        out.list_sequences = true;
    } else if str_eq(long, "help") {
        out.help = true;
    } else if str_eq(long, "version") {
        out.version = true;
    } else if str_eq(long, "strict") || str_eq(long, "no-strict") {
    } else {
        return false;
    }
    true
}

fn push_path(out: &mut StrictArgs, p: String)
    ensures
        final(out)@ == (ArgsView { paths: old(out)@.paths.push(p@), ..old(out)@ }),
{
    let ghost before = out.paths@;
    out.paths.push(p);
    assert(strings_view(out.paths@) =~= strings_view(before).push(p@));
}

/// Parse strict-mode arguments (the program name excluded).
///
/// The last of repeated `-s` / `-f` flags wins, short flags group, and the
/// `completions` token is a positional path.
pub fn parse(args: &[String]) -> (r: Result<StrictArgs, StrictParseError>)
    ensures
        match parse_args(strings_view(args@)) {
            Ok(v) => r matches Ok(a) && a@ == v,
            Err(e) => r matches Err(x) && x@ == e,
        },
{
    let ghost av = strings_view(args@);
    let mut out = StrictArgs::default();
    let mut i: usize = 0;
    while i < args.len()
        invariant
            av == strings_view(args@),
            i <= args@.len(),
            parse_args(av) == parse_from(av, i as int, out@),
        decreases args@.len() - i,
    {
        let arg = args[i].as_str();
        assert(arg@ == av[i as int]);
        let n = arg.unicode_len();
        if str_eq(arg, "--") {
            let ghost base = out@;
            let mut j: usize = i + 1;
            while j < args.len()
                invariant
                    av == strings_view(args@),
                    i < j <= args@.len(),
                    out@ == (ArgsView { paths: base.paths + av.subrange(i + 1, j as int), ..base }),
                decreases args@.len() - j,
            {
                let ghost prev = out@;
                push_path(&mut out, args[j].clone());
                assert(base.paths + av.subrange(i + 1, j + 1) =~= prev.paths.push(av[j as int]));
                j += 1;
            }
            assert(av.subrange(i + 1, args@.len() as int) =~= av.skip(i + 1));
            return Ok(out);
        } else if n >= 2 && arg.get_char(0) == '-' && arg.get_char(1) == '-' {
            let long = arg.substring_char(2, n);
            assert(long@ =~= av[i as int].skip(2));
            if str_eq(long, "sequence") || str_eq(long, "config-file") {
                if i + 1 < args.len() {
                    let v = args[i + 1].clone();
                    if str_eq(long, "sequence") {
                        out.sequence = Some(v);
                    } else {
                        out.config_file = Some(v);
                    }
                    i += 2;
                    continue;
                } else {
                    return Err(StrictParseError::MissingArgument(String::from_str(long)));
                }
            } else if !apply_long(&mut out, long) {
                return Err(StrictParseError::UnknownLongFlag(String::from_str(long)));
            }
        } else if n >= 1 && arg.get_char(0) == '-' {
            if n == 1 {
                push_path(&mut out, args[i].clone());
            } else {
                let ghost shorts = av[i as int].skip(1);
                let mut k: usize = 1;
                let mut consumed = false;
                while k < n
                    invariant_except_break
                        !consumed,
                        parse_args(av) == (match shorts_from(av, i as int, shorts, k - 1, out@) {
                            Ok((st2, c)) => parse_from(av, if c { i + 2 } else { i + 1 }, st2),
                            Err(e) => Err(e),
                        }),
                    invariant
                        av == strings_view(args@),
                        i < args@.len(),
                        arg@ == av[i as int],
                        n == arg@.len(),
                        shorts == arg@.skip(1),
                        1 <= k <= n,
                    ensures
                        parse_args(av) == parse_from(av, if consumed { i + 2 } else { i + 1 }, out@),
                        consumed ==> i + 1 < args@.len(),
                    decreases n - k,
                {
                    let c = arg.get_char(k);
                    assert(c == shorts[k - 1]);
                    if c == 's' || c == 'f' {
                        if k + 1 < n {
                            let v = String::from_str(arg.substring_char(k + 1, n));
                            assert(v@ =~= shorts.skip(k as int));
                            set_value(&mut out, c, v);
                            break;
                        } else if args.len() - i > 1 {
                            set_value(&mut out, c, args[i + 1].clone());
                            consumed = true;
                            break;
                        } else {
                            let m = concat_char("", c);
                            proof {
                                reveal_strlit("");
                            }
                            assert(m@ =~= seq![c]);
                            return Err(StrictParseError::MissingArgument(m));
                        }
                    }
                    if !apply_switch(&mut out, c) {
                        return Err(StrictParseError::UnknownFlag(c));
                    }
                    k += 1;
                }
                if consumed {
                    i += 2;
                    continue;
                }
            }
        } else {
            push_path(&mut out, args[i].clone());
        }
        i += 1;
    }
    Ok(out)
}

impl Default for StrictArgs {
    /// No flag set, no value given, no path.
    fn default() -> (a: Self)
        ensures
            a@ == empty_args(),
    {
        let a = StrictArgs {
            dry_run: false,
            recursive: false,
            verbose: false,
            list_sequences: false,
            sequence: None,
            config_file: None,
            paths: Vec::new(),
            help: false,
            version: false,
        };
        assert(a@.paths =~= Seq::<Seq<char>>::empty());
        a
    }
}

impl StrictParseError {
    /// The diagnostic line that `detox(1)` prints for this error.
    pub fn message(&self) -> (m: String)
        ensures
            m@ == match self@ {
                ArgErrorView::UnknownFlag(c) => "rusty-detox: invalid option -- '"@ + seq![c] + "'"@,
                ArgErrorView::UnknownLongFlag(s) => "rusty-detox: unrecognized option '--"@ + s + "'"@,
                ArgErrorView::MissingArgument(s) => "rusty-detox: option requires an argument -- '"@ + s
                    + "'"@,
            },
    {
        match self {
            StrictParseError::UnknownFlag(c) => {
                let a = concat_char("rusty-detox: invalid option -- '", *c);
                let m = concat(a.as_str(), "'");
                assert(m@ =~= "rusty-detox: invalid option -- '"@ + seq![*c] + "'"@);
                m
            },
            StrictParseError::UnknownLongFlag(s) => {
                let a = concat("rusty-detox: unrecognized option '--", s.as_str());
                concat(a.as_str(), "'")
            },
            StrictParseError::MissingArgument(s) => {
                let a = concat("rusty-detox: option requires an argument -- '", s.as_str());
                concat(a.as_str(), "'")
            },
        }
    }
}

} // verus!
