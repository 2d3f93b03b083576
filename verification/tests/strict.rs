use rusty_detox::strict::{parse, StrictArgs, StrictParseError};

#[test]
fn grouped_short_flags() {
    let p = parse(&["-rv".into()]).unwrap();
    assert!(p.recursive && p.verbose);
}

#[test]
fn last_wins_sequence_flag() {
    let p = parse(&["-s".into(), "default".into(), "-s".into(), "utf_8".into()]).unwrap();
    assert_eq!(p.sequence.as_deref(), Some("utf_8"));
}

#[test]
fn glued_short_flag_with_arg() {
    let p = parse(&["-sutf_8".into()]).unwrap();
    assert_eq!(p.sequence.as_deref(), Some("utf_8"));
}

#[test]
fn unknown_short_flag_rejected() {
    let err = parse(&["-Z".into()]).unwrap_err();
    assert_eq!(err, StrictParseError::UnknownFlag('Z'));
}

#[test]
fn unknown_long_flag_rejected() {
    let err = parse(&["--unknown".into()]).unwrap_err();
    assert_eq!(err, StrictParseError::UnknownLongFlag("unknown".into()));
}

#[test]
fn completions_token_is_a_positional() {
    let p = parse(&["completions".into(), "bash".into()]).unwrap();
    assert_eq!(p.paths, vec!["completions", "bash"]);
}

#[test]
fn unknown_flag_message_format() {
    let err = StrictParseError::UnknownFlag('Z');
    assert_eq!(err.message(), "rusty-detox: invalid option -- 'Z'");
}

// Further cases.

fn args(v: &[&str]) -> Vec<String> {
    v.iter().map(|s| s.to_string()).collect()
}

#[test]
fn empty_arguments_give_defaults() {
    assert_eq!(parse(&[]).unwrap(), StrictArgs::default());
}

#[test]
fn all_switches_short_and_long() {
    let p = parse(&args(&["-nrvLhV"])).unwrap();
    assert!(p.dry_run && p.recursive && p.verbose && p.list_sequences && p.help && p.version);
    let q = parse(&args(&["--dry-run", "--recursive", "--verbose", "--list-sequences", "--help", "--version"])).unwrap();
    assert_eq!(p, q);
}

#[test]
fn strict_and_no_strict_are_consumed() {
    let p = parse(&args(&["--strict", "--no-strict", "a"])).unwrap();
    assert_eq!(p.paths, vec!["a"]);
    assert!(!p.dry_run);
}

#[test]
fn long_flags_with_values_last_wins() {
    let p = parse(&args(&["--sequence", "a", "--config-file", "/f", "--sequence", "b"])).unwrap();
    assert_eq!(p.sequence.as_deref(), Some("b"));
    assert_eq!(p.config_file.as_deref(), Some("/f"));
}

#[test]
fn short_value_taken_from_next_argument_even_if_dashed() {
    let p = parse(&args(&["-vf", "-n", "x"])).unwrap();
    assert!(p.verbose);
    assert!(!p.dry_run);
    assert_eq!(p.config_file.as_deref(), Some("-n"));
    assert_eq!(p.paths, vec!["x"]);
}

#[test]
fn double_dash_ends_options() {
    let p = parse(&args(&["-n", "--", "-r", "--help", "-"])).unwrap();
    assert!(p.dry_run && !p.recursive && !p.help);
    assert_eq!(p.paths, vec!["-r", "--help", "-"]);
}

#[test]
fn lone_dash_is_a_path() {
    let p = parse(&args(&["-", "b"])).unwrap();
    assert_eq!(p.paths, vec!["-", "b"]);
}

#[test]
fn missing_arguments() {
    assert_eq!(parse(&args(&["-s"])).unwrap_err(), StrictParseError::MissingArgument("s".into()));
    assert_eq!(parse(&args(&["-rf"])).unwrap_err(), StrictParseError::MissingArgument("f".into()));
    assert_eq!(
        parse(&args(&["--sequence"])).unwrap_err(),
        StrictParseError::MissingArgument("sequence".into())
    );
    assert_eq!(
        parse(&args(&["--config-file"])).unwrap_err(),
        StrictParseError::MissingArgument("config-file".into())
    );
}

#[test]
fn unknown_flag_inside_a_group_after_valid_ones() {
    assert_eq!(parse(&args(&["-rvq"])).unwrap_err(), StrictParseError::UnknownFlag('q'));
}

#[test]
fn error_messages() {
    assert_eq!(
        StrictParseError::UnknownLongFlag("bogus".into()).message(),
        "rusty-detox: unrecognized option '--bogus'"
    );
    assert_eq!(
        StrictParseError::MissingArgument("s".into()).message(),
        "rusty-detox: option requires an argument -- 's'"
    );
    assert_eq!(StrictParseError::UnknownFlag('é').message(), "rusty-detox: invalid option -- 'é'");
}

#[test]
fn non_ascii_glued_value() {
    let p = parse(&args(&["-sRésumé"])).unwrap();
    assert_eq!(p.sequence.as_deref(), Some("Résumé"));
}
