use rusty_detox::config::DetoxConfig;
use rusty_detox::filter::Filter;
use rusty_detox::output::rename_line;
use rusty_detox::planner::NamedPath;
use rusty_detox::session::{builtin_sequence, default_start, strict_start, Start};
use rusty_detox::strict::{parse, StrictParseError};
use rusty_detox::{Detox, DetoxBuilder, DetoxError, Sequence};

fn args(v: &[&str]) -> Vec<String> {
    v.iter().map(|s| s.to_string()).collect()
}

fn inline(sequence: Option<&str>, input: &[u8]) -> Option<Vec<u8>> {
    let s = builtin_sequence(sequence)?;
    Some(DetoxBuilder::new().sequence(s).build().sanitize_bytes(input))
}

fn send_sync_clone<T: Send + Sync + Clone>() {}

fn send_sync<T: Send + Sync>() {}

#[test]
fn send_sync_clone_bounds() {
    send_sync_clone::<Detox>();
    send_sync_clone::<DetoxBuilder>();
    send_sync_clone::<Sequence>();
    send_sync_clone::<Filter>();
    send_sync::<DetoxError>();
}

#[test]
fn strict_unknown_flag_rejected() {
    let err = parse(&args(&["--strict", "-Z"])).unwrap_err();
    assert_eq!(err, StrictParseError::UnknownFlag('Z'));
    let stderr = err.message();
    assert!(
        stderr.contains("invalid option") && stderr.contains("'Z'"),
        "Strict unknown-flag stderr should match upstream format; got: {stderr:?}"
    );
}

#[test]
fn strict_does_not_emit_completion_script() {
    let parsed = parse(&args(&["--strict", "completions", "bash"])).unwrap();
    assert_eq!(parsed.paths, vec!["completions", "bash"]);
    assert!(matches!(strict_start(&parsed), Start::Run(_)));
}

#[test]
fn strict_mode_does_not_emit_completion_script() {
    let parsed = parse(&args(&["--strict", "completions", "bash"])).unwrap();
    match strict_start(&parsed) {
        Start::Run(d) => assert!(!d.dry_run && !d.verbose),
        _ => panic!("strict mode treats `completions` as a path"),
    }
}

#[test]
fn list_sequences_prints_all_three() {
    let config = DetoxConfig::built_in();
    let names = config.list_names();
    assert!(names.contains(&"default"));
    assert!(names.contains(&"iso8859_1"));
    assert!(names.contains(&"utf_8"));
    assert!(matches!(default_start(true, &[], None, false, false, false), Start::ListSequences));
}

#[test]
fn inline_default_sequence_sanitizes_space() {
    assert_eq!(inline(None, b"hello world.txt").unwrap(), b"hello_world.txt");
}

#[test]
fn inline_utf8_sequence_transliterates() {
    assert_eq!(inline(Some("utf_8"), "café.pdf".as_bytes()).unwrap(), b"cafe.pdf");
}

#[test]
fn inline_empty_stdin_produces_empty_stdout() {
    assert!(inline(None, b"").unwrap().is_empty());
}

#[test]
fn inline_unknown_sequence_errors() {
    assert!(inline(Some("nosuchsequence"), b"foo.txt").is_none());
}

#[test]
fn inline_matches_rusty_detox_sanitization() {
    let inline_out = inline(Some("utf_8"), "My Résumé.pdf".as_bytes()).unwrap();
    let inline_str = String::from_utf8_lossy(&inline_out).into_owned();
    let detox = match default_start(false, &args(&["My Résumé.pdf"]), Some("utf_8"), false, true, false) {
        Start::Run(d) => d,
        _ => panic!("expected a run"),
    };
    let entries = vec![NamedPath::new(b"", "My Résumé.pdf".as_bytes())];
    let plan = detox.plan(&entries, &Vec::new());
    let line = rename_line(&plan[0].source.to_bytes(), &plan[0].target.to_bytes());
    let extracted_target = line.split(" -> ").nth(1).map(|s| s.trim_end_matches('\n')).unwrap_or("");
    assert_eq!(inline_str, extracted_target);
}
