use rusty_detox::filter::Filter;
use rusty_detox::session::{builtin_sequence, default_start, not_found_message, strict_start, Start};
use rusty_detox::strict::parse;

fn args(v: &[&str]) -> Vec<String> {
    v.iter().map(|s| s.to_string()).collect()
}

#[test]
fn builtin_sequence_by_name() {
    assert_eq!(builtin_sequence(None).unwrap().name(), "default");
    assert_eq!(builtin_sequence(Some("default")).unwrap().name(), "default");
    assert_eq!(builtin_sequence(Some("iso8859_1")).unwrap().filters()[0], Filter::Iso8859_1);
    assert_eq!(builtin_sequence(Some("utf_8")).unwrap().filters()[0], Filter::Utf8);
    assert!(builtin_sequence(Some("nosuchsequence")).is_none());
    assert!(builtin_sequence(Some("Default")).is_none());
}

#[test]
fn not_found_message_format() {
    assert_eq!(not_found_message("rusty-detox", "foo"), "rusty-detox: sequence 'foo' not found");
    assert_eq!(not_found_message("inline-detox", ""), "inline-detox: sequence '' not found");
}

#[test]
fn default_start_order_of_decisions() {
    assert!(matches!(default_start(true, &[], Some("bad"), false, false, false), Start::ListSequences));
    assert!(matches!(default_start(false, &[], Some("bad"), false, false, false), Start::NoPaths));
    match default_start(false, &args(&["f"]), Some("nosuchsequence"), false, false, false) {
        Start::UnknownSequence(m) => assert_eq!(m, "rusty-detox: sequence 'nosuchsequence' not found"),
        _ => panic!("expected an unknown sequence"),
    }
    match default_start(false, &args(&["f"]), Some("utf_8"), true, false, true) {
        Start::Run(d) => {
            assert!(d.verbose && !d.dry_run && d.recursive);
            assert_eq!(d.collision_cap, 1000);
            assert_eq!(d.sanitize("Résumé.pdf"), "Resume.pdf");
        }
        _ => panic!("expected a run"),
    }
}

#[test]
fn strict_start_order_of_decisions() {
    assert!(matches!(strict_start(&parse(&args(&["-hV", "x"])).unwrap()), Start::Help));
    assert!(matches!(strict_start(&parse(&args(&["-VL"])).unwrap()), Start::Version));
    assert!(matches!(strict_start(&parse(&args(&["-L", "-s", "bad"])).unwrap()), Start::ListSequences));
    assert!(matches!(strict_start(&parse(&args(&["-n"])).unwrap()), Start::NoPaths));
    assert!(matches!(strict_start(&parse(&args(&["-s", "bad", "x"])).unwrap()), Start::UnknownSequence(_)));
    match strict_start(&parse(&args(&["-nv", "-s", "default", "-s", "utf_8", "Résumé.pdf"])).unwrap()) {
        Start::Run(d) => {
            assert!(d.dry_run && d.verbose && !d.recursive);
            assert_eq!(d.sanitize("Résumé.pdf"), "Resume.pdf");
        }
        _ => panic!("expected a run"),
    }
}

#[test]
fn grouped_switches_equal_separate_ones() {
    let grouped = parse(&args(&["a", "-nv", "b"])).unwrap();
    let separate = parse(&args(&["a", "-n", "-v", "b"])).unwrap();
    assert_eq!(grouped, separate);
}

#[test]
fn last_sequence_flag_wins_over_earlier_arguments() {
    let before = parse(&args(&["-r", "--sequence", "x", "p", "-s", "y"])).unwrap();
    let after = parse(&args(&["-r", "--sequence", "x", "p", "-s", "y", "-s", "z"])).unwrap();
    assert_eq!(after.sequence.as_deref(), Some("z"));
    assert_eq!(after.paths, before.paths);
    assert_eq!(after.recursive, before.recursive);
}

#[test]
fn last_config_file_flag_wins() {
    let p = parse(&args(&["-f", "/a", "x", "--config-file", "/b", "-f", "/c"])).unwrap();
    assert_eq!(p.config_file.as_deref(), Some("/c"));
    assert_eq!(p.paths, vec!["x"]);
}
