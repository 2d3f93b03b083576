use rusty_detox::config::{config_candidates, home_dir, parse, DetoxConfig};
use rusty_detox::filter::{default_unsafe_chars, Filter};
use rusty_detox::planner::NamedPath;
use rusty_detox::DetoxError;

#[test]
fn built_in_has_three_sequences() {
    let cfg = DetoxConfig::built_in();
    assert!(cfg.get("default").is_some());
    assert!(cfg.get("iso8859_1").is_some());
    assert!(cfg.get("utf_8").is_some());
}

#[test]
fn parse_empty_returns_built_ins_only() {
    let cfg = parse("", b"test").unwrap();
    assert_eq!(cfg.list_names().len(), 3);
}

#[test]
fn parse_comment_skipped() {
    let cfg = parse("# this is a comment\n# another\n", b"test").unwrap();
    assert_eq!(cfg.list_names().len(), 3);
}

#[test]
fn parse_custom_sequence() {
    let src = r#"
sequence url_style {
    filter safe { replace = '-'; }
    filter wipeup;
}
"#;
    let cfg = parse(src, b"test").unwrap();
    let seq = cfg.get("url_style").expect("custom sequence parsed");
    assert_eq!(seq.filters().len(), 2);
    match &seq.filters()[0] {
        Filter::Safe { replacement, .. } => assert_eq!(*replacement, b'-'),
        _ => panic!("expected Safe filter"),
    }
}

#[test]
fn parse_syntax_error_returns_line_col() {
    let src = "not_a_sequence_keyword";
    let err = parse(src, b"test").unwrap_err();
    match err {
        DetoxError::Parse { line, column, .. } => {
            assert_eq!(line, 1);
            assert!(column >= 1);
        }
        _ => panic!("expected DetoxError::Parse, got {err:?}"),
    }
}

#[test]
fn parse_unknown_filter_errors() {
    let src = "sequence x { filter nosuchfilter; }";
    let err = parse(src, b"test").unwrap_err();
    match err {
        DetoxError::Parse { message, .. } => {
            assert!(message.contains("unknown filter"));
        }
        _ => panic!("expected Parse error"),
    }
}

// Further cases.

fn parse_error(src: &str) -> (Vec<u8>, usize, usize, String) {
    match parse(src, b"/etc/detoxrc") {
        Err(DetoxError::Parse { path, line, column, message }) => (path, line, column, message),
        other => panic!("expected a parse error, got {other:?}"),
    }
}

#[test]
fn list_names_is_sorted_and_complete() {
    let cfg = parse("sequence zz { filter wipeup; } sequence abc { filter uncgi; }", b"t").unwrap();
    assert_eq!(cfg.list_names(), vec!["abc", "default", "iso8859_1", "utf_8", "zz"]);
}

#[test]
fn block_replaces_builtin_of_same_name() {
    let cfg = parse("sequence default { filter uncgi; }", b"t").unwrap();
    let seq = cfg.get("default").unwrap();
    assert_eq!(seq.filters(), &[Filter::Uncgi]);
    assert_eq!(cfg.list_names().len(), 3);
}

#[test]
fn later_block_replaces_earlier_one() {
    let cfg = parse("sequence s { filter uncgi; } sequence s { filter utf_8; filter safe_platform; }", b"t").unwrap();
    assert_eq!(cfg.get("s").unwrap().filters(), &[Filter::Utf8, Filter::SafePlatform]);
}

#[test]
fn every_filter_name_and_its_defaults() {
    let src = "sequence all {\n filter uncgi;\n filter iso8859_1\n filter utf_8;\n filter safe;\n filter wipeup;\n filter max_length;\n filter safe_platform;\n}\n";
    let cfg = parse(src, b"t").unwrap();
    let f = cfg.get("all").unwrap().filters().to_vec();
    assert_eq!(
        f,
        vec![
            Filter::Uncgi,
            Filter::Iso8859_1,
            Filter::Utf8,
            Filter::Safe { replacement: b'_', unsafe_chars: default_unsafe_chars().to_vec() },
            Filter::Wipeup { separator: b'_', remove_trailing: true },
            Filter::MaxLength { limit: 255 },
            Filter::SafePlatform,
        ]
    );
}

#[test]
fn parameters_last_assignment_wins_and_unknown_keys_ignored() {
    let src = "sequence p { filter wipeup { sep = '-'; colour = 'x'; sep = '.'; }; filter max_length { limit = 'A'; } }";
    let cfg = parse(src, b"t").unwrap();
    let f = cfg.get("p").unwrap().filters().to_vec();
    assert_eq!(f, vec![Filter::Wipeup { separator: b'.', remove_trailing: true }, Filter::MaxLength { limit: 65 }]);
}

#[test]
fn error_expected_sequence_block_message() {
    let (path, line, column, message) = parse_error("not_a_sequence_keyword");
    assert_eq!(path, b"/etc/detoxrc".to_vec());
    assert_eq!((line, column), (1, 1));
    assert_eq!(message, "expected 'sequence' block, found \"not_a_sequence_keyword\"");
}

#[test]
fn error_position_on_a_later_line() {
    let (_, line, column, message) = parse_error("# comment\n\n  bogus rest\nmore");
    assert_eq!((line, column), (3, 3));
    assert_eq!(message, "expected 'sequence' block, found \"bogus rest\"");
}

#[test]
fn error_found_line_is_cut_at_forty_bytes() {
    let long = "x".repeat(50);
    let (_, _, _, message) = parse_error(&long);
    assert_eq!(message, format!("expected 'sequence' block, found \"{}\"", "x".repeat(40)));
}

#[test]
fn error_missing_brace_shows_found_byte() {
    let (_, line, column, message) = parse_error("sequence x filter");
    assert_eq!((line, column), (1, 12));
    assert_eq!(message, "expected '{', found Some('f')");
}

#[test]
fn error_missing_brace_at_end() {
    let (_, line, column, message) = parse_error("sequence x");
    assert_eq!((line, column), (1, 11));
    assert_eq!(message, "expected '{', found None");
}

#[test]
fn error_missing_identifier() {
    let (_, line, column, message) = parse_error("sequence {");
    assert_eq!((line, column), (1, 10));
    assert_eq!(message, "expected identifier");
}

#[test]
fn error_unknown_filter_full_message_and_position() {
    let (_, line, column, message) = parse_error("sequence x {\n  filter nosuchfilter;\n}");
    assert_eq!(message, "unknown filter 'nosuchfilter'");
    assert_eq!((line, column), (2, 23));
}

#[test]
fn error_filter_keyword_expected() {
    let (_, _, _, message) = parse_error("sequence x { blah; }");
    assert_eq!(message, "expected 'filter', found \"blah; }\"");
}

#[test]
fn error_byte_literal_forms() {
    let (_, _, _, m1) = parse_error("sequence x { filter safe { replace = -; } }");
    assert_eq!(m1, "expected single-quoted byte literal");
    let (_, _, _, m2) = parse_error("sequence x { filter safe { replace = '");
    assert_eq!(m2, "unterminated byte literal");
    let (_, _, _, m3) = parse_error("sequence x { filter safe { replace = '-x; } }");
    assert_eq!(m3, "expected closing single quote");
}

#[test]
fn error_missing_semicolon_after_parameter() {
    let (_, _, _, message) = parse_error("sequence x { filter safe { replace = '-' } }");
    assert_eq!(message, "expected ';', found Some('}')");
}

#[test]
fn error_unterminated_block() {
    let (_, _, _, message) = parse_error("sequence x { filter uncgi;");
    assert_eq!(message, "expected 'filter', found \"\"");
}

#[test]
fn default_config_is_empty_and_clone_keeps_entries() {
    let empty = DetoxConfig::default();
    assert!(empty.list_names().is_empty());
    let cfg = parse("sequence q { filter uncgi; }", b"t").unwrap();
    let copy = cfg.clone();
    assert_eq!(copy.list_names(), cfg.list_names());
    assert_eq!(copy.get("q").unwrap(), cfg.get("q").unwrap());
}

#[test]
fn get_unknown_name_is_none() {
    assert!(DetoxConfig::built_in().get("nosuchsequence").is_none());
    assert!(DetoxConfig::built_in().get("").is_none());
}

#[test]
fn home_dir_precedence() {
    assert_eq!(home_dir(Some("/home/a"), Some("C:\\Users\\a")), Some("/home/a"));
    assert_eq!(home_dir(Some(""), Some("C:\\Users\\a")), Some("C:\\Users\\a"));
    assert_eq!(home_dir(None, Some("")), None);
    assert_eq!(home_dir(None, None), None);
}

#[test]
fn config_candidates_in_order() {
    let c = config_candidates(Some("/x"), Some("/home/a"), None);
    let joined: Vec<Vec<u8>> = c.iter().map(|p| p.to_bytes()).collect();
    assert_eq!(
        joined,
        vec![b"/x/detoxrc".to_vec(), b"/home/a/.detoxrc".to_vec(), b"/etc/detoxrc".to_vec()]
    );
    let only_etc = config_candidates(None, Some(""), None);
    assert_eq!(only_etc, vec![NamedPath::new(b"/etc", b"detoxrc")]);
}

#[test]
fn empty_sequence_block_is_an_error() {
    let (_, line, column, message) = parse_error("sequence x { }");
    assert_eq!((line, column), (1, 14));
    assert_eq!(message, "expected 'filter', found \"}\"");
}
