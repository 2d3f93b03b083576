use rusty_detox::mode::{basename, resolve, CompatibilityMode};
use rusty_detox::output::rename_line;

fn argv(v: &[&str]) -> Vec<String> {
    v.iter().map(|s| s.to_string()).collect()
}

#[test]
fn explicit_strict_flag() {
    let argv: Vec<String> = vec!["rusty-detox".into(), "--strict".into()];
    assert_eq!(resolve(&argv, None), CompatibilityMode::Strict);
}

#[test]
fn no_strict_overrides() {
    let argv: Vec<String> = vec!["rusty-detox".into(), "--strict".into(), "--no-strict".into()];
    assert_eq!(resolve(&argv, None), CompatibilityMode::Default);
}

#[test]
fn argv0_detox_triggers_strict() {
    let argv: Vec<String> = vec!["/usr/local/bin/detox".into()];
    assert_eq!(resolve(&argv, None), CompatibilityMode::Strict);
}

#[test]
fn argv0_detox_alias_triggers_strict() {
    let argv: Vec<String> = vec!["detox-alias".into()];
    assert_eq!(resolve(&argv, None), CompatibilityMode::Strict);
}

#[test]
fn argv0_rusty_detox_is_default() {
    let argv: Vec<String> = vec!["rusty-detox".into()];
    assert_eq!(resolve(&argv, None), CompatibilityMode::Default);
}

#[test]
fn basename_strips_exe_suffix() {
    assert_eq!(basename("C:\\bin\\detox.exe"), "detox");
    assert_eq!(basename("/usr/bin/detox"), "detox");
    assert_eq!(basename("detox"), "detox");
}

#[test]
fn format_uses_space_arrow_space_lf() {
    let line = rename_line(b"hello world.txt", b"hello_world.txt");
    assert_eq!(line, "hello world.txt -> hello_world.txt\n");
    assert!(line.ends_with('\n'));
    assert_eq!(line.matches(" -> ").count(), 1);
}

// Further cases.

#[test]
fn environment_setting_selects_strict_only_when_one() {
    assert_eq!(resolve(&argv(&["rusty-detox"]), Some("1")), CompatibilityMode::Strict);
    assert_eq!(resolve(&argv(&["rusty-detox"]), Some("0")), CompatibilityMode::Default);
    assert_eq!(resolve(&argv(&["rusty-detox"]), Some("")), CompatibilityMode::Default);
    assert_eq!(resolve(&argv(&["rusty-detox", "--no-strict"]), Some("1")), CompatibilityMode::Default);
}

#[test]
fn program_name_is_compared_without_case() {
    assert_eq!(resolve(&argv(&["C:\\Tools\\DETOX.exe"]), None), CompatibilityMode::Strict);
    assert_eq!(resolve(&argv(&["/bin/Detox-Alias"]), None), CompatibilityMode::Strict);
    assert_eq!(resolve(&argv(&["/bin/detoxify"]), None), CompatibilityMode::Default);
    assert_eq!(resolve(&argv(&[]), None), CompatibilityMode::Default);
}

#[test]
fn strict_flag_anywhere_in_argv() {
    assert_eq!(resolve(&argv(&["x", "a", "b", "--strict"]), None), CompatibilityMode::Strict);
    assert_eq!(resolve(&argv(&["--strict"]), None), CompatibilityMode::Strict);
}

#[test]
fn basename_edge_cases() {
    assert_eq!(basename(""), "");
    assert_eq!(basename("/"), "");
    assert_eq!(basename("a/b\\c.exe.exe"), "c.exe");
    assert_eq!(basename(".exe"), "");
    assert_eq!(basename("dir/tool.EXE"), "tool.EXE");
}

#[test]
fn default_mode_is_default() {
    assert_eq!(CompatibilityMode::default(), CompatibilityMode::Default);
}

#[test]
fn rename_line_shows_invalid_utf8_as_replacement_character() {
    assert_eq!(rename_line(&[b'a', 0xFF], b"a_"), "a\u{FFFD} -> a_\n");
}
