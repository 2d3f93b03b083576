use rusty_detox::error::decimal_text;
use rusty_detox::DetoxError;

#[test]
fn decimal_text_digits() {
    assert_eq!(decimal_text(0), "0");
    assert_eq!(decimal_text(7), "7");
    assert_eq!(decimal_text(1234), "1234");
    assert_eq!(decimal_text(usize::MAX), usize::MAX.to_string());
}

#[test]
fn error_messages_of_each_variant() {
    let io = DetoxError::Io { path: b"a b".to_vec(), source: std::io::Error::new(std::io::ErrorKind::Other, "boom") };
    assert_eq!(io.message(), "rusty-detox: I/O error on 'a b': boom");
    let config = DetoxError::Config { path: b"/etc/detoxrc".to_vec(), message: "unreadable".into() };
    assert_eq!(config.message(), "rusty-detox: config error at '/etc/detoxrc': unreadable");
    let parse = DetoxError::Parse { path: b"rc".to_vec(), line: 3, column: 14, message: "expected identifier".into() };
    assert_eq!(parse.message(), "rusty-detox: parse error at rc:3:14: expected identifier");
    let collision = DetoxError::Collision { path: vec![b'x', 0xFF], attempts: 1000 };
    assert_eq!(collision.message(), "rusty-detox: cannot resolve collision for 'x\u{FFFD}' (1000 attempts)");
    let cross = DetoxError::CrossDevice {
        source_path: b"/a".to_vec(),
        target: b"/b".to_vec(),
        source_err: std::io::Error::new(std::io::ErrorKind::Other, "no space"),
    };
    assert_eq!(cross.message(), "rusty-detox: cross-device rename failed from '/a' to '/b': no space");
    let invalid = DetoxError::PathInvalid { path: b"CON".to_vec(), reason: "reserved".into() };
    assert_eq!(invalid.message(), "rusty-detox: invalid path 'CON': reserved");
}
