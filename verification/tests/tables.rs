use rusty_detox::tables::{iso8859_1_entries, lookup_iso8859_1, lookup_utf8, utf_8_table};

#[test]
fn utf8_is_sorted_by_codepoint() {
    let mut prev = 0u32;
    for &(cp, _) in utf_8_table() {
        assert!(cp > prev, "UTF_8 must be sorted ascending; {cp:#x} <= {prev:#x}");
        prev = cp;
    }
}

#[test]
fn iso8859_1_table_length() {
    assert_eq!(iso8859_1_entries().len(), 128, "ISO8859_1 covers 0x80..=0xFF (128 entries)");
}

#[test]
fn latin1_resume_e_acute() {
    assert_eq!(lookup_utf8(0x00E9), Some(b"e".as_slice()));
    assert_eq!(lookup_iso8859_1(0xE9), Some(b"e".as_slice()));
}

#[test]
fn unmapped_returns_none() {
    assert_eq!(lookup_utf8(0x4E2D), None);
}

#[test]
fn ascii_returns_none_for_iso() {
    assert_eq!(lookup_iso8859_1(0x41), None);
}

// Further cases.

#[test]
fn utf8_table_first_and_last_entries() {
    let t = utf_8_table();
    assert_eq!(t.len(), 77);
    assert_eq!(t[0].0, 0x00A0);
    assert_eq!(t[t.len() - 1].0, 0x00FF);
    assert_eq!(lookup_utf8(0x00FF), Some(b"y".as_slice()));
}

#[test]
fn lookup_utf8_below_and_above_the_table() {
    assert_eq!(lookup_utf8(0x41), None);
    assert_eq!(lookup_utf8(0x0100), None);
    assert_eq!(lookup_utf8(0), None);
    assert_eq!(lookup_utf8(u32::MAX), None);
}

#[test]
fn iso_and_utf8_tables_agree_on_latin1() {
    for b in 0x80u32..=0xFF {
        assert_eq!(lookup_iso8859_1(b as u8), lookup_utf8(b), "byte {b:#x}");
    }
}

#[test]
fn iso_sharp_s_and_c1_controls() {
    assert_eq!(lookup_iso8859_1(0xDF), Some(b"ss".as_slice()));
    assert_eq!(lookup_iso8859_1(0x80), None);
    assert_eq!(lookup_iso8859_1(0x9F), None);
}
