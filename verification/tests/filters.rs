use rusty_detox::filter::{
    default_unsafe_chars, iso8859_1, max_length, safe, safe_platform, uncgi, utf8, wipeup, Filter,
    DEFAULT_SEPARATOR,
};

#[test]
fn iso8859_1_ascii_passes_through() {
    assert_eq!(iso8859_1::apply(b"hello.txt"), b"hello.txt");
}

#[test]
fn latin1_e_acute_to_e() {
    // 0xE9 = é in Latin-1
    assert_eq!(iso8859_1::apply(&[b'r', 0xE9, b's']), b"res");
}

#[test]
fn latin1_capital_aelig_to_ae() {
    // 0xC6 = Æ in Latin-1
    assert_eq!(iso8859_1::apply(&[0xC6, b'O', b'N']), b"AEON");
}

#[test]
fn no_truncation_when_under_limit() {
    assert_eq!(max_length::apply(b"short.txt", 255), b"short.txt");
}

#[test]
fn truncates_preserving_extension() {
    let long = b"abcdefghij.txt";
    assert_eq!(max_length::apply(long, 10), b"abcdef.txt");
}

#[test]
fn no_dot_just_truncates() {
    assert_eq!(max_length::apply(b"abcdefghij", 5), b"abcde");
}

#[test]
fn last_dot_wins_for_extension_picker() {
    assert_eq!(max_length::apply(b"foo.tar.gz", 6), b"foo.gz");
}

#[test]
fn safe_default_matches_fr004() {
    match Filter::safe_default() {
        Filter::Safe { replacement, unsafe_chars } => {
            assert_eq!(replacement, b'_');
            assert!(unsafe_chars.contains(&b' '));
            assert!(unsafe_chars.contains(&b'/'));
            assert!(unsafe_chars.contains(&b'('));
        }
        _ => panic!("safe_default must return Filter::Safe"),
    }
}

#[test]
fn wipeup_default_collapses_underscores() {
    let f = Filter::wipeup_default();
    assert_eq!(f.apply(b"a__b___c"), b"a_b_c");
}

#[test]
fn spaces_become_underscores_with_default_set() {
    assert_eq!(
        safe::apply(b"hello world.txt", b'_', default_unsafe_chars()),
        b"hello_world.txt"
    );
}

#[test]
fn parens_become_underscores() {
    assert_eq!(safe::apply(b"foo (1).pdf", b'_', default_unsafe_chars()), b"foo__1_.pdf");
}

#[test]
fn decoded_slash_becomes_underscore_q10() {
    assert_eq!(safe::apply(b"a/b", b'_', default_unsafe_chars()), b"a_b");
}

#[test]
fn custom_replacement_byte() {
    assert_eq!(safe::apply(b"a b", b'-', b" "), b"a-b");
}

#[test]
fn con_dot_txt_becomes_con_underscore_dot_txt() {
    assert_eq!(safe_platform::apply(b"CON.txt"), b"CON_.txt");
}

#[test]
fn case_insensitive_reserved_name() {
    assert_eq!(safe_platform::apply(b"con.txt"), b"con_.txt");
}

#[test]
fn reserved_chars_become_underscores() {
    assert_eq!(safe_platform::apply(b"a<b>c"), b"a_b_c");
}

#[test]
fn control_bytes_become_underscores() {
    assert_eq!(safe_platform::apply(&[b'a', 0x01, b'b']), b"a_b");
}

#[test]
fn trailing_dot_stripped() {
    assert_eq!(safe_platform::apply(b"foo."), b"foo");
    assert_eq!(safe_platform::apply(b"foo ."), b"foo");
}

#[test]
fn plain_name_unchanged() {
    assert_eq!(safe_platform::apply(b"hello.txt"), b"hello.txt");
}

#[test]
fn decodes_percent_20_to_space() {
    assert_eq!(uncgi::apply(b"hello%20world"), b"hello world");
}

#[test]
fn decodes_percent_2f_to_slash() {
    assert_eq!(uncgi::apply(b"a%2Fb"), b"a/b");
    assert_eq!(uncgi::apply(b"a%2fb"), b"a/b");
}

#[test]
fn passes_through_no_escapes() {
    assert_eq!(uncgi::apply(b"plain.txt"), b"plain.txt");
}

#[test]
fn unrecognized_escape_passes_through() {
    assert_eq!(uncgi::apply(b"a%ZZb"), b"a%ZZb");
}

#[test]
fn trailing_percent_at_end_passes_through() {
    assert_eq!(uncgi::apply(b"foo%"), b"foo%");
    assert_eq!(uncgi::apply(b"foo%A"), b"foo%A");
}

#[test]
fn utf8_ascii_passes_through() {
    assert_eq!(utf8::apply(b"hello.txt"), b"hello.txt");
}

#[test]
fn utf8_e_acute_to_e() {
    assert_eq!(utf8::apply("café".as_bytes()), b"cafe");
}

#[test]
fn unmapped_codepoint_passes_through_bytes() {
    let middle = "中".as_bytes();
    assert_eq!(utf8::apply(middle), middle);
}

#[test]
fn invalid_utf8_byte_passes_through() {
    assert_eq!(utf8::apply(&[b'a', 0xFF, b'b']), &[b'a', 0xFF, b'b']);
}

#[test]
fn collapses_runs() {
    assert_eq!(wipeup::apply(b"a__b___c", b'_', false), b"a_b_c");
}

#[test]
fn trims_leading_and_trailing_when_true() {
    assert_eq!(wipeup::apply(b"__hello_world__", b'_', true), b"hello_world");
}

#[test]
fn does_not_trim_when_false() {
    assert_eq!(wipeup::apply(b"__hello_world__", b'_', false), b"_hello_world_");
}

#[test]
fn all_separators_with_trim_becomes_empty() {
    assert_eq!(wipeup::apply(b"____", b'_', true), b"");
}

// Further cases.

#[test]
fn uncgi_decodes_several_escapes_and_mixed_case() {
    assert_eq!(uncgi::apply(b"%41%62%2e%7E"), b"Ab.~");
}

#[test]
fn uncgi_percent_followed_by_one_hex_then_end() {
    assert_eq!(uncgi::apply(b"%4"), b"%4");
}

#[test]
fn iso8859_1_unmapped_high_byte_passes_through() {
    // 0x80 has no entry in the Latin-1 table.
    assert_eq!(iso8859_1::apply(&[b'a', 0x80, b'b']), &[b'a', 0x80, b'b']);
}

#[test]
fn iso8859_1_sharp_s_becomes_ss() {
    assert_eq!(iso8859_1::apply(&[0xDF]), b"ss");
}

#[test]
fn utf8_truncated_sequence_passes_through() {
    // 0xC3 without its continuation byte.
    assert_eq!(utf8::apply(&[b'x', 0xC3]), &[b'x', 0xC3]);
}

#[test]
fn utf8_capital_aelig_to_ae() {
    assert_eq!(utf8::apply("Æon".as_bytes()), b"AEon");
}

#[test]
fn safe_keeps_bytes_outside_the_set() {
    assert_eq!(safe::apply(b"a.b-c", b'_', default_unsafe_chars()), b"a.b-c");
}

#[test]
fn wipeup_custom_separator() {
    assert_eq!(wipeup::apply(b"--a--b--", b'-', true), b"a-b");
}

#[test]
fn wipeup_empty_input() {
    assert_eq!(wipeup::apply(b"", b'_', true), b"");
}

#[test]
fn max_length_extension_not_shorter_than_limit_keeps_extension() {
    // The extension (dot included) does not leave room for the stem: the
    // extension alone is kept.
    assert_eq!(max_length::apply(b"a.verylongext", 4), b".verylongext");
}

#[test]
fn max_length_exact_limit_unchanged() {
    assert_eq!(max_length::apply(b"abc.txt", 7), b"abc.txt");
}

#[test]
fn safe_platform_lpt_and_com_names() {
    assert_eq!(safe_platform::apply(b"lpt1"), b"lpt1_");
    assert_eq!(safe_platform::apply(b"COM9.tar.gz"), b"COM9_.tar.gz");
    assert_eq!(safe_platform::apply(b"COM0"), b"COM0");
}

#[test]
fn safe_platform_all_dots_become_empty() {
    assert_eq!(safe_platform::apply(b"..."), b"");
}

#[test]
fn filter_apply_dispatches_each_kind() {
    assert_eq!(Filter::Uncgi.apply(b"a%20b"), b"a b");
    assert_eq!(Filter::MaxLength { limit: 3 }.apply(b"abcdef"), b"abc");
    assert_eq!(Filter::SafePlatform.apply(b"a|b"), b"a_b");
    assert_eq!(Filter::Utf8.apply("é".as_bytes()), b"e");
    assert_eq!(Filter::Iso8859_1.apply(&[0xE9]), b"e");
}

#[test]
fn default_separator_is_underscore() {
    assert_eq!(DEFAULT_SEPARATOR, b'_');
}

#[test]
fn filter_duplicate_is_equal() {
    let f = Filter::safe_default();
    assert_eq!(f.duplicate(), f);
}

#[test]
fn safe_platform_strips_before_checking_reserved_names() {
    assert_eq!(safe_platform::apply(b"CON "), b"CON_");
    assert_eq!(safe_platform::apply(b"con. "), b"con_");
    assert_eq!(safe_platform::apply(b"nul.txt ."), b"nul_.txt");
    assert_eq!(safe_platform::apply(b"AUX..."), b"AUX_");
}

#[test]
fn utf8_ill_formed_sequences_pass_through() {
    // overlong U+00E9, overlong NUL, a surrogate, and a value above U+10FFFF
    assert_eq!(utf8::apply(&[0xE0, 0x83, 0xA9]), &[0xE0, 0x83, 0xA9]);
    assert_eq!(utf8::apply(&[0xC0, 0x80]), &[0xC0, 0x80]);
    assert_eq!(utf8::apply(&[0xED, 0xA0, 0x80]), &[0xED, 0xA0, 0x80]);
    assert_eq!(utf8::apply(&[0xF4, 0x90, 0x80, 0x80]), &[0xF4, 0x90, 0x80, 0x80]);
}

#[test]
fn utf8_four_byte_scalar_passes_through_whole() {
    let emoji = "a\u{1F600}b".as_bytes();
    assert_eq!(utf8::apply(emoji), emoji);
}
