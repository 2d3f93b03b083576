use rusty_detox::filter::Filter;
use rusty_detox::Sequence;

#[test]
fn default_inherent_matches_trait_default() {
    let inherent = Sequence::default();
    let trait_d: Sequence = <Sequence as Default>::default();
    assert_eq!(inherent, trait_d);
}

#[test]
fn default_sanitizes_space_to_underscore() {
    let s = Sequence::default();
    assert_eq!(s.apply(b"hello world.txt"), b"hello_world.txt");
}

#[test]
fn utf_8_strips_e_acute() {
    let s = Sequence::utf_8();
    assert_eq!(s.apply("café résumé.pdf".as_bytes()), b"cafe_resume.pdf");
}

#[test]
fn push_returns_self_for_chaining() {
    let s = Sequence::new("custom")
        .push(Filter::safe_default())
        .push(Filter::wipeup_default());
    assert_eq!(s.filters().len(), 2);
}

// Further cases.

#[test]
fn builtin_names_and_filter_counts() {
    assert_eq!(Sequence::default().name(), "default");
    assert_eq!(Sequence::iso8859_1().name(), "iso8859_1");
    assert_eq!(Sequence::utf_8().name(), "utf_8");
    assert_eq!(Sequence::default().filters().len(), 2);
    assert_eq!(Sequence::iso8859_1().filters().len(), 3);
    assert_eq!(Sequence::utf_8().filters().len(), 3);
    assert_eq!(Sequence::utf_8().filters()[0], Filter::Utf8);
    assert_eq!(Sequence::iso8859_1().filters()[0], Filter::Iso8859_1);
}

#[test]
fn iso8859_1_sequence_transliterates_latin1_bytes() {
    let s = Sequence::iso8859_1();
    assert_eq!(s.apply(&[b'r', 0xE9, b's', b'u', b'm', 0xE9, b' ', b'(', b'1', b')']), b"resume_1");
}

#[test]
fn empty_sequence_is_identity() {
    let s = Sequence::new("nothing");
    assert_eq!(s.apply(b"a b%20c"), b"a b%20c");
}

#[test]
fn filters_apply_left_to_right() {
    // uncgi first turns %20 into a space, which safe then replaces.
    let s = Sequence::new("x").push(Filter::Uncgi).push(Filter::safe_default());
    assert_eq!(s.apply(b"a%20b"), b"a_b");
    // The other order leaves the escape for uncgi to decode after safe ran.
    let t = Sequence::new("y").push(Filter::safe_default()).push(Filter::Uncgi);
    assert_eq!(t.apply(b"a%20b"), b"a b");
}

#[test]
fn default_sequence_is_idempotent_on_examples() {
    let s = Sequence::default();
    for input in [&b"  My File (1).txt  "[..], b"__a__", b"a/b\\c", b"clean.txt", b""] {
        let once = s.apply(input);
        assert_eq!(s.apply(&once), once);
    }
}

#[test]
fn duplicate_keeps_name_and_filters() {
    let s = Sequence::utf_8();
    let d = s.duplicate();
    assert_eq!(d, s);
}
