use rusty_detox::filter::Filter;
use rusty_detox::planner::{NamedPath, WalkEntry};
use rusty_detox::{DetoxBuilder, DetoxReport, Sequence};

#[test]
fn sanitize_default_sequence() {
    let detox = DetoxBuilder::new().build();
    assert_eq!(detox.sanitize("hello world.txt"), "hello_world.txt");
}

#[test]
fn sanitize_utf8_sequence() {
    let detox = DetoxBuilder::new().sequence(Sequence::utf_8()).build();
    assert_eq!(detox.sanitize("café.pdf"), "cafe.pdf");
}

#[test]
fn sanitize_bytes_parity_with_str_for_utf8_clean() {
    let detox = DetoxBuilder::new().sequence(Sequence::utf_8()).build();
    let input = "café.pdf";
    assert_eq!(detox.sanitize(input).as_bytes(), detox.sanitize_bytes(input.as_bytes()).as_slice());
}

#[test]
fn clean_filename_unchanged() {
    let detox = DetoxBuilder::new().build();
    assert_eq!(detox.sanitize("clean_already.txt"), "clean_already.txt");
}

#[test]
fn builder_default_sequence_sanitizes_space() {
    let detox = DetoxBuilder::new().build();
    assert_eq!(detox.sanitize("hello world.txt"), "hello_world.txt");
}

#[test]
fn builder_utf_8_sequence_transliterates() {
    let detox = DetoxBuilder::new().sequence(Sequence::utf_8()).build();
    assert_eq!(detox.sanitize("café.pdf"), "cafe.pdf");
}

#[test]
fn custom_sequence_with_dash_replacement() {
    let seq = Sequence::new("dash-style")
        .push(Filter::Safe { replacement: b'-', unsafe_chars: b" ()[]{}<>\"'".to_vec() })
        .push(Filter::Wipeup { separator: b'-', remove_trailing: false });
    let detox = DetoxBuilder::new().sequence(seq).build();
    assert_eq!(detox.sanitize("hello world.txt"), "hello-world.txt");
}

#[test]
fn sanitize_bytes_parity_with_str_sc028() {
    let detox = DetoxBuilder::new().sequence(Sequence::utf_8()).build();
    for input in &["ascii.txt", "café.pdf", "résumé final.docx", "clean.md"] {
        assert_eq!(
            detox.sanitize(input).as_bytes(),
            detox.sanitize_bytes(input.as_bytes()).as_slice(),
            "parity-by-construction failed for input: {input:?}"
        );
    }
}

#[test]
fn sequence_default_inherent_matches_trait_default() {
    let inherent = Sequence::default();
    let via_trait: Sequence = <Sequence as Default>::default();
    assert_eq!(inherent, via_trait);
}

#[test]
fn filter_safe_default_helper() {
    let f = Filter::safe_default();
    match f {
        Filter::Safe { replacement, unsafe_chars } => {
            assert_eq!(replacement, b'_');
            assert!(unsafe_chars.contains(&b' '));
            assert!(unsafe_chars.contains(&b'/'));
            assert!(unsafe_chars.contains(&b'('));
        }
        _ => panic!("safe_default must return Filter::Safe variant"),
    }
}

#[test]
fn safe_platform_rewrites_con_dot_txt() {
    let seq = Sequence::new("with-platform").push(Filter::SafePlatform).push(Filter::safe_default());
    let detox = DetoxBuilder::new().sequence(seq).build();
    let result = detox.sanitize("CON.txt");
    assert_eq!(result, "CON_.txt");
}

#[test]
fn safe_platform_case_insensitive_reserved_names() {
    let seq = Sequence::new("with-platform").push(Filter::SafePlatform);
    let detox = DetoxBuilder::new().sequence(seq).build();
    assert_eq!(detox.sanitize("nul"), "nul_");
    assert_eq!(detox.sanitize("Com1"), "Com1_");
    assert_eq!(detox.sanitize("LPT9.dat"), "LPT9_.dat");
}

#[test]
fn safe_platform_rewrites_reserved_chars() {
    let seq = Sequence::new("with-platform").push(Filter::SafePlatform);
    let detox = DetoxBuilder::new().sequence(seq).build();
    assert_eq!(detox.sanitize("a<b>c"), "a_b_c");
    assert_eq!(detox.sanitize("a:b|c"), "a_b_c");
    assert_eq!(detox.sanitize("a?b*c"), "a_b_c");
}

#[test]
fn safe_platform_strips_trailing_dot() {
    let seq = Sequence::new("with-platform").push(Filter::SafePlatform);
    let detox = DetoxBuilder::new().sequence(seq).build();
    assert_eq!(detox.sanitize("foo."), "foo");
    assert_eq!(detox.sanitize("bar ."), "bar");
}

#[test]
fn safe_platform_plain_name_unchanged() {
    let seq = Sequence::new("with-platform").push(Filter::SafePlatform);
    let detox = DetoxBuilder::new().sequence(seq).build();
    assert_eq!(detox.sanitize("hello.txt"), "hello.txt");
}

// Further cases.

#[test]
fn quick_start_example() {
    let detox = DetoxBuilder::new().sequence(Sequence::utf_8()).build();
    assert_eq!(detox.sanitize("My Résumé (final v2).pdf"), "My_Resume_final_v2_.pdf");
}

#[test]
fn sanitize_shows_invalid_output_as_replacement_character() {
    // uncgi decodes %C3 to a lone byte that is not valid UTF-8.
    let detox = DetoxBuilder::new().sequence(Sequence::new("u").push(Filter::Uncgi)).build();
    assert_eq!(detox.sanitize("a%C3"), "a\u{FFFD}");
    assert_eq!(detox.sanitize_bytes(b"a%C3"), vec![b'a', 0xC3]);
}

#[test]
fn builder_settings_and_defaults() {
    let d = DetoxBuilder::new().build();
    assert!(!d.verbose && !d.dry_run && !d.recursive);
    assert_eq!(d.collision_cap, 1000);
    let e = DetoxBuilder::default().verbose(true).dry_run(true).recursive(true).collision_cap(7).build();
    assert!(e.verbose && e.dry_run && e.recursive);
    assert_eq!(e.collision_cap, 7);
}

#[test]
fn plan_of_a_single_path() {
    let d = DetoxBuilder::new().build();
    let entries = vec![NamedPath::new(b"/d", b"hello world.txt")];
    let plan = d.plan(&entries, &entries);
    assert_eq!(plan.len(), 1);
    assert_eq!(plan[0].target, NamedPath::new(b"/d", b"hello_world.txt"));
}

#[test]
fn plan_is_empty_when_collisions_exhaust_the_cap() {
    let d = DetoxBuilder::new().collision_cap(0).build();
    let entries = vec![NamedPath::new(b"/d", b"x y")];
    let existing = vec![NamedPath::new(b"/d", b"x y"), NamedPath::new(b"/d", b"x_y")];
    assert!(d.plan(&entries, &existing).is_empty());
}

#[test]
fn execute_in_dry_run_skips_everything() {
    let d = DetoxBuilder::new().dry_run(true).build();
    let (report, rename) = d.execute(3, 2);
    assert!(!rename);
    assert_eq!(report.planned, 3);
    assert_eq!(report.skipped, 5);
    assert_eq!(report.renamed, 0);
    assert_eq!(report.errored, 0);
}

#[test]
fn execute_counts_renames_and_stops_at_first_failure() {
    let d = DetoxBuilder::new().build();
    let (mut report, rename) = d.execute(3, 1);
    assert!(rename);
    assert!(report.record_rename(true));
    assert!(!report.record_rename(false));
    assert_eq!(report.renamed, 1);
    assert_eq!(report.errored, 1);
    assert_eq!(report.skipped, 1);
    assert_eq!(report.planned, 3);
}

#[test]
fn report_default_is_zero() {
    let r = DetoxReport::default();
    assert_eq!((r.planned, r.renamed, r.skipped, r.errored), (0, 0, 0, 0));
}

#[test]
fn walk_entry_holds_path_and_kind() {
    let w = WalkEntry { path: NamedPath::new(b"/d", b"a"), is_dir: true };
    assert!(w.is_dir);
    assert_eq!(w.path.to_bytes(), b"/d/a".to_vec());
}

#[test]
fn clean_entries_are_counted_as_skipped() {
    let d = DetoxBuilder::new().build();
    let entries = vec![NamedPath::new(b"/d", b"clean_already.txt"), NamedPath::new(b"/d", b"a b")];
    let plan = d.plan(&entries, &entries);
    let clean = d.clean_entries(&entries);
    assert_eq!((plan.len(), clean), (1, 1));
    let only_clean = vec![NamedPath::new(b"/d", b"clean_already.txt")];
    let (report, rename) = d.execute(d.plan(&only_clean, &only_clean).len(), d.clean_entries(&only_clean));
    assert!(rename);
    assert_eq!((report.planned, report.skipped, report.renamed, report.errored), (0, 1, 0, 0));
}
