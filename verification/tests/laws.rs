use rusty_detox::config::parse;
use rusty_detox::filter::{default_unsafe_chars, max_length, safe, safe_platform, uncgi, wipeup};
use rusty_detox::planner::{plan_directory, NamedPath};
use rusty_detox::{DetoxBuilder, Sequence};

#[test]
fn safe_output_holds_no_unsafe_byte_and_is_stable() {
    let out = safe::apply(b"a (b) [c] {d} <e> 'f' \"g\" !@#$&*?;|\\/", b'_', default_unsafe_chars());
    assert!(out.iter().all(|b| !default_unsafe_chars().contains(b)));
    assert_eq!(safe::apply(&out, b'_', default_unsafe_chars()), out);
}

#[test]
fn wipeup_output_has_no_adjacent_separators_and_is_stable() {
    let out = wipeup::apply(b"__a___b_c____", b'_', true);
    assert_eq!(out, b"a_b_c");
    assert!(!out.windows(2).any(|w| w == b"__"));
    assert_eq!(wipeup::apply(&out, b'_', true), out);
    let kept = wipeup::apply(b"__a___b__", b'_', false);
    assert_eq!(wipeup::apply(&kept, b'_', false), kept);
}

#[test]
fn default_sequence_applied_twice_changes_nothing_more() {
    let d = DetoxBuilder::new().build();
    let once = d.sanitize("  Mixed (Case) [file] name!!.tar.gz ");
    assert_eq!(d.sanitize(&once), once);
}

#[test]
fn max_length_never_exceeds_limit_when_extension_fits() {
    for limit in 3..12 {
        let out = max_length::apply(b"abcdefghijkl.txt", limit);
        if limit > 4 {
            assert!(out.len() <= limit);
            assert!(out.ends_with(b".txt"));
        }
    }
}

#[test]
fn safe_platform_output_is_portable() {
    let out = safe_platform::apply(&[b'c', b'o', b'n', b'<', 0x07, b'.', b' ']);
    assert_eq!(out, b"con__");
    assert!(out.iter().all(|&b| b >= 0x20 && !b"<>:\"|?*".contains(&b)));
    assert!(!out.ends_with(b".") && !out.ends_with(b" "));
}

#[test]
fn uncgi_without_percent_is_identity() {
    assert_eq!(uncgi::apply(b"no escapes here"), b"no escapes here");
}

#[test]
fn planned_targets_are_pairwise_distinct() {
    let dir = b"/d";
    let names: [&[u8]; 5] = [b"a b", b"a  b", b"a_b", b"a (b)", b"x"];
    let entries: Vec<NamedPath> = names.iter().map(|n| NamedPath::new(dir, n)).collect();
    let plan = plan_directory(&entries, &entries, &Sequence::default(), 1000).unwrap();
    for i in 0..plan.len() {
        for j in 0..plan.len() {
            if i != j {
                assert_ne!(plan[i].target, plan[j].target);
            }
        }
    }
    // "a_b" is clean and keeps its name, so no target may take it.
    assert!(plan.iter().all(|e| e.target != NamedPath::new(dir, b"a_b")));
}

#[test]
fn builtins_remain_after_any_successful_parse() {
    let cfg = parse("sequence default { filter safe; } sequence utf_8 { filter uncgi; }", b"t").unwrap();
    for name in ["default", "iso8859_1", "utf_8"] {
        assert!(cfg.get(name).is_some());
    }
}

#[test]
fn builtin_sequences_never_yield_an_unsafe_byte() {
    let names: [&[u8]; 4] = [b"a/b c", b"%2F(x)", "é/ü \"q\"".as_bytes(), &[0xC3, b'/', 0xFF]];
    for seq in [Sequence::default(), Sequence::iso8859_1(), Sequence::utf_8()] {
        for n in names {
            let out = seq.apply(n);
            assert!(out.iter().all(|b| !default_unsafe_chars().contains(b)), "{out:?}");
        }
    }
}
