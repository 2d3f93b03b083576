use rusty_detox::planner::{placed_path, plan_directory, resolve_collision, split_extension, NamedPath};
use rusty_detox::{DetoxError, Sequence};

fn p(s: &str) -> NamedPath {
    match s.rfind('/') {
        Some(i) => NamedPath::new(&s.as_bytes()[..i], &s.as_bytes()[i + 1..]),
        None => NamedPath::new(b"", s.as_bytes()),
    }
}

#[test]
fn no_collision_returns_original() {
    let taken = Vec::new();
    let (res, suf) = resolve_collision(&p("foo.txt"), &taken, 1000).unwrap();
    assert_eq!(res, p("foo.txt"));
    assert_eq!(suf, None);
}

#[test]
fn collision_suffix_before_extension() {
    let taken = vec![p("foo.txt")];
    let (res, suf) = resolve_collision(&p("foo.txt"), &taken, 1000).unwrap();
    assert_eq!(res, p("foo_1.txt"));
    assert_eq!(suf, Some(1));
}

#[test]
fn monotonic_counter_sc029() {
    let taken = vec![p("foo.txt"), p("foo_1.txt"), p("foo_2.txt")];
    let (res, suf) = resolve_collision(&p("foo.txt"), &taken, 1000).unwrap();
    assert_eq!(res, p("foo_3.txt"));
    assert_eq!(suf, Some(3));
}

#[test]
fn no_extension_appends_underscore_n() {
    let taken = vec![p("README")];
    let (res, _) = resolve_collision(&p("README"), &taken, 1000).unwrap();
    assert_eq!(res, p("README_1"));
}

#[test]
fn split_extension_last_dot_wins() {
    assert_eq!(split_extension(b"foo.tar.gz"), (b"foo.tar".to_vec(), Some(b"gz".to_vec())));
    assert_eq!(split_extension(b"foo"), (b"foo".to_vec(), None));
    assert_eq!(split_extension(b".bashrc"), (b".bashrc".to_vec(), None));
}

#[test]
fn collision_cap_exceeded_returns_err() {
    let mut taken = vec![p("foo.txt")];
    for n in 1..=5 {
        taken.push(p(&format!("foo_{n}.txt")));
    }
    let err = resolve_collision(&p("foo.txt"), &taken, 5).unwrap_err();
    assert!(matches!(err, DetoxError::Collision { attempts: 5, .. }));
}

#[test]
fn resolve_collision_when_target_pre_exists() {
    let taken = vec![p("/tmp/foo.txt")];
    let (resolved, suffix) = resolve_collision(&p("/tmp/foo.txt"), &taken, 1000).unwrap();
    assert_eq!(resolved, p("/tmp/foo_1.txt"));
    assert_eq!(suffix, Some(1));
}

// Further cases.

#[test]
fn collision_error_carries_joined_path() {
    let taken = vec![p("/d/x"), p("/d/x_1")];
    match resolve_collision(&p("/d/x"), &taken, 1) {
        Err(DetoxError::Collision { path, attempts }) => {
            assert_eq!(path, b"/d/x".to_vec());
            assert_eq!(attempts, 1);
        }
        other => panic!("expected a collision error, got {other:?}"),
    }
}

#[test]
fn cap_zero_fails_on_any_collision() {
    let taken = vec![p("a")];
    assert!(resolve_collision(&p("a"), &taken, 0).is_err());
    assert!(resolve_collision(&p("b"), &taken, 0).is_ok());
}

#[test]
fn split_extension_trailing_dot_and_empty() {
    assert_eq!(split_extension(b"foo."), (b"foo".to_vec(), Some(Vec::new())));
    assert_eq!(split_extension(b""), (Vec::new(), None));
}

#[test]
fn to_bytes_joins_like_path_join() {
    assert_eq!(NamedPath::new(b"/tmp", b"a").to_bytes(), b"/tmp/a".to_vec());
    assert_eq!(NamedPath::new(b"/tmp/", b"a").to_bytes(), b"/tmp/a".to_vec());
    assert_eq!(NamedPath::new(b"", b"a").to_bytes(), b"a".to_vec());
    assert_eq!(NamedPath::new(b"/tmp", b"/etc").to_bytes(), b"/etc".to_vec());
}

#[test]
fn plan_skips_clean_names_and_renames_dirty_ones() {
    let entries = vec![p("/d/clean.txt"), p("/d/hello world.txt")];
    let existing = vec![p("/d/clean.txt"), p("/d/hello world.txt")];
    let plan = plan_directory(&entries, &existing, &Sequence::default(), 1000).unwrap();
    assert_eq!(plan.len(), 1);
    assert_eq!(plan[0].source, p("/d/hello world.txt"));
    assert_eq!(plan[0].target, p("/d/hello_world.txt"));
    assert_eq!(plan[0].collision_suffix, None);
}

#[test]
fn plan_monotonic_suffixes_for_colliding_sources() {
    let entries = vec![p("/d/a b.txt"), p("/d/a  b.txt"), p("/d/a   b.txt")];
    let existing = entries.clone();
    let plan = plan_directory(&entries, &existing, &Sequence::default(), 1000).unwrap();
    assert_eq!(plan.len(), 3);
    assert_eq!(plan[0].target, p("/d/a_b.txt"));
    assert_eq!(plan[0].collision_suffix, None);
    assert_eq!(plan[1].target, p("/d/a_b_1.txt"));
    assert_eq!(plan[1].collision_suffix, Some(1));
    assert_eq!(plan[2].target, p("/d/a_b_2.txt"));
    assert_eq!(plan[2].collision_suffix, Some(2));
}

#[test]
fn plan_avoids_existing_unrelated_file() {
    let entries = vec![p("/d/x y")];
    let existing = vec![p("/d/x y"), p("/d/x_y")];
    let plan = plan_directory(&entries, &existing, &Sequence::default(), 1000).unwrap();
    assert_eq!(plan[0].target, p("/d/x_y_1"));
    assert_eq!(plan[0].collision_suffix, Some(1));
}

#[test]
fn plan_fails_when_cap_exhausted() {
    let entries = vec![p("/d/x y")];
    let existing = vec![p("/d/x y"), p("/d/x_y")];
    assert!(matches!(
        plan_directory(&entries, &existing, &Sequence::default(), 0),
        Err(DetoxError::Collision { attempts: 0, .. })
    ));
}

#[test]
fn collision_suffix_goes_on_the_last_path_component() {
    // A name that a sequence left with a `/`: the suffix goes on `c`.
    let target = NamedPath::new(b"/d", b"a.b/c");
    let taken = vec![NamedPath::new(b"/d", b"a.b/c")];
    let (res, suf) = resolve_collision(&target, &taken, 10).unwrap();
    assert_eq!(res, NamedPath::new(b"/d", b"a.b/c_1"));
    assert_eq!(suf, Some(1));
    let target = NamedPath::new(b"/d", b"x/y.tar.gz");
    let taken = vec![target.clone()];
    let (res, _) = resolve_collision(&target, &taken, 10).unwrap();
    assert_eq!(res.to_bytes(), b"/d/x/y.tar_1.gz".to_vec());
}

#[test]
fn placed_path_moves_directory_part_into_parent() {
    assert_eq!(placed_path(b"/d", b"x"), p("/d/x"));
    assert_eq!(placed_path(b"/d", b"a/b"), p("/d/a/b"));
    assert_eq!(placed_path(b"/d", b"a//b"), p("/d/a/b"));
    assert_eq!(placed_path(b"/d", b"/b"), NamedPath::new(b"/", b"b"));
    assert_eq!(placed_path(b"", b"a/b"), NamedPath::new(b"a", b"b"));
}

#[test]
fn plan_sees_existing_file_under_a_decoded_directory() {
    // uncgi turns `a%2Fb` into `a/b`, which names the existing `/d/a/b`.
    let seq = Sequence::new("u").push(rusty_detox::filter::Filter::Uncgi);
    let entries = vec![p("/d/a%2Fb")];
    let existing = vec![p("/d/a%2Fb"), p("/d/a/b")];
    let plan = plan_directory(&entries, &existing, &seq, 1000).unwrap();
    assert_eq!(plan[0].target, p("/d/a/b_1"));
    assert_eq!(plan[0].collision_suffix, Some(1));
    let free = plan_directory(&entries, &vec![p("/d/a%2Fb")], &seq, 1000).unwrap();
    assert_eq!(free[0].target, p("/d/a/b"));
    assert_eq!(free[0].collision_suffix, None);
}
