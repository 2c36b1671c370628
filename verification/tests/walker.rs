use rg_opendal::walker::{select_keys, FilterError, WalkFilter};

#[test]
fn no_filter_passes_everything() {
    let f = WalkFilter::new(&[], &[], &[]).unwrap();
    assert!(f.matches("a.rs"));
    assert!(f.matches("nested/b.txt"));
}

#[test]
fn positive_glob_filters_to_match() {
    let f = WalkFilter::new(&["*.rs".into()], &[], &[]).unwrap();
    assert!(f.matches("a.rs"));
    assert!(f.matches("deep/nested/lib.rs"));
    assert!(!f.matches("a.txt"));
}

#[test]
fn negative_glob_excludes() {
    let f = WalkFilter::new(&["!target/**".into()], &[], &[]).unwrap();
    assert!(f.matches("src/main.rs"));
    assert!(!f.matches("target/debug/build.log"));
}

#[test]
fn type_alias_filters_rust() {
    let f = WalkFilter::new(&[], &["rust".into()], &[]).unwrap();
    assert!(f.matches("a.rs"));
    assert!(!f.matches("a.txt"));
}

#[test]
fn type_not_excludes_alias() {
    let f = WalkFilter::new(&[], &[], &["rust".into()]).unwrap();
    assert!(!f.matches("a.rs"));
    assert!(f.matches("a.txt"));
}

#[test]
fn type_not_only_does_not_affect_unmatched_files() {
    let f = WalkFilter::new(&[], &[], &["rust".into()]).unwrap();
    assert!(!f.matches("src/main.rs"));
    assert!(!f.matches("lib.rs"));
    assert!(f.matches("README.md"));
    assert!(f.matches("Cargo.toml"));
    assert!(f.matches("package.json"));
}

#[test]
fn combined_type_and_type_not() {
    let f = WalkFilter::new(&[], &["rust".into()], &["js".into()]).unwrap();
    assert!(f.matches("src/main.rs"));
    assert!(!f.matches("app.js"));
    assert!(!f.matches("README.md"));
}

#[test]
fn globs_and_types_both_apply() {
    let f = WalkFilter::new(&["src/**".into()], &["rust".into()], &[]).unwrap();
    assert!(f.matches("src/main.rs"));
    assert!(!f.matches("tests/main.rs"));
    assert!(!f.matches("src/README.md"));
}

#[test]
fn mixed_positive_and_negative_globs() {
    let f = WalkFilter::new(&["*.rs".into(), "!gen/**".into()], &[], &[]).unwrap();
    assert!(f.matches("src/a.rs"));
    assert!(!f.matches("gen/a.rs"));
    assert!(!f.matches("src/a.txt"));
}

#[test]
fn invalid_glob_is_reported_with_its_index() {
    match WalkFilter::new(&["*.rs".into(), "a[".into()], &[], &[]) {
        Err(FilterError::InvalidGlob { index, .. }) => assert_eq!(index, 1),
        other => panic!("expected an invalid glob, got {:?}", other.err()),
    }
}

#[test]
fn unknown_type_is_reported() {
    match WalkFilter::new(&[], &["no-such-type".into()], &[]) {
        Err(FilterError::Types { .. }) => {}
        other => panic!("expected a type error, got {:?}", other.err()),
    }
    match WalkFilter::new(&[], &[], &["no-such-type".into()]) {
        Err(FilterError::Types { .. }) => {}
        other => panic!("expected a type error, got {:?}", other.err()),
    }
}

fn strings(v: &[&str]) -> Vec<String> {
    v.iter().map(|s| s.to_string()).collect()
}

#[test]
fn selection_sorts_and_drops_directory_markers() {
    let listed = strings(&["b.txt", "dir/", "a.rs", "dir/c.rs", "A.rs", "b.txt"]);
    let keys = select_keys(&listed, None);
    assert_eq!(keys, strings(&["A.rs", "a.rs", "b.txt", "b.txt", "dir/c.rs"]));
}

#[test]
fn selection_applies_filter() {
    let f = WalkFilter::new(&["*.rs".into()], &[], &[]).unwrap();
    let listed = strings(&["z.rs", "notes.md", "src/", "src/lib.rs", "a.rs"]);
    let keys = select_keys(&listed, Some(&f));
    assert_eq!(keys, strings(&["a.rs", "src/lib.rs", "z.rs"]));
}

#[test]
fn selection_orders_by_bytes() {
    let listed = strings(&["é", "z", "ab", "a", "", "ä"]);
    let keys = select_keys(&listed, None);
    let mut expected = listed.clone();
    expected.sort();
    assert_eq!(keys, expected);
    assert_eq!(keys, strings(&["", "a", "ab", "z", "ä", "é"]));
}

#[test]
fn selection_ignores_listing_order() {
    let a = strings(&["c", "a/", "b", "a", "b"]);
    let b = strings(&["b", "a", "b", "c", "a/"]);
    assert_eq!(select_keys(&a, None), select_keys(&b, None));
}

#[test]
fn comment_and_blank_globs_filter_nothing() {
    let f = WalkFilter::new(&["# a comment".into(), "".into(), "   ".into()], &[], &[]).unwrap();
    assert!(f.matches("a.rs"));
    assert!(f.matches("x/y.txt"));
}

#[test]
fn trailing_whitespace_of_a_glob_is_trimmed() {
    let f = WalkFilter::new(&["*.rs  ".into()], &[], &[]).unwrap();
    assert!(f.matches("a.rs"));
    assert!(!f.matches("a.txt"));
}

#[test]
fn all_types_selects_every_known_type() {
    let f = WalkFilter::new(&[], &["all".into()], &[]).unwrap();
    assert!(f.matches("a.rs"));
    assert!(f.matches("b.py"));
    assert!(!f.matches("no_extension_unknown_file.zzzqqq"));
    let g = WalkFilter::new(&[], &["all".into()], &["rust".into()]).unwrap();
    assert!(!g.matches("a.rs"));
    assert!(g.matches("b.py"));
}

#[test]
fn appended_negations_only_narrow() {
    let keys = ["a.rs", "gen/a.rs", "b.js", "README.md", "src/x.py"];
    let wide = WalkFilter::new(&["*.rs".into(), "*.js".into()], &[], &["py".into()]).unwrap();
    let narrow = WalkFilter::new(
        &["*.rs".into(), "*.js".into(), "!gen/**".into()],
        &[],
        &["py".into(), "js".into()],
    )
    .unwrap();
    for k in keys {
        if narrow.matches(k) {
            assert!(wide.matches(k), "{k}");
        }
    }
    assert!(wide.matches("gen/a.rs") && !narrow.matches("gen/a.rs"));
    assert!(wide.matches("b.js") && !narrow.matches("b.js"));
}

#[test]
fn filtered_selection_is_selection_filtered() {
    let f = WalkFilter::new(&["!*.md".into()], &[], &[]).unwrap();
    let listed = strings(&["z.md", "b.rs", "dir/", "a.md", "c.txt"]);
    let with = select_keys(&listed, Some(&f));
    let without: Vec<String> =
        select_keys(&listed, None).into_iter().filter(|k| f.matches(k)).collect();
    assert_eq!(with, without);
    assert_eq!(with, strings(&["b.rs", "c.txt"]));
}

#[test]
fn filter_is_glob_part_and_type_part() {
    let globs: Vec<String> = vec!["src/**".into(), "!src/gen/**".into()];
    let types: Vec<String> = vec!["all".into()];
    let types_not: Vec<String> = vec!["py".into()];
    let both = WalkFilter::new(&globs, &types, &types_not).unwrap();
    let glob_part = WalkFilter::new(&globs, &[], &[]).unwrap();
    let type_part = WalkFilter::new(&[], &types, &types_not).unwrap();
    for k in ["src/a.rs", "src/gen/b.rs", "src/c.py", "lib/d.rs", "src/e.zzzqqq"] {
        assert_eq!(both.matches(k), glob_part.matches(k) && type_part.matches(k), "{k}");
    }
    assert!(both.matches("src/a.rs"));
    assert!(!both.matches("src/c.py"));
}

#[test]
fn negating_all_types_leaves_only_untyped_files() {
    let f = WalkFilter::new(&[], &[], &["all".into()]).unwrap();
    assert!(!f.matches("a.rs"));
    assert!(f.matches("notes.zzzqqq"));
}
