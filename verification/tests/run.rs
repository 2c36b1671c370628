use grep_matcher::Matcher;
use rg_opendal::run::{build_matcher, CountSink, RunStats, SearchRun};

#[test]
fn matcher_builds_for_valid_patterns() {
    assert!(build_matcher("needle", false).is_ok());
    assert!(build_matcher("foo|bar", true).is_ok());
}

#[test]
fn matcher_refuses_invalid_pattern() {
    let e = build_matcher("a(b", false).unwrap_err();
    assert_eq!(e.pattern, "a(b");
    assert!(!e.ignore_case);
    assert_eq!(e.context(), "invalid regex: a(b");
}

#[test]
fn case_insensitive_prefix_reaches_the_engine() {
    let e = build_matcher("a(", true).unwrap_err();
    assert!(e.ignore_case);
    assert_eq!(e.pattern, "a(");
    assert_eq!(e.context(), "invalid regex (case-insensitive): a(");
}

#[test]
fn case_insensitive_matcher_matches_other_case() {

    let m = build_matcher("foo", true).unwrap();
    assert_eq!(m.pattern_str(), "(?i)foo");
    assert!(m.regex().is_match(b"FOO").unwrap());
    assert!(m.regex().is_match(b"Foo").unwrap());
    let m = build_matcher("foo", false).unwrap();
    assert_eq!(m.pattern_str(), "foo");
    assert!(!m.regex().is_match(b"FOO").unwrap());
    assert!(m.regex().is_match(b"foo").unwrap());
}

#[test]
fn run_without_matches_exits_one() {
    let mut run = SearchRun::new();
    assert_eq!(run.exit_code(), 1);
    run.record_file();
    run.record_search(false, 0);
    assert_eq!(run.stats.total_files, 1);
    assert_eq!(run.stats.total_matches, 0);
    assert_eq!(run.exit_code(), 1);
}

#[test]
fn run_with_a_match_exits_zero() {
    let mut run = SearchRun::new();
    run.record_file();
    run.record_search(true, 3);
    run.record_file();
    run.record_search(false, 7);
    run.record_file();
    run.record_search(true, 2);
    assert_eq!(run.stats.total_files, 3);
    assert_eq!(run.stats.total_matches, 5);
    assert!(run.any_match);
    assert_eq!(run.exit_code(), 0);
}

#[test]
fn stats_start_at_zero() {
    let s = RunStats::default();
    assert_eq!(s.total_matches, 0);
    assert_eq!(s.total_files, 0);
}

#[test]
fn count_sink_counts_matches() {
    let mut s = CountSink::new();
    assert_eq!(s.count, 0);
    assert!(s.matched());
    assert!(s.matched());
    assert_eq!(s.count, 2);
}
