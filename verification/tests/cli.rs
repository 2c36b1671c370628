use rg_opendal::cli::{display_path, local_display_path, ColorArg, Target};

fn parts(s: &str) -> Option<(String, String)> {
    match Target::parse(s) {
        Ok(Target::S3 { bucket, prefix }) => Some((bucket.to_string(), prefix.to_string())),
        _ => None,
    }
}

fn local(s: &str) -> Option<String> {
    match Target::parse(s) {
        Ok(Target::Local { path }) => Some(path.to_string()),
        _ => None,
    }
}

#[test]
fn parses_bucket_and_prefix() {
    assert_eq!(parts("s3://my-bucket/data/logs/"), Some(("my-bucket".into(), "data/logs/".into())));
}

#[test]
fn parses_bucket_without_slash() {
    assert_eq!(parts("s3://my-bucket"), Some(("my-bucket".into(), "".into())));
}

#[test]
fn parses_bucket_with_trailing_slash() {
    assert_eq!(parts("s3://my-bucket/"), Some(("my-bucket".into(), "".into())));
}

#[test]
fn parses_empty_bucket() {
    assert_eq!(parts("s3://"), Some(("".into(), "".into())));
    assert_eq!(parts("s3:///key"), Some(("".into(), "key".into())));
}

#[test]
fn parses_non_ascii_keys() {
    assert_eq!(parts("s3://bücket/ü/é.txt"), Some(("bücket".into(), "ü/é.txt".into())));
}

#[test]
fn refuses_other_schemes() {
    assert!(Target::parse("gs://bucket/x").is_err());
    assert!(Target::parse("S3://bucket/x").is_err());
    assert!(Target::parse("dir/s3://x").is_err());
    assert!(Target::parse("").is_err());
}

#[test]
fn accepts_local_paths() {
    assert_eq!(local("/tmp/data"), Some("/tmp/data".into()));
    assert_eq!(local("relative/dir"), Some("relative/dir".into()));
    assert_eq!(local("s3:/bucket"), Some("s3:/bucket".into()));
    assert_eq!(local("."), Some(".".into()));
    assert_eq!(local("s3://bucket"), None);
}

#[test]
fn target_error_message_names_target() {
    match Target::parse("file:///tmp") {
        Err(e) => {
            assert_eq!(e.target, "file:///tmp");
            assert_eq!(
                e.message(),
                "target must be of the form s3://bucket/prefix or a local path; got file:///tmp"
            );
        }
        Ok(_) => panic!("expected an error"),
    }
}

#[test]
fn local_display_path_joins_with_one_slash() {
    assert_eq!(local_display_path("/tmp/data", "a/b.rs"), "/tmp/data/a/b.rs");
    assert_eq!(local_display_path("/tmp/data/", "a/b.rs"), "/tmp/data/a/b.rs");
    assert_eq!(local_display_path("", "b.rs"), "/b.rs");
}

#[test]
fn display_path_joins_bucket_and_key() {
    assert_eq!(display_path("rg-test", "harness/a.rs"), "s3://rg-test/harness/a.rs");
    assert_eq!(display_path("b", ""), "s3://b/");
}

#[test]
fn display_path_parses_back() {
    let p = display_path("bucket", "deep/nested/key.txt");
    assert_eq!(parts(&p), Some(("bucket".into(), "deep/nested/key.txt".into())));
}

#[test]
fn color_defaults_to_auto() {
    assert_eq!(ColorArg::default(), ColorArg::Auto);
}
