use vstd::prelude::*;

verus! {

/// The command line of a search, as plain values.
#[derive(Debug)]
pub struct Cli {
    /// Pattern (regex).
    pub pattern: String,
    /// Target: either `s3://bucket/prefix` or a local path (served through
    /// OpenDAL's fs backend).
    pub target: String,
    /// Case-insensitive matching.
    pub ignore_case: bool,
    /// Glob filters applied to object keys; a leading `!` negates.
    pub globs: Vec<String>,
    /// Type aliases whose files are included.
    pub types: Vec<String>,
    /// Type aliases whose files are excluded.
    pub types_not: Vec<String>,
    /// Emit results as JSON lines.
    pub json: bool,
    /// Print statistics after searching.
    pub stats: bool,
    /// Lines of context after each match.
    pub after_context: Option<usize>,
    /// Lines of context before each match.
    pub before_context: Option<usize>,
    /// Lines of context before and after each match.
    pub context: Option<usize>,
    /// Read each object through the streaming reader.
    pub streaming: bool,
    /// When to use colors.
    pub color: ColorArg,
    /// Only count matching lines per file.
    pub count: bool,
    /// Only list files with at least one match.
    pub files_with_matches: bool,
    /// Match at word boundaries only.
    pub word_regexp: bool,
    /// Match whole lines only.
    pub line_regexp: bool,
    /// Stop searching a file after this many matches.
    pub max_count: Option<usize>,
    /// Print non-matching lines.
    pub invert_match: bool,
    /// Suppress line numbers.
    pub no_line_number: bool,
    /// Show the column of the first match.
    pub column: bool,
    /// Group matches under a per-file heading.
    pub heading: bool,
    /// Never print the file path prefix.
    pub no_filename: bool,
    /// Always print the file path prefix.
    pub with_filename: bool,
    /// NUL after each file path.
    pub null: bool,
    /// NUL as the line terminator.
    pub null_data: bool,
    /// Search binary-looking files as text.
    pub text: bool,
    /// Treat the pattern as a literal string.
    pub fixed_strings: bool,
}

/// When to color the standard printer's output.
#[derive(Clone, Copy, Debug, PartialEq, Eq, Structural)]
pub enum ColorArg {
    /// Use colors if stdout is a terminal.
    Auto,
    /// Always use colors.
    Always,
    /// Never use colors.
    Never,
}

impl Default for ColorArg {
    fn default() -> (c: Self)
        ensures
            c == ColorArg::Auto,
    {
        ColorArg::Auto
    }
}

/// The only scheme a target may have: `s3://`.
pub open spec fn s3_scheme() -> Seq<char> {
    seq!['s', '3', ':', '/', '/']
}

/// No character of `s` is a slash.
pub open spec fn slash_free(s: Seq<char>) -> bool {
    forall|k: int| 0 <= k < s.len() ==> s[k] != '/'
}

/// Index of the first slash in `s`, or `s.len()` when there is none.
pub open spec fn slash_index(s: Seq<char>) -> int
    decreases s.len(),
{
    if s.len() == 0 {
        0
    } else if s[0] == '/' {
        0
    } else {
        1 + slash_index(s.drop_first())
    }
}

/// `rest` cut at its first slash into bucket and prefix; with no slash, all of
/// it is the bucket and the prefix is empty.
pub open spec fn split_bucket(rest: Seq<char>) -> (Seq<char>, Seq<char>) {
    let i = slash_index(rest);
    if i < rest.len() {
        (rest.take(i), rest.skip(i + 1))
    } else {
        (rest, Seq::empty())
    }
}

/// Bucket and prefix named by a target, or `None` when it does not start
/// with `s3://`.
pub open spec fn target_parts(s: Seq<char>) -> Option<(Seq<char>, Seq<char>)> {
    if s.len() >= 5 && s.take(5) == s3_scheme() {
        Some(split_bucket(s.skip(5)))
    } else {
        None
    }
}

/// The path shown for an object: `s3://{bucket}/{key}`.
pub open spec fn object_url(bucket: Seq<char>, key: Seq<char>) -> Seq<char> {
    s3_scheme() + bucket + seq!['/'] + key
}

/// `s` holds `://` somewhere, as a URL of some scheme does.
pub open spec fn has_scheme_separator(s: Seq<char>) -> bool {
    exists|i: int| 0 <= i && i + 3 <= s.len() && #[trigger] s[i] == ':' && s[i + 1] == '/' && s[i + 2] == '/'
}

/// A local path: a non-empty target that is no URL.
pub open spec fn is_local_path(s: Seq<char>) -> bool {
    s.len() > 0 && !has_scheme_separator(s)
}

/// The path shown for object `key` under local directory `root`: the two
/// joined by one slash.
pub open spec fn local_object_path(root: Seq<char>, key: Seq<char>) -> Seq<char> {
    if root.len() > 0 && root.last() == '/' {
        root + key
    } else {
        root + seq!['/'] + key
    }
}

/// The text of the error for a target that is neither an `s3://` URL nor a
/// local path.
pub open spec fn target_error_text(target: Seq<char>) -> Seq<char> {
    "target must be of the form s3://bucket/prefix or a local path; got "@ + target
}

/// `slash_index` is the first slash, or the length when there is none.
pub proof fn lemma_slash_index(s: Seq<char>, j: int)
    requires
        0 <= j <= s.len(),
        slash_free(s.take(j)),
        j == s.len() || s[j] == '/',
    ensures
        slash_index(s) == j,
    decreases s.len(),
{
    if s.len() > 0 && j > 0 {
        assert(s[0] == s.take(j)[0]);
        assert(s.drop_first().take(j - 1) =~= s.take(j).drop_first());
        lemma_slash_index(s.drop_first(), j - 1);
    }
}

/// `slash_index` stays within `0..=len` and points at a slash, before which
/// there is none.
pub proof fn lemma_slash_index_bounds(s: Seq<char>)
    ensures
        0 <= slash_index(s) <= s.len(),
        slash_free(s.take(slash_index(s))),
        slash_index(s) < s.len() ==> s[slash_index(s)] == '/',
    decreases s.len(),
{
    if s.len() > 0 && s[0] != '/' {
        lemma_slash_index_bounds(s.drop_first());
        let i = slash_index(s.drop_first());
        let t = s.take(i + 1);
        assert forall|k: int| 0 <= k < t.len() implies #[trigger] t[k] != '/' by {
            if k > 0 {
                assert(t[k] == s.drop_first().take(i)[k - 1]);
            }
        }
    }
}

/// A target of the form `s3://`, then a bucket, then a slash, then a key,
/// parses back to that bucket and key whenever the bucket has no slash.
pub proof fn law_object_url_parses_back(bucket: Seq<char>, key: Seq<char>)
    requires
        slash_free(bucket),
    ensures
        target_parts(object_url(bucket, key)) == Some((bucket, key)),
{
    let s = object_url(bucket, key);
    assert(s.take(5) =~= s3_scheme());
    let rest = s.skip(5);
    assert(rest =~= bucket + seq!['/'] + key);
    assert(rest.take(bucket.len() as int) =~= bucket);
    lemma_slash_index(rest, bucket.len() as int);
    assert(rest.take(bucket.len() as int) =~= bucket);
    assert(rest.skip(bucket.len() + 1int) =~= key);
}

/// What a target parses to puts it back together: the bucket has no slash,
/// and the target is `s3://bucket/prefix`, or `s3://bucket` when no slash
/// follows the bucket (then the prefix is empty).
pub proof fn law_target_parts_reassemble(s: Seq<char>)
    requires
        target_parts(s) is Some,
    ensures
        slash_free(target_parts(s).unwrap().0),
        s == object_url(target_parts(s).unwrap().0, target_parts(s).unwrap().1) || (
        target_parts(s).unwrap().1.len() == 0 && s == s3_scheme() + target_parts(s).unwrap().0),
{
    let rest = s.skip(5);
    lemma_slash_index_bounds(rest);
    let i = slash_index(rest);
    assert(s =~= s.take(5) + rest);
    if i < rest.len() {
        assert(rest =~= rest.take(i) + seq!['/'] + rest.skip(i + 1));
    } else {
        assert(rest.take(i) =~= rest);
    }
}

/// Every target that starts with `s3://` names a bucket and a prefix,
/// whatever follows the scheme: the bucket is what precedes the first slash
/// after the scheme (all of the rest when there is none), and the prefix is
/// what follows that slash.
pub proof fn law_every_s3_target_parses(s: Seq<char>)
    requires
        s.len() >= 5,
        s[0] == 's' && s[1] == '3' && s[2] == ':' && s[3] == '/' && s[4] == '/',
    ensures
        target_parts(s) is Some,
        forall|k: int| 0 <= k < target_parts(s).unwrap().0.len() ==> #[trigger] target_parts(s).unwrap().0[k] != '/',
        s == seq!['s', '3', ':', '/', '/'] + target_parts(s).unwrap().0 + seq!['/'] + target_parts(s).unwrap().1
            || (target_parts(s).unwrap().1.len() == 0 && s == seq!['s', '3', ':', '/', '/'] + target_parts(
            s,
        ).unwrap().0),
{
    assert(s.take(5) =~= s3_scheme());
    law_target_parts_reassemble(s);
}

/// A bucket-only target `s3://bucket` names that whole bucket, with an empty
/// prefix, whatever characters the bucket has besides slashes.
pub proof fn law_bucket_only_target(bucket: Seq<char>)
    requires
        forall|k: int| 0 <= k < bucket.len() ==> #[trigger] bucket[k] != '/',
    ensures
        target_parts(seq!['s', '3', ':', '/', '/'] + bucket) == Some((bucket, Seq::<char>::empty())),
{
    let s = seq!['s', '3', ':', '/', '/'] + bucket;
    assert(s.take(5) =~= s3_scheme());
    assert(s.skip(5) =~= bucket);
    assert(bucket.take(bucket.len() as int) =~= bucket);
    lemma_slash_index(bucket, bucket.len() as int);
}

/// The path shown for a local object is the root, then the key, with
/// exactly one slash between them: the root's own trailing slash, or one
/// added when it has none.
pub proof fn law_local_path_joins_with_one_slash(root: Seq<char>, key: Seq<char>)
    requires
        root.len() > 0,
    ensures
        local_object_path(root, key).take(root.len() as int) == root,
        local_object_path(root, key).skip(local_object_path(root, key).len() - key.len()) == key,
        local_object_path(root, key)[local_object_path(root, key).len() - key.len() - 1] == '/',
        local_object_path(root, key).len() == if root.last() == '/' {
            root.len() + key.len()
        } else {
            root.len() + key.len() + 1
        },
{
    let p = local_object_path(root, key);
    if root.last() == '/' {
        assert(p.take(root.len() as int) =~= root);
        assert(p.skip(p.len() - key.len()) =~= key);
        assert(p[root.len() - 1] == root[root.len() - 1]);
    } else {
        assert(p.take(root.len() as int) =~= root);
        assert(p.skip(p.len() - key.len()) =~= key);
    }
}

/// Where a search looks: a bucket and a key prefix in it, or a local
/// directory.
pub enum Target<'a> {
    S3 { bucket: &'a str, prefix: &'a str },
    Local { path: &'a str },
}

/// A target that is neither an `s3://` URL nor a local path.
#[derive(Debug)]
pub struct TargetError {
    /// The target as given.
    pub target: String,
}

impl TargetError {
    /// The error's text, naming the target that was given.
    pub fn message(&self) -> (m: String)
        ensures
            m@ == target_error_text(self.target@),
    {
        let mut m = String::from_str(
            "target must be of the form s3://bucket/prefix or a local path; got ",
        );
        m.append(self.target.as_str());
        m
    }
}

/// Index of the first slash at or after `from` in `s`, or the length of `s`.
fn slash_from(s: &str, from: usize, len: usize) -> (i: usize)
    requires
        len == s@.len(),
        from <= len,
    ensures
        from <= i <= len,
        i == from + slash_index(s@.skip(from as int)),
{
    let mut i = from;
    while i < len && s.get_char(i) != '/'
        invariant
            from <= i <= len,
            len == s@.len(),
            forall|k: int| from <= k < i ==> s@[k] != '/',
        decreases len - i,
    {
        i = i + 1;
    }
    proof {
        let t = s@.skip(from as int);
        let u = t.take(i - from);
        assert forall|k: int| 0 <= k < u.len() implies #[trigger] u[k] != '/' by {
            assert(u[k] == s@[from + k]);
        }
        lemma_slash_index(t, i - from);
    }
    i
}

/// Whether `s` holds `://`.
fn scheme_separator_in(s: &str, len: usize) -> (r: bool)
    requires
        len == s@.len(),
    ensures
        r == has_scheme_separator(s@),
{
    if len < 3 {
        return false;
    }
    let mut i: usize = 0;
    while i <= len - 3
        invariant
            3 <= len,
            len == s@.len(),
            forall|j: int|
                0 <= j < i && j + 3 <= s@.len() ==> !(#[trigger] s@[j] == ':' && s@[j + 1] == '/'
                    && s@[j + 2] == '/'),
        decreases len - i,
    {
        if s.get_char(i) == ':' && s.get_char(i + 1) == '/' && s.get_char(i + 2) == '/' {
            return true;
        }
        i = i + 1;
    }
    false
}

impl<'a> Target<'a> {
    /// Parses a target. `s3://bucket/prefix` names a bucket, running up to
    /// the first slash after the scheme, and a prefix, everything after that
    /// slash (empty when there is no slash). Any other non-empty target
    /// without `://` is a local path. The rest is refused.
    pub fn parse(s: &'a str) -> (r: Result<Self, TargetError>)
        ensures
            match r {
                Ok(Target::S3 { bucket, prefix }) => target_parts(s@) == Some((bucket@, prefix@)),
                Ok(Target::Local { path }) => target_parts(s@) is None && is_local_path(s@) && path@
                    == s@,
                Err(e) => target_parts(s@) is None && !is_local_path(s@) && e.target@ == s@,
            },
            s@.len() >= 5 && s@[0] == 's' && s@[1] == '3' && s@[2] == ':' && s@[3] == '/' && s@[4]
                == '/' ==> r matches Ok(Target::S3 { .. }),
            (s@.len() > 0 && forall|i: int|
                0 <= i && i + 3 <= s@.len() ==> !(#[trigger] s@[i] == ':' && s@[i + 1] == '/' && s@[i + 2]
                    == '/')) ==> (r matches Ok(Target::Local { path }) && path@ == s@),
            (s@.len() == 0 || exists|i: int|
                0 <= i && i + 3 <= s@.len() && #[trigger] s@[i] == ':' && s@[i + 1] == '/' && s@[i + 2]
                    == '/') && !(s@.len() >= 5 && s@[0] == 's' && s@[1] == '3' && s@[2] == ':' && s@[3]
                == '/' && s@[4] == '/') ==> r is Err,
    {
        let len = s.unicode_len();
        if len >= 5 && s.get_char(0) == 's' && s.get_char(1) == '3' && s.get_char(2) == ':'
            && s.get_char(3) == '/' && s.get_char(4) == '/' {
            assert(s@.take(5) =~= s3_scheme());
            let i = slash_from(s, 5, len);
            let bucket = s.substring_char(5, i);
            let prefix = if i < len {
                s.substring_char(i + 1, len)
            } else {
                s.substring_char(len, len)
            };
            proof {
                let rest = s@.skip(5);
                assert(bucket@ =~= rest.take(i - 5));
                if i < len {
                    assert(prefix@ =~= rest.skip(i - 5 + 1));
                } else {
                    assert(bucket@ =~= rest);
                    assert(prefix@ =~= Seq::<char>::empty());
                }
            }
            Ok(Target::S3 { bucket, prefix })
        } else {
            proof {
                if s@.len() >= 5 && s@.take(5) == s3_scheme() {
                    assert(s@[0] == s@.take(5)[0]);
                    assert(s@[1] == s@.take(5)[1]);
                    assert(s@[2] == s@.take(5)[2]);
                    assert(s@[3] == s@.take(5)[3]);
                    assert(s@[4] == s@.take(5)[4]);
                }
            }
            if len > 0 && !scheme_separator_in(s, len) {
                Ok(Target::Local { path: s })
            } else {
                Err(TargetError { target: s.to_owned() })
            }
        }
    }
}

/// The path shown for object `key` under local directory `root`.
pub fn local_display_path(root: &str, key: &str) -> (p: String)
    ensures
        p@ == local_object_path(root@, key@),
{
    let len = root.unicode_len();
    let mut p = String::from_str(root);
    if !(len > 0 && root.get_char(len - 1) == '/') {
        p.append("/");
        proof {
            reveal_strlit("/");
        }
    }
    p.append(key);
    p
}

/// The path shown for object `key` of `bucket`: `s3://{bucket}/{key}`.
pub fn display_path(bucket: &str, key: &str) -> (p: String)
    ensures
        p@ == object_url(bucket@, key@),
{
    let mut p = String::from_str("s3://");
    p.append(bucket);
    p.append("/");
    p.append(key);
    proof {
        reveal_strlit("s3://");
        reveal_strlit("/");
        assert(p@ =~= object_url(bucket@, key@));
    }
    p
}

} // verus!
