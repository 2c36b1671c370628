//! The decisions of a search run around the I/O that the program does: the
//! matcher it searches with, the reader each object is searched through, and
//! the tally that decides the exit status.
use vstd::prelude::*;

use crate::opendal_io::BufReader;
use crate::pattern_matcher::{regex_matcher_new, PatternMatcher};
use crate::pattern_matcher as compiled;

verus! {

/// The pattern handed to the regex engine: prefixed with `(?i)` for a
/// case-insensitive search.
pub open spec fn effective_pattern(pattern: Seq<char>, ignore_case: bool) -> Seq<char> {
    if ignore_case {
        "(?i)"@ + pattern
    } else {
        pattern
    }
}

/// A case-insensitive search hands the engine `(?i)` followed by the
/// pattern, whatever the pattern holds; a case-sensitive one hands it the
/// pattern unchanged.
pub proof fn law_case_insensitive_prefix(pattern: Seq<char>)
    ensures
        effective_pattern(pattern, true) == seq!['(', '?', 'i', ')'] + pattern,
        effective_pattern(pattern, false) == pattern,
        effective_pattern(pattern, true).len() == pattern.len() + 4,
        effective_pattern(pattern, true).skip(4) == pattern,
{
    reveal_strlit("(?i)");
    assert("(?i)"@ =~= seq!['(', '?', 'i', ')']);
    assert((seq!['(', '?', 'i', ')'] + pattern).skip(4) =~= pattern);
}

/// The context given to a pattern that does not compile.
pub open spec fn matcher_error_text(pattern: Seq<char>, ignore_case: bool) -> Seq<char> {
    if ignore_case {
        "invalid regex (case-insensitive): "@ + pattern
    } else {
        "invalid regex: "@ + pattern
    }
}

/// A pattern that does not compile.
#[derive(Debug)]
pub struct MatcherError {
    /// The pattern as given.
    pub pattern: String,
    /// Whether the search was case-insensitive.
    pub ignore_case: bool,
    /// What the regex engine reported.
    pub source: grep_regex::Error,
}

impl MatcherError {
    /// The context line for this error, naming the pattern.
    pub fn context(&self) -> (m: String)
        ensures
            m@ == matcher_error_text(self.pattern@, self.ignore_case),
    {
        let mut m = if self.ignore_case {
            String::from_str("invalid regex (case-insensitive): ")
        } else {
            String::from_str("invalid regex: ")
        };
        m.append(self.pattern.as_str());
        m
    }
}

/// The matcher for `pattern`, case-insensitive when asked: compiled from the
/// effective pattern, and refused exactly when that does not compile.
pub fn build_matcher(pattern: &str, ignore_case: bool) -> (r: Result<PatternMatcher, MatcherError>)
    ensures
        r is Ok <==> compiled::regex_compiles(effective_pattern(pattern@, ignore_case)),
        r matches Ok(m) ==> m.pattern() == effective_pattern(pattern@, ignore_case),
        r matches Err(e) ==> e.pattern@ == pattern@ && e.ignore_case == ignore_case,
        ignore_case ==> (r is Ok <==> compiled::regex_compiles(seq!['(', '?', 'i', ')'] + pattern@)),
        ignore_case ==> (r matches Ok(m) ==> m.pattern() == seq!['(', '?', 'i', ')'] + pattern@),
        !ignore_case ==> (r is Ok <==> compiled::regex_compiles(pattern@)),
        !ignore_case ==> (r matches Ok(m) ==> m.pattern() == pattern@),
{
    let compiled = if ignore_case {
        let mut p = String::from_str("(?i)");
        p.append(pattern);
        proof {
            law_case_insensitive_prefix(pattern@);
        }
        regex_matcher_new(p.as_str())
    } else {
        regex_matcher_new(pattern)
    };
    match compiled {
        Ok(m) => Ok(m),
        Err(source) => Err(MatcherError { pattern: pattern.to_owned(), ignore_case, source }),
    }
}

/// The reader an object's bytes are searched through.
pub fn make_reader(data: Vec<u8>) -> (r: BufReader)
    ensures
        r.data() == data@,
        r.position() == 0,
{
    BufReader::new(data)
}

/// Statistics of a run.
#[derive(Debug)]
pub struct RunStats {
    /// Matches found over all files.
    pub total_matches: u64,
    /// Objects read and searched.
    pub total_files: u64,
}

impl Default for RunStats {
    fn default() -> (s: Self)
        ensures
            s.total_matches == 0,
            s.total_files == 0,
    {
        RunStats { total_matches: 0, total_files: 0 }
    }
}

/// The state of a run: its statistics and whether any file matched.
#[derive(Debug)]
pub struct SearchRun {
    pub stats: RunStats,
    pub any_match: bool,
}

impl SearchRun {
    /// A run that has searched nothing.
    pub fn new() -> (r: Self)
        ensures
            r.stats.total_matches == 0,
            r.stats.total_files == 0,
            !r.any_match,
    {
        SearchRun { stats: RunStats::default(), any_match: false }
    }

    /// An object was read and is about to be searched.
    pub fn record_file(&mut self)
        requires
            old(self).stats.total_files < u64::MAX,
        ensures
            final(self).stats.total_files == old(self).stats.total_files + 1,
            final(self).stats.total_matches == old(self).stats.total_matches,
            final(self).any_match == old(self).any_match,
    {
        self.stats.total_files = self.stats.total_files + 1;
    }

    /// A searched object reported whether it matched and how many matches;
    /// the count is added only when it matched.
    pub fn record_search(&mut self, has_match: bool, match_count: u64)
        requires
            has_match ==> old(self).stats.total_matches + match_count <= u64::MAX,
        ensures
            final(self).stats.total_files == old(self).stats.total_files,
            final(self).any_match == (old(self).any_match || has_match),
            final(self).stats.total_matches == if has_match {
                old(self).stats.total_matches + match_count
            } else {
                old(self).stats.total_matches as int
            },
    {
        if has_match {
            self.any_match = true;
            self.stats.total_matches = self.stats.total_matches + match_count;
        }
    }

    /// The exit status of a run that finished without error: 0 when some file
    /// matched, 1 otherwise.
    pub fn exit_code(&self) -> (code: i32)
        ensures
            code == if self.any_match {
                0i32
            } else {
                1i32
            },
    {
        if self.any_match {
            0
        } else {
            1
        }
    }
}

/// A sink that only counts the matches it is shown.
#[derive(Debug)]
pub struct CountSink {
    pub count: u64,
}

impl CountSink {
    /// A sink that has counted nothing.
    pub fn new() -> (s: Self)
        ensures
            s.count == 0,
    {
        CountSink { count: 0 }
    }

    /// One more match; the search goes on.
    pub fn matched(&mut self) -> (go_on: bool)
        requires
            old(self).count < u64::MAX,
        ensures
            final(self).count == old(self).count + 1,
            go_on,
    {
        self.count = self.count + 1;
        true
    }
}

} // verus!
