//! A regex matcher kept together with the pattern it was compiled from. The
//! fields are private to this module, so the one way to get a
//! `PatternMatcher` is to compile a pattern.
use grep_regex::RegexMatcher;
use vstd::prelude::*;

verus! {

/// `grep_regex::RegexMatcher`.
#[verifier::external_type_specification]
#[verifier::external_body]
pub struct RegexMatcherDecl(RegexMatcher);

/// `grep_regex::Error`.
#[verifier::external_type_specification]
#[verifier::external_body]
pub struct RegexErrorDecl(grep_regex::Error);

/// Whether `RegexMatcher::new` accepts this pattern.
pub uninterp spec fn regex_compiles(pattern: Seq<char>) -> bool;

/// A regex matcher together with the pattern it was compiled from.
#[derive(Debug)]
pub struct PatternMatcher {
    matcher: RegexMatcher,
    pattern: String,
}

impl PatternMatcher {
    /// The pattern the matcher was compiled from.
    pub closed spec fn pattern(&self) -> Seq<char> {
        self.pattern@
    }

    /// The compiled matcher, for the searcher.
    pub fn regex(&self) -> &RegexMatcher {
        &self.matcher
    }

    /// The pattern the matcher was compiled from.
    pub fn pattern_str(&self) -> (p: &str)
        ensures
            p@ == self.pattern(),
    {
        self.pattern.as_str()
    }
}

/// `RegexMatcher::new(pattern)`: succeeds exactly when the pattern compiles
/// under the default configuration; the matcher is kept with its pattern.
#[verifier::external_body]
pub(crate) fn regex_matcher_new(pattern: &str) -> (r: Result<PatternMatcher, grep_regex::Error>)
    ensures
        r is Ok <==> regex_compiles(pattern@),
        r matches Ok(m) ==> m.pattern() == pattern@,
{
    match RegexMatcher::new(pattern) {
        Ok(matcher) => Ok(PatternMatcher { matcher, pattern: pattern.to_string() }),
        Err(e) => Err(e),
    }
}

} // verus!
