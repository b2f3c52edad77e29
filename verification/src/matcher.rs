//! Line matching: a literal substring filter that takes precedence, else a
//! regular-expression filter, else no match.

use vstd::prelude::*;
use crate::c_type::{FilterError, opt_str_view};
use crate::text::{contains_seq, contains_substr};

verus! {

/// Whether `pattern` is a valid regular expression; names the success of
/// `regex::Regex::new`, which depends on the pattern alone.
pub uninterp spec fn valid_regex(pattern: Seq<char>) -> bool;

/// Whether the regular expression `pattern` matches anywhere in `line`;
/// names the result of `regex::Regex::is_match`, which depends on the
/// pattern and the haystack alone.
pub uninterp spec fn regex_match(pattern: Seq<char>, line: Seq<char>) -> bool;

/// Relies on `regex::Regex::new`: it returns `Ok` or `Err` as a function of
/// the pattern alone.
#[verifier::external_body]
pub(crate) fn regex_pattern_valid(pattern: &str) -> (r: bool)
    ensures
        r == valid_regex(pattern@),
{
    regex::Regex::new(pattern).is_ok()
}

/// Relies on `regex::Regex::new` (deterministic in the pattern, and `Ok` on a
/// valid one) and `regex::Regex::is_match` (a function of the compiled
/// pattern and the haystack).
#[verifier::external_body]
pub(crate) fn regex_matches_line(pattern: &str, line: &str) -> (r: bool)
    requires
        valid_regex(pattern@),
    ensures
        r == regex_match(pattern@, line@),
{
    regex::Regex::new(pattern).unwrap().is_match(line)
}

/// The matching policy: a configured literal filter decides by substring
/// containment; only with no literal configured does a configured regex
/// decide; with neither configured nothing matches.
pub open spec fn spec_matches(
    line: Seq<char>,
    filter: Option<Seq<char>>,
    pattern: Option<Seq<char>>,
) -> bool {
    match filter {
        Some(f) => contains_seq(line, f),
        None => match pattern {
            Some(p) => regex_match(p, line),
            None => false,
        },
    }
}

/// A line matches exactly when it contains the configured literal as a
/// substring, or, with no literal configured, when the configured regex
/// matches it; the literal takes precedence whenever it is configured.
pub proof fn lemma_matches_policy(
    line: Seq<char>,
    filter: Option<Seq<char>>,
    pattern: Option<Seq<char>>,
)
    ensures
        spec_matches(line, filter, pattern) <==> ((filter matches Some(f) && contains_seq(line, f))
            || (filter is None && (pattern matches Some(p) && regex_match(p, line)))),
{
}

/// The filter criterion of one run: an optional literal and an optional,
/// already validated, regex pattern.
pub struct Matcher {
    pub filter: Option<String>,
    pub pattern: Option<String>,
}

impl Matcher {
    /// A configured regex pattern is one that compiles.
    pub open spec fn wf(self) -> bool {
        self.pattern matches Some(p) ==> valid_regex(p@)
    }

    pub open spec fn filter_view(self) -> Option<Seq<char>> {
        opt_str_view(self.filter)
    }

    pub open spec fn pattern_view(self) -> Option<Seq<char>> {
        opt_str_view(self.pattern)
    }

    /// Builds the matcher, rejecting an invalid regex pattern before any
    /// line is processed.
    pub fn new(filter: Option<String>, pattern: Option<String>) -> (r: Result<Matcher, FilterError>)
        ensures
            (r is Err) == (pattern matches Some(p) && !valid_regex(p@)),
            r matches Err(e) ==> e == FilterError::InvalidRegex,
            r matches Ok(m) ==> m.wf() && m.filter_view() == opt_str_view(filter)
                && m.pattern_view() == opt_str_view(pattern),
    {
        match &pattern {
            Some(p) => {
                if !regex_pattern_valid(p.as_str()) {
                    return Err(FilterError::InvalidRegex);
                }
            },
            None => {},
        }
        Ok(Matcher { filter, pattern })
    }

    /// Whether a line satisfies the filter criterion.
    pub fn matches(&self, line: &str) -> (r: bool)
        requires
            self.wf(),
        ensures
            r == spec_matches(line@, self.filter_view(), self.pattern_view()),
    {
        match &self.filter {
            Some(f) => contains_substr(line, f.as_str()),
            None => match &self.pattern {
                Some(p) => regex_matches_line(p.as_str(), line),
                None => false,
            },
        }
    }
}

} // verus!
