//! Compiled patterns: the calls into ripgrep's regex engine.

use grep::matcher::Matcher;
use grep::regex::{RegexMatcher, RegexMatcherBuilder};
use vstd::prelude::*;

verus! {

/// `grep::regex::RegexMatcher`, a compiled pattern.
#[verifier::external_type_specification]
#[verifier::external_body]
pub struct ExRegexMatcher(grep::regex::RegexMatcher);

/// `grep::regex::Error`, why a pattern does not compile.
#[verifier::external_type_specification]
#[verifier::external_body]
pub struct ExRegexError(grep::regex::Error);

/// How a pattern is compiled.
#[derive(Debug, Clone, Copy, PartialEq, Eq)]
pub struct PatternOptions {
    /// Letters match both cases.
    pub case_insensitive: bool,
    /// Matches occur on word boundaries only.
    pub word: bool,
    /// `^` and `$` match at every line.
    pub multi_line: bool,
    /// `.` matches newlines.
    pub dot_matches_new_line: bool,
}

/// The matches that `grep::matcher::Matcher::find_iter` reports for a compiled pattern in
/// `haystack`: the bounds of each, in the order of the calls.
pub uninterp spec fn matched_spans(matcher: RegexMatcher, haystack: Seq<u8>) -> Seq<(int, int)>;

/// `grep::regex::RegexMatcherBuilder::build` accepts the pattern with these settings.
pub uninterp spec fn pattern_compiles(
    pattern: Seq<char>,
    case_insensitive: bool,
    word: bool,
    multi_line: bool,
    dot_matches_new_line: bool,
) -> bool;

/// The error with which `grep::regex::RegexMatcherBuilder::build` refuses the pattern with these
/// settings.
pub uninterp spec fn pattern_error(
    pattern: Seq<char>,
    case_insensitive: bool,
    word: bool,
    multi_line: bool,
    dot_matches_new_line: bool,
) -> grep::regex::Error;

/// The matches in `haystack` of the matcher that `grep::regex::RegexMatcherBuilder::build` makes
/// of the pattern with these settings.
pub uninterp spec fn pattern_spans(
    pattern: Seq<char>,
    case_insensitive: bool,
    word: bool,
    multi_line: bool,
    dot_matches_new_line: bool,
    haystack: Seq<u8>,
) -> Seq<(int, int)>;

/// The pattern compiles with the options.
pub open spec fn compiles(pattern: Seq<char>, options: PatternOptions) -> bool {
    pattern_compiles(
        pattern,
        options.case_insensitive,
        options.word,
        options.multi_line,
        options.dot_matches_new_line,
    )
}

/// The error with which the pattern is refused with the options.
pub open spec fn refusal(pattern: Seq<char>, options: PatternOptions) -> grep::regex::Error {
    pattern_error(
        pattern,
        options.case_insensitive,
        options.word,
        options.multi_line,
        options.dot_matches_new_line,
    )
}

/// The matcher finds what the pattern, compiled with the options, finds.
pub open spec fn compiled_from(
    matcher: RegexMatcher,
    pattern: Seq<char>,
    options: PatternOptions,
) -> bool {
    forall|haystack: Seq<u8>| #[trigger]
        matched_spans(matcher, haystack) == pattern_spans(
            pattern,
            options.case_insensitive,
            options.word,
            options.multi_line,
            options.dot_matches_new_line,
            haystack,
        )
}

/// The spans lie in `len` bytes, one after the other, and no two start at the same place.
pub open spec fn spans_ordered(spans: Seq<(int, int)>, len: int) -> bool {
    &&& forall|i: int|
        #![trigger spans[i]]
        0 <= i < spans.len() ==> 0 <= spans[i].0 <= spans[i].1 <= len
    &&& forall|i: int, j: int|
        #![trigger spans[i], spans[j]]
        0 <= i < j < spans.len() ==> spans[i].1 <= spans[j].0 && spans[i].0 < spans[j].0
}

/// What the matcher finds is in order, whatever it searches.
pub open spec fn finds_in_order(matcher: RegexMatcher) -> bool {
    forall|haystack: Seq<u8>|
        spans_ordered(#[trigger] matched_spans(matcher, haystack), haystack.len() as int)
}

/// The views of a sequence of bounds.
pub open spec fn span_views(spans: Seq<(usize, usize)>) -> Seq<(int, int)> {
    spans.map_values(|s: (usize, usize)| (s.0 as int, s.1 as int))
}

/// `grep::regex::RegexMatcherBuilder::build`, after the setter for each of the options.
///
/// Claimed of it: whether it succeeds depends on the pattern and the settings alone, and so do its
/// error and the matches that the resulting matcher finds in any haystack.  These lie inside the haystack, do not
/// overlap, and no two start at the same place.
#[verifier::external_body]
pub(crate) fn compile(pattern: &str, options: PatternOptions) -> (r: Result<
    RegexMatcher,
    grep::regex::Error,
>)
    ensures
        r is Ok == pattern_compiles(
            pattern@,
            options.case_insensitive,
            options.word,
            options.multi_line,
            options.dot_matches_new_line,
        ),
        r matches Err(e) ==> e == pattern_error(
            pattern@,
            options.case_insensitive,
            options.word,
            options.multi_line,
            options.dot_matches_new_line,
        ),
        r matches Ok(matcher) ==> forall|haystack: Seq<u8>| #[trigger]
            matched_spans(matcher, haystack) == pattern_spans(
                pattern@,
                options.case_insensitive,
                options.word,
                options.multi_line,
                options.dot_matches_new_line,
                haystack,
            ),
        r matches Ok(matcher) ==> forall|haystack: Seq<u8>|
            spans_ordered(#[trigger] matched_spans(matcher, haystack), haystack.len() as int),
{
    RegexMatcherBuilder::new()
        .case_insensitive(options.case_insensitive)
        .word(options.word)
        .multi_line(options.multi_line)
        .dot_matches_new_line(options.dot_matches_new_line)
        .build(pattern)
}

/// `grep::matcher::Matcher::find_iter` of a `grep::regex::RegexMatcher`: the bounds of each match
/// it reports; only of the first one where `all` is false, since a closure that returns `false`
/// ends the iteration.
///
/// Claimed of it: the matches depend on the matcher and the haystack alone, lie inside the
/// haystack, do not overlap, and no two start at the same place.
#[verifier::external_body]
pub(crate) fn find_spans(matcher: &RegexMatcher, haystack: &[u8], all: bool) -> (r: Vec<
    (usize, usize),
>)
    ensures
        span_views(r@) == (if all || matched_spans(*matcher, haystack@).len() == 0 {
            matched_spans(*matcher, haystack@)
        } else {
            matched_spans(*matcher, haystack@).take(1)
        }),
        spans_ordered(span_views(r@), haystack@.len() as int),
{
    let mut spans: Vec<(usize, usize)> = Vec::new();
    let _ = matcher.find_iter(
        haystack,
        |m|
            {
                spans.push((m.start(), m.end()));
                all
            },
    );
    spans
}

} // verus!
