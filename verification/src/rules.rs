//! Rules: scope filters, chain conditions, and their compilation from a configuration.
//!
//! A rule fires when its trigger pattern matches in a scope body that its filter selects, and
//! every entry of its chain is satisfied too.

use crate::pattern;
use crate::pattern::{compile, PatternOptions};
use crate::scope;
use crate::text;
use crate::text::{split_on, str_eq};
use grep::regex::RegexMatcher;
use vstd::prelude::*;

verus! {

// ---------------------------------------------------------------------------
// Severity
// ---------------------------------------------------------------------------

/// How serious a finding is.
#[derive(Debug, Clone, Copy, PartialEq, Eq, Structural)]
pub enum Severity {
    Error,
    Warning,
    Info,
}

impl Severity {
    /// The text that [`Severity::as_str`] gives.
    pub open spec fn text(self) -> Seq<char> {
        match self {
            Severity::Error => "error"@,
            Severity::Warning => "warning"@,
            Severity::Info => "info"@,
        }
    }

    /// Lower-case name of the severity, as it is written in rule files and reports.
    pub fn as_str(&self) -> (r: &'static str)
        ensures
            r@ == self.text(),
            *self == Severity::Error ==> r@ == "error"@,
            *self == Severity::Warning ==> r@ == "warning"@,
            *self == Severity::Info ==> r@ == "info"@,
    {
        match self {
            Severity::Error => "error",
            Severity::Warning => "warning",
            Severity::Info => "info",
        }
    }
}

/// The severity of a rule that names none.
pub fn default_severity() -> (r: Severity)
    ensures
        r == Severity::Warning,
{
    Severity::Warning
}

// ---------------------------------------------------------------------------
// Scope filter
// ---------------------------------------------------------------------------

/// One segment of a scope filter.
#[derive(Debug)]
pub enum FilterSegment {
    /// This name
    Exact(String),
    /// `*`: exactly one path level, whatever its name
    Any,
    /// `**`: any number of path levels
    AnyDepth,
}

/// Mathematical counterpart of [`FilterSegment`].
pub enum SegmentView {
    Exact(Seq<char>),
    Any,
    AnyDepth,
}

impl View for FilterSegment {
    type V = SegmentView;

    open spec fn view(&self) -> SegmentView {
        match self {
            FilterSegment::Exact(s) => SegmentView::Exact(s@),
            FilterSegment::Any => SegmentView::Any,
            FilterSegment::AnyDepth => SegmentView::AnyDepth,
        }
    }
}

impl Clone for FilterSegment {
    fn clone(&self) -> (r: Self)
        ensures
            r@ == self@,
    {
        match self {
            FilterSegment::Exact(s) => FilterSegment::Exact(s.clone()),
            FilterSegment::Any => FilterSegment::Any,
            FilterSegment::AnyDepth => FilterSegment::AnyDepth,
        }
    }
}

/// A `::` separated filter on scope paths.
#[derive(Debug)]
pub struct ScopeFilter {
    segments: Vec<FilterSegment>,
}

impl View for ScopeFilter {
    type V = Seq<SegmentView>;

    closed spec fn view(&self) -> Seq<SegmentView> {
        segment_views(self.segments@)
    }
}

/// The views of a sequence of segments.
pub open spec fn segment_views(segments: Seq<FilterSegment>) -> Seq<SegmentView> {
    segments.map_values(|s: FilterSegment| s@)
}

/// What one piece of a filter text stands for.
pub open spec fn segment_of(piece: Seq<char>) -> SegmentView {
    if piece == "**"@ {
        SegmentView::AnyDepth
    } else if piece == "*"@ {
        SegmentView::Any
    } else {
        SegmentView::Exact(piece)
    }
}

/// The segments of a filter text.
pub open spec fn filter_of(s: Seq<char>) -> Seq<SegmentView> {
    text::pieces(s, "::"@).map_values(|p: Seq<char>| segment_of(p))
}

/// The path satisfies the filter: each segment stands for one level of the path, or, for `**`,
/// for some number of levels.
pub open spec fn filter_matches(filter: Seq<SegmentView>, path: Seq<Seq<char>>) -> bool
    decreases filter.len(),
{
    if filter.len() == 0 {
        path.len() == 0
    } else {
        let rest = filter.skip(1);
        match filter[0] {
            SegmentView::AnyDepth => exists|i: int|
                0 <= i <= path.len() && filter_matches(rest, #[trigger] path.skip(i)),
            SegmentView::Any => path.len() > 0 && filter_matches(rest, path.skip(1)),
            SegmentView::Exact(name) => path.len() > 0 && path[0] == name && filter_matches(
                rest,
                path.skip(1),
            ),
        }
    }
}

impl Clone for ScopeFilter {
    fn clone(&self) -> (r: Self)
        ensures
            r@ == self@,
    {
        let mut segments: Vec<FilterSegment> = Vec::new();
        let mut i: usize = 0;
        while i < self.segments.len()
            invariant
                i <= self.segments@.len(),
                segment_views(segments@) == segment_views(self.segments@).take(i as int),
            decreases self.segments@.len() - i,
        {
            let ghost before = segments@;
            let segment = self.segments[i].clone();
            segments.push(segment);
            assert(segment_views(segments@) =~= segment_views(before).push(segment@));
            assert(segment_views(segments@) =~= segment_views(self.segments@).take(i + 1));
            i = i + 1;
        }
        assert(segment_views(segments@) =~= segment_views(self.segments@));
        ScopeFilter { segments }
    }
}

impl ScopeFilter {
    /// Parse a `::` separated filter text.  `**` stands for any number of path levels, `*` for
    /// exactly one, and anything else for itself.
    pub fn parse(s: &str) -> (r: Self)
        ensures
            r@ == filter_of(s@),
    {
        proof {
            reveal_strlit("::");
        }
        let names = split_on(s, "::");
        let ghost views = text::string_views(names@);
        let mut segments: Vec<FilterSegment> = Vec::new();
        let mut i: usize = 0;
        while i < names.len()
            invariant
                views == text::string_views(names@),
                i <= names@.len(),
                segments@.len() == i,
                forall|j: int|
                    0 <= j < i ==> (#[trigger] segments@[j])@ == segment_of(views[j]),
            decreases names@.len() - i,
        {
            let name = names[i].as_str();
            if str_eq(name, "**") {
                segments.push(FilterSegment::AnyDepth);
            } else if str_eq(name, "*") {
                segments.push(FilterSegment::Any);
            } else {
                segments.push(FilterSegment::Exact(name.to_owned()));
            }
            i = i + 1;
        }
        assert(segment_views(segments@) =~= filter_of(s@));
        ScopeFilter { segments }
    }

    /// Test whether a scope path, outermost name first, satisfies this filter.
    pub fn matches(&self, path: &[&str]) -> (r: bool)
        ensures
            r == filter_matches(self@, scope::str_views(path@)),
    {
        assert(self@.skip(0) =~= self@);
        assert(scope::str_views(path@).skip(0) =~= scope::str_views(path@));
        match_segs(&self.segments, 0, path, 0)
    }
}

/// The segments from `f` on match the path from `p` on.
fn match_segs(filter: &Vec<FilterSegment>, f: usize, path: &[&str], p: usize) -> (r: bool)
    requires
        f <= filter@.len(),
        p <= path@.len(),
    ensures
        r == filter_matches(
            segment_views(filter@).skip(f as int),
            scope::str_views(path@).skip(p as int),
        ),
    decreases filter@.len() - f,
{
    let ghost segs = segment_views(filter@).skip(f as int);
    let ghost names = scope::str_views(path@).skip(p as int);
    if f == filter.len() {
        return p == path.len();
    }
    assert(segs.skip(1) =~= segment_views(filter@).skip(f + 1));
    match &filter[f] {
        FilterSegment::AnyDepth => {
            let mut i: usize = p;
            let n: usize = path.len();
            let next: usize = f + 1;
            loop
                invariant
                    next == f + 1 <= filter@.len(),
                    segs.len() > 0,
                    p <= i <= path@.len() == n,
                    segs == segment_views(filter@).skip(f as int),
                    names == scope::str_views(path@).skip(p as int),
                    segs.skip(1) == segment_views(filter@).skip(f + 1),
                    segs[0] == SegmentView::AnyDepth,
                    forall|k: int|
                        0 <= k < i - p ==> !filter_matches(segs.skip(1), #[trigger] names.skip(k)),
                decreases n - i,
            {
                assert(names.skip(i - p) =~= scope::str_views(path@).skip(i as int));
                if match_segs(filter, next, path, i) {
                    assert(filter_matches(segs.skip(1), names.skip(i - p)));
                    return true;
                }
                if i == n {
                    return false;
                }
                i = i + 1;
            }
        },
        FilterSegment::Any => {
            if p == path.len() {
                return false;
            }
            assert(names.skip(1) =~= scope::str_views(path@).skip(p + 1));
            match_segs(filter, f + 1, path, p + 1)
        },
        FilterSegment::Exact(s) => {
            if p == path.len() {
                return false;
            }
            assert(names[0] == path@[p as int]@);
            if !str_eq(path[p], s.as_str()) {
                return false;
            }
            assert(names.skip(1) =~= scope::str_views(path@).skip(p + 1));
            match_segs(filter, f + 1, path, p + 1)
        },
    }
}

// ---------------------------------------------------------------------------
// Search target and chain
// ---------------------------------------------------------------------------

/// Which bytes of a scope body are searched.
#[derive(Debug, Clone, Copy, PartialEq, Eq, Structural)]
pub enum SearchTarget {
    /// The entire body
    All,
    /// Only the comments
    Comments,
    /// Neither comments nor string literals
    Code,
}

impl Default for SearchTarget {
    fn default() -> (r: Self)
        ensures
            r == SearchTarget::Code,
    {
        SearchTarget::Code
    }
}

/// Where a chained pattern is searched, relative to the trigger match.
#[derive(Debug, Clone, Copy, PartialEq, Eq, Structural)]
pub enum ChainRelationship {
    /// From the end of the trigger to the end of the scope body.
    After,
    /// From the start of the scope body to the start of the trigger.
    Before,
    /// The body of the nearest enclosing function, or the scope body if there is none.
    AnywhereInMethod,
    /// The body of the nearest enclosing class or struct.
    AnywhereInClass,
    /// The body of the nearest enclosing namespace.
    AnywhereInNamespace,
    /// The statement around the trigger, bounded by `;`, `{` and `}` in code.
    AnywhereInStatement,
}

/// A compiled pattern that must be present, or absent, for the rule to fire.
pub struct ChainedPattern {
    pub matcher: RegexMatcher,
    pub relationship: ChainRelationship,
    /// The condition holds when the pattern is absent.
    pub negate: bool,
    /// Restricts the search to this many lines on either side of the trigger.
    pub within_lines: Option<usize>,
}

// ---------------------------------------------------------------------------
// Rule
// ---------------------------------------------------------------------------

/// A fully compiled rule.
pub struct Rule {
    pub name: String,
    /// The trigger pattern.
    pub matcher: RegexMatcher,
    /// Which scopes are searched; `None` for every named scope.
    pub scope_filter: Option<ScopeFilter>,
    pub message: String,
    pub severity: Severity,
    /// Which bytes of a scope body are searched.
    pub search_target: SearchTarget,
    /// Conditions that must all hold for the rule to fire.
    pub chain: Vec<ChainedPattern>,
}

// ---------------------------------------------------------------------------
// Configuration
// ---------------------------------------------------------------------------

/// A rule as it is written in a rule file.
#[derive(Debug)]
pub struct RuleConfig {
    pub name: String,
    pub pattern: String,
    pub scope: Option<String>,
    pub message: String,
    pub severity: Severity,
    pub case_insensitive: bool,
    pub word: bool,
    pub multiline: bool,
    pub search: SearchTarget,
    pub chain: Vec<ChainConfig>,
}

/// A chain entry as it is written in a rule file.
#[derive(Debug)]
pub struct ChainConfig {
    pub pattern: String,
    pub relationship: ChainRelationship,
    pub case_insensitive: bool,
    pub word: bool,
    pub negate: bool,
    pub within_lines: Option<usize>,
}

/// Why a configuration does not compile.
#[derive(Debug)]
pub enum RuleError {
    /// The trigger pattern of a rule is no valid regex.
    Pattern { rule: String, pattern: String, cause: grep::regex::Error },
    /// A chain pattern of a rule is no valid regex.
    ChainPattern { rule: String, pattern: String, cause: grep::regex::Error },
}

/// Mathematical counterpart of [`RuleError`].
pub enum FaultView {
    Pattern { rule: Seq<char>, pattern: Seq<char>, cause: grep::regex::Error },
    ChainPattern { rule: Seq<char>, pattern: Seq<char>, cause: grep::regex::Error },
}

impl View for RuleError {
    type V = FaultView;

    open spec fn view(&self) -> FaultView {
        match self {
            RuleError::Pattern { rule, pattern, cause } => FaultView::Pattern {
                rule: rule@,
                pattern: pattern@,
                cause: *cause,
            },
            RuleError::ChainPattern { rule, pattern, cause } => FaultView::ChainPattern {
                rule: rule@,
                pattern: pattern@,
                cause: *cause,
            },
        }
    }
}

/// The text of an error.
pub open spec fn fault_text(fault: FaultView) -> Seq<char> {
    match fault {
        FaultView::Pattern { rule, pattern, .. } => "invalid regex in rule '"@ + rule + "': "@
            + pattern,
        FaultView::ChainPattern { rule, pattern, .. } => "invalid chain regex in rule '"@ + rule
            + "': "@ + pattern,
    }
}

impl RuleError {
    /// The error as a text that names the rule and the pattern.
    pub fn message(&self) -> (r: String)
        ensures
            r@ == fault_text(self@),
    {
        let mut out = String::new();
        assert(out@ =~= seq![]);
        match self {
            RuleError::Pattern { rule, pattern, cause } => {
                out.push_str("invalid regex in rule '");
                out.push_str(rule.as_str());
                out.push_str("': ");
                out.push_str(pattern.as_str());
            },
            RuleError::ChainPattern { rule, pattern, cause } => {
                out.push_str("invalid chain regex in rule '");
                out.push_str(rule.as_str());
                out.push_str("': ");
                out.push_str(pattern.as_str());
            },
        }
        assert(out@ =~= fault_text(self@));
        out
    }
}

/// How the trigger pattern of a rule is compiled: `multiline` lets `^` and `$` match at every line,
/// and `.` match newlines.
pub open spec fn trigger_options(c: RuleConfig) -> PatternOptions {
    PatternOptions {
        case_insensitive: c.case_insensitive,
        word: c.word,
        multi_line: c.multiline,
        dot_matches_new_line: c.multiline,
    }
}

/// How the pattern of a chain entry is compiled.
pub open spec fn chain_options(c: ChainConfig) -> PatternOptions {
    PatternOptions {
        case_insensitive: c.case_insensitive,
        word: c.word,
        multi_line: false,
        dot_matches_new_line: false,
    }
}

/// The settings that the trigger pattern of a rule is compiled with.
pub fn trigger_pattern_options(c: &RuleConfig) -> (r: PatternOptions)
    ensures
        r == trigger_options(*c),
        r.case_insensitive == c.case_insensitive,
        r.word == c.word,
        r.multi_line == c.multiline,
        r.dot_matches_new_line == c.multiline,
{
    PatternOptions {
        case_insensitive: c.case_insensitive,
        word: c.word,
        multi_line: c.multiline,
        dot_matches_new_line: c.multiline,
    }
}

/// The settings that the pattern of a chain entry is compiled with.
pub fn chain_pattern_options(c: &ChainConfig) -> (r: PatternOptions)
    ensures
        r == chain_options(*c),
        r.case_insensitive == c.case_insensitive,
        r.word == c.word,
        !r.multi_line,
        !r.dot_matches_new_line,
{
    PatternOptions {
        case_insensitive: c.case_insensitive,
        word: c.word,
        multi_line: false,
        dot_matches_new_line: false,
    }
}

/// The first chain entry at or after `i` with an invalid pattern.
pub open spec fn chain_fault(rule: Seq<char>, chain: Seq<ChainConfig>, i: int) -> Option<FaultView>
    decreases chain.len() - i,
{
    if i >= chain.len() {
        None
    } else if !pattern::compiles(chain[i].pattern@, chain_options(chain[i])) {
        Some(
            FaultView::ChainPattern {
                rule,
                pattern: chain[i].pattern@,
                cause: pattern::refusal(chain[i].pattern@, chain_options(chain[i])),
            },
        )
    } else {
        chain_fault(rule, chain, i + 1)
    }
}

/// The first invalid pattern of a rule; the trigger comes before the chain.
pub open spec fn rule_fault(c: RuleConfig) -> Option<FaultView> {
    if !pattern::compiles(c.pattern@, trigger_options(c)) {
        Some(
            FaultView::Pattern {
                rule: c.name@,
                pattern: c.pattern@,
                cause: pattern::refusal(c.pattern@, trigger_options(c)),
            },
        )
    } else {
        chain_fault(c.name@, c.chain@, 0)
    }
}

/// The first invalid pattern of the rules at or after `i`.
pub open spec fn rules_fault(configs: Seq<RuleConfig>, i: int) -> Option<FaultView>
    decreases configs.len() - i,
{
    if i >= configs.len() {
        None
    } else if rule_fault(configs[i]) is Some {
        rule_fault(configs[i])
    } else {
        rules_fault(configs, i + 1)
    }
}

/// `entry` is the compiled form of `c`.
pub open spec fn chain_compiled(entry: ChainedPattern, c: ChainConfig) -> bool {
    &&& pattern::compiled_from(entry.matcher, c.pattern@, chain_options(c))
    &&& pattern::finds_in_order(entry.matcher)
    &&& entry.relationship == c.relationship
    &&& entry.negate == c.negate
    &&& entry.within_lines == c.within_lines
}

/// `rule` is the compiled form of `c`.
pub open spec fn rule_compiled(rule: Rule, c: RuleConfig) -> bool {
    &&& rule.name@ == c.name@
    &&& pattern::compiled_from(rule.matcher, c.pattern@, trigger_options(c))
    &&& pattern::finds_in_order(rule.matcher)
    &&& match c.scope {
        None => rule.scope_filter is None,
        Some(s) => rule.scope_filter matches Some(f) && f@ == filter_of(s@),
    }
    &&& rule.message@ == c.message@
    &&& rule.severity == c.severity
    &&& rule.search_target == c.search
    &&& rule.chain@.len() == c.chain@.len()
    &&& forall|i: int|
        0 <= i < rule.chain@.len() ==> chain_compiled(#[trigger] rule.chain@[i], c.chain@[i])
}

/// The rule is called and reported as it is written, searches what is written, and its patterns find what
/// the written patterns find with the flags that are written: the trigger with its own `multiline`, and the
/// chain without it.
pub open spec fn finds_what_is_written(rule: Rule, c: RuleConfig) -> bool {
    &&& rule.name@ == c.name@
    &&& rule.message@ == c.message@
    &&& rule.severity == c.severity
    &&& rule.search_target == c.search
    &&& rule.scope_filter is None == c.scope is None
    &&& forall|h: Seq<u8>| #[trigger]
        pattern::matched_spans(rule.matcher, h) == pattern::pattern_spans(
            c.pattern@,
            c.case_insensitive,
            c.word,
            c.multiline,
            c.multiline,
            h,
        )
    &&& rule.chain@.len() == c.chain@.len()
    &&& forall|i: int|
        #![trigger rule.chain@[i]]
        0 <= i < rule.chain@.len() ==> rule.chain@[i].relationship == c.chain@[i].relationship
            && rule.chain@[i].negate == c.chain@[i].negate && rule.chain@[i].within_lines
            == c.chain@[i].within_lines && forall|h: Seq<u8>| #[trigger]
            pattern::matched_spans(rule.chain@[i].matcher, h) == pattern::pattern_spans(
                c.chain@[i].pattern@,
                c.chain@[i].case_insensitive,
                c.chain@[i].word,
                false,
                false,
                h,
            )
}

/// The trigger matcher of a rule, given how its pattern compiled.
pub fn trigger_matcher(
    c: &RuleConfig,
    compiled: Result<RegexMatcher, grep::regex::Error>,
) -> (r: Result<RegexMatcher, RuleError>)
    ensures
        match compiled {
            Ok(m) => r == Ok::<RegexMatcher, RuleError>(m),
            Err(cause) => r matches Err(e) && e@ == (FaultView::Pattern {
                rule: c.name@,
                pattern: c.pattern@,
                cause,
            }),
        },
{
    match compiled {
        Ok(m) => Ok(m),
        Err(cause) => Err(
            RuleError::Pattern { rule: c.name.clone(), pattern: c.pattern.clone(), cause },
        ),
    }
}

/// A chain entry of the rule named `rule`, given how its pattern compiled.
pub fn chain_entry(
    rule: &str,
    c: &ChainConfig,
    compiled: Result<RegexMatcher, grep::regex::Error>,
) -> (r: Result<ChainedPattern, RuleError>)
    ensures
        match compiled {
            Ok(m) => r == Ok::<ChainedPattern, RuleError>(
                ChainedPattern {
                    matcher: m,
                    relationship: c.relationship,
                    negate: c.negate,
                    within_lines: c.within_lines,
                },
            ),
            Err(cause) => r matches Err(e) && e@ == (FaultView::ChainPattern {
                rule: rule@,
                pattern: c.pattern@,
                cause,
            }),
        },
{
    match compiled {
        Ok(m) => Ok(
            ChainedPattern {
                matcher: m,
                relationship: c.relationship,
                negate: c.negate,
                within_lines: c.within_lines,
            },
        ),
        Err(cause) => Err(
            RuleError::ChainPattern { rule: rule.to_owned(), pattern: c.pattern.clone(), cause },
        ),
    }
}

/// The rule of a configuration, given its compiled patterns.
pub fn assemble_rule(c: &RuleConfig, matcher: RegexMatcher, chain: Vec<ChainedPattern>) -> (r: Rule)
    ensures
        r.name@ == c.name@,
        r.matcher == matcher,
        match c.scope {
            None => r.scope_filter is None,
            Some(s) => r.scope_filter matches Some(f) && f@ == filter_of(s@),
        },
        r.message@ == c.message@,
        r.severity == c.severity,
        r.search_target == c.search,
        r.chain == chain,
{
    let scope_filter = match &c.scope {
        None => None,
        Some(s) => Some(ScopeFilter::parse(s.as_str())),
    };
    Rule {
        name: c.name.clone(),
        matcher,
        scope_filter,
        message: c.message.clone(),
        severity: c.severity,
        search_target: c.search,
        chain,
    }
}

/// Compile one rule.  The error is that of the first invalid pattern.
pub fn compile_rule(c: &RuleConfig) -> (r: Result<Rule, RuleError>)
    ensures
        match r {
            Ok(rule) => rule_fault(*c) is None && rule_compiled(rule, *c),
            Err(e) => rule_fault(*c) == Some(e@),
        },
        r matches Ok(rule) ==> finds_what_is_written(rule, *c),
{
    let matcher = match trigger_matcher(
        c,
        compile(c.pattern.as_str(), trigger_pattern_options(c)),
    ) {
        Ok(m) => m,
        Err(e) => {
            return Err(e);
        },
    };
    let mut chain: Vec<ChainedPattern> = Vec::new();
    let mut i: usize = 0;
    while i < c.chain.len()
        invariant
            i <= c.chain@.len(),
            chain@.len() == i,
            pattern::compiles(c.pattern@, trigger_options(*c)),
            chain_fault(c.name@, c.chain@, 0) == chain_fault(c.name@, c.chain@, i as int),
            forall|j: int| 0 <= j < i ==> chain_compiled(#[trigger] chain@[j], c.chain@[j]),
        decreases c.chain@.len() - i,
    {
        let entry = &c.chain[i];
        match chain_entry(
            c.name.as_str(),
            entry,
            compile(entry.pattern.as_str(), chain_pattern_options(entry)),
        ) {
            Ok(compiled) => {
                chain.push(compiled);
            },
            Err(e) => {
                return Err(e);
            },
        }
        i = i + 1;
    }
    Ok(assemble_rule(c, matcher, chain))
}

/// Compile the rules of a configuration, in order.  The error is that of the first invalid
/// pattern.
pub fn compile_rules(configs: &[RuleConfig]) -> (r: Result<Vec<Rule>, RuleError>)
    ensures
        match r {
            Ok(rules) => {
                &&& rules_fault(configs@, 0) is None
                &&& rules@.len() == configs@.len()
                &&& forall|i: int|
                    0 <= i < rules@.len() ==> rule_compiled(#[trigger] rules@[i], configs@[i])
            },
            Err(e) => rules_fault(configs@, 0) == Some(e@),
        },
        r matches Ok(rules) ==> rules@.len() == configs@.len() && forall|i: int|
            0 <= i < rules@.len() ==> finds_what_is_written(#[trigger] rules@[i], configs@[i]),
{
    let mut rules: Vec<Rule> = Vec::new();
    let mut i: usize = 0;
    while i < configs.len()
        invariant
            i <= configs@.len(),
            rules@.len() == i,
            rules_fault(configs@, 0) == rules_fault(configs@, i as int),
            forall|j: int| 0 <= j < i ==> rule_compiled(#[trigger] rules@[j], configs@[j]),
            forall|j: int|
                0 <= j < i ==> finds_what_is_written(#[trigger] rules@[j], configs@[j]),
        decreases configs@.len() - i,
    {
        match compile_rule(&configs[i]) {
            Ok(rule) => {
                rules.push(rule);
            },
            Err(e) => {
                return Err(e);
            },
        }
        i = i + 1;
    }
    Ok(rules)
}

} // verus!
