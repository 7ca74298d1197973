//! Scope filters and the compilation of rules.

use yarecs::rules::{
    compile_rules, default_severity, ChainConfig, ChainRelationship, RuleConfig, RuleError,
    ScopeFilter, SearchTarget, Severity,
};

fn config(name: &str, pattern: &str) -> RuleConfig {
    RuleConfig {
        name: name.to_string(),
        pattern: pattern.to_string(),
        scope: None,
        message: "m".to_string(),
        severity: default_severity(),
        case_insensitive: false,
        word: false,
        multiline: false,
        search: SearchTarget::default(),
        chain: vec![],
    }
}

fn chain(pattern: &str) -> ChainConfig {
    ChainConfig {
        pattern: pattern.to_string(),
        relationship: ChainRelationship::After,
        case_insensitive: false,
        word: false,
        negate: true,
        within_lines: Some(4),
    }
}

#[test]
fn severities_have_lower_case_names() {
    assert_eq!(Severity::Error.as_str(), "error");
    assert_eq!(Severity::Warning.as_str(), "warning");
    assert_eq!(Severity::Info.as_str(), "info");
}

#[test]
fn defaults_of_a_rule() {
    assert_eq!(default_severity(), Severity::Warning);
    assert_eq!(SearchTarget::default(), SearchTarget::Code);
}

#[test]
fn any_depth_matches_every_path() {
    let f = ScopeFilter::parse("**");
    assert!(f.matches(&[]));
    assert!(f.matches(&["A"]));
    assert!(f.matches(&["A", "B", "C"]));
}

#[test]
fn any_depth_and_one_level_matches_named_scopes() {
    let f = ScopeFilter::parse("**::*");
    assert!(!f.matches(&[]));
    assert!(f.matches(&["A"]));
    assert!(f.matches(&["A", "B"]));
}

#[test]
fn any_depth_and_two_levels_matches_members() {
    let f = ScopeFilter::parse("**::*::*");
    assert!(!f.matches(&["A"]));
    assert!(f.matches(&["A", "B"]));
    assert!(f.matches(&["A", "B", "C"]));
}

#[test]
fn members_of_a_named_scope_are_matched() {
    let f = ScopeFilter::parse("**::MyClass::*");
    assert!(f.matches(&["MyClass", "f"]));
    assert!(f.matches(&["N", "MyClass", "f"]));
    assert!(!f.matches(&["MyClass"]));
    assert!(!f.matches(&["MyClass", "Inner", "f"]));
}

#[test]
fn literal_filter_matches_its_own_path_only() {
    let f = ScopeFilter::parse("Foo::Bar::baz");
    assert!(f.matches(&["Foo", "Bar", "baz"]));
    assert!(!f.matches(&["Foo", "Bar"]));
    assert!(!f.matches(&["X", "Foo", "Bar", "baz"]));
    assert!(!f.matches(&["Foo", "Bar", "Baz"]));
}

#[test]
fn any_depth_in_the_middle_backtracks() {
    let f = ScopeFilter::parse("A::**::B");
    assert!(f.matches(&["A", "B"]));
    assert!(f.matches(&["A", "B", "X", "B"]));
    assert!(!f.matches(&["A", "B", "X"]));
}

#[test]
fn clone_of_a_filter_matches_the_same() {
    let f = ScopeFilter::parse("A::*").clone();
    assert!(f.matches(&["A", "x"]));
    assert!(!f.matches(&["B", "x"]));
}

#[test]
fn rules_are_compiled_in_order() {
    let mut second = config("b", "y");
    second.scope = Some("N::*".to_string());
    second.severity = Severity::Error;
    second.search = SearchTarget::Comments;
    second.chain = vec![chain("z")];
    let rules = compile_rules(&[config("a", "x"), second]).ok().unwrap();
    assert_eq!(rules.len(), 2);
    assert_eq!(rules[0].name, "a");
    assert!(rules[0].scope_filter.is_none());
    assert_eq!(rules[1].message, "m");
    assert_eq!(rules[1].severity, Severity::Error);
    assert_eq!(rules[1].search_target, SearchTarget::Comments);
    assert!(rules[1].scope_filter.as_ref().unwrap().matches(&["N", "f"]));
    assert_eq!(rules[1].chain.len(), 1);
    assert_eq!(rules[1].chain[0].relationship, ChainRelationship::After);
    assert!(rules[1].chain[0].negate);
    assert_eq!(rules[1].chain[0].within_lines, Some(4));
}

#[test]
fn invalid_trigger_names_rule_and_pattern() {
    let e = compile_rules(&[config("ok", "x"), config("bad", "(")]).err().unwrap();
    assert!(matches!(e, RuleError::Pattern { .. }));
    assert_eq!(e.message(), "invalid regex in rule 'bad': (");
}

#[test]
fn invalid_chain_names_rule_and_pattern() {
    let mut c = config("r", "x");
    c.chain = vec![chain("fine"), chain("[")];
    let e = compile_rules(&[c]).err().unwrap();
    assert!(matches!(e, RuleError::ChainPattern { .. }));
    assert_eq!(e.message(), "invalid chain regex in rule 'r': [");
}

#[test]
fn first_invalid_pattern_is_reported() {
    let mut c = config("r", "(");
    c.chain = vec![chain("[")];
    let e = compile_rules(&[c, config("later", ")")]).err().unwrap();
    assert_eq!(e.message(), "invalid regex in rule 'r': (");
}

#[test]
fn error_carries_its_cause() {
    let cause = grep::regex::RegexMatcherBuilder::new().build("(").err().unwrap();
    match compile_rules(&[config("bad", "(")]).err().unwrap() {
        RuleError::Pattern { cause: e, .. } => assert_eq!(e.to_string(), cause.to_string()),
        RuleError::ChainPattern { .. } => panic!("the trigger is at fault"),
    }
    let mut c = config("r", "x");
    c.chain = vec![chain("(")];
    match compile_rules(&[c]).err().unwrap() {
        RuleError::ChainPattern { cause: e, .. } => assert_eq!(e.to_string(), cause.to_string()),
        RuleError::Pattern { .. } => panic!("the chain is at fault"),
    }
}
