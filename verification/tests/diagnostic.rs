use okft::diagnostic::{rule, rules, Diagnostic, RuleKind, Severity};
use okft::span::{Position, Span};

#[test]
fn severities_order_and_render() {
    assert!(Severity::Error > Severity::Warning);
    assert!(Severity::Warning > Severity::Info);
    assert_eq!(Severity::Error.to_string(), "error");
    assert_eq!(Severity::Warning.as_str(), "warning");
    assert_eq!(Severity::Info.as_str(), "info");
}

#[test]
fn exactly_three_conformance_rules_exist() {
    let conformance: Vec<_> =
        rules().into_iter().filter(|r| r.kind == RuleKind::Conformance).map(|r| r.code).collect();
    assert_eq!(conformance, ["okf-parse", "okf-type", "okf-reserved"]);
}

#[test]
fn no_lint_rule_defaults_to_error() {
    for rule in rules().into_iter().filter(|r| r.kind == RuleKind::Lint) {
        assert_ne!(rule.default_severity, Severity::Error, "{} defaults to error", rule.code);
    }
}

#[test]
fn conformance_rules_always_default_to_error() {
    for rule in rules().into_iter().filter(|r| r.kind == RuleKind::Conformance) {
        assert_eq!(rule.default_severity, Severity::Error, "{}", rule.code);
    }
}

#[test]
fn rule_codes_are_unique_and_documented() {
    let mut codes: Vec<_> = rules().into_iter().map(|r| r.code).collect();
    codes.sort_unstable();
    let count = codes.len();
    codes.dedup();
    assert_eq!(codes.len(), count, "duplicate rule codes");

    for rule in rules() {
        assert!(!rule.description.is_empty(), "{} has no description", rule.code);
        assert!(rule.spec_section.starts_with('§'), "{} has no spec section", rule.code);
    }
}

#[test]
fn rule_lookup_finds_registered_codes_only() {
    assert_eq!(rule("okf-type").expect("registered").code, "okf-type");
    assert!(rule("no-such-rule").is_none());
}

#[test]
fn diagnostics_default_to_the_rules_severity() {
    let diagnostic = Diagnostic::new("broken-link", "a/b.md", "dangling");
    assert_eq!(diagnostic.severity, Severity::Warning);
    assert_eq!(diagnostic.path, "a/b.md");
    assert_eq!(diagnostic.message, "dangling");
    assert!(diagnostic.span.is_none());
    assert!(diagnostic.help.is_none());
    assert!(!diagnostic.is_conformance());
}

#[test]
fn builders_attach_span_and_help() {
    let span = Span::at(Position::new(3, 1));
    let diagnostic = Diagnostic::new("okf-type", "c.md", "missing type")
        .with_span(span)
        .with_help("add `type:`");
    assert_eq!(diagnostic.span, Some(span));
    assert_eq!(diagnostic.help.as_deref(), Some("add `type:`"));
    assert!(diagnostic.is_conformance());
    assert_eq!(diagnostic.severity, Severity::Error);
}

#[test]
fn is_conformance_is_false_for_unregistered_codes() {
    let mut diagnostic = Diagnostic::new("broken-link", "x.md", "m");
    diagnostic.code = "not-registered";
    assert!(!diagnostic.is_conformance());
}

#[test]
fn the_registry_has_sixteen_rules_in_order() {
    let all = rules();
    assert_eq!(all.len(), 16);
    assert_eq!(all[0].code, "okf-parse");
    assert_eq!(all[15].code, "unreachable-path");
    assert_eq!(rule("missing-title").expect("registered").default_severity, Severity::Info);
}

#[test]
fn exceeds_follows_the_severity_order() {
    assert!(Severity::Error.exceeds(Severity::Warning));
    assert!(Severity::Warning.exceeds(Severity::Info));
    assert!(!Severity::Info.exceeds(Severity::Info));
    assert!(!Severity::Info.exceeds(Severity::Error));
}
