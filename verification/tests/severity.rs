use okft::diagnostic::{Diagnostic, Severity};
use okft::severity::SeverityOverrides;

fn diagnostics() -> Vec<Diagnostic> {
    vec![
        Diagnostic::new("okf-type", "a.md", "missing type"),
        Diagnostic::new("broken-link", "a.md", "dangling"),
        Diagnostic::new("orphan-concept", "b.md", "orphan"),
    ]
}

fn overrides(deny: &[&str], allow: &[&str], strict: bool) -> SeverityOverrides {
    let deny: Vec<String> = deny.iter().map(|s| (*s).to_owned()).collect();
    let allow: Vec<String> = allow.iter().map(|s| (*s).to_owned()).collect();
    SeverityOverrides::new(&deny, &allow, strict).expect("valid rules")
}

#[test]
fn without_overrides_nothing_changes() {
    let result = SeverityOverrides::default().apply(diagnostics());
    assert_eq!(result.len(), 3);
    assert_eq!(result[0].severity, Severity::Error);
    assert_eq!(result[1].severity, Severity::Warning);
    assert_eq!(result[2].severity, Severity::Info);
}

#[test]
fn deny_promotes_a_single_rule() {
    let result = overrides(&["orphan-concept"], &[], false).apply(diagnostics());
    assert_eq!(result[1].severity, Severity::Warning);
    assert_eq!(result[2].severity, Severity::Error);
}

#[test]
fn strict_promotes_warnings_but_not_infos() {
    let result = overrides(&[], &[], true).apply(diagnostics());
    assert_eq!(result[1].severity, Severity::Error);
    assert_eq!(result[2].severity, Severity::Info);
}

#[test]
fn allow_drops_a_rule_entirely() {
    let result = overrides(&[], &["broken-link"], false).apply(diagnostics());
    assert_eq!(result.len(), 2);
    assert!(result.iter().all(|d| d.code != "broken-link"));
}

#[test]
fn allow_beats_deny_and_strict() {
    let result = overrides(&["broken-link"], &["broken-link"], true).apply(diagnostics());
    assert!(result.iter().all(|d| d.code != "broken-link"));
}

#[test]
fn conformance_rules_cannot_be_silenced_or_downgraded() {
    let result = overrides(&[], &["okf-type"], false).apply(diagnostics());
    assert_eq!(result.len(), 3);
    assert_eq!(result[0].code, "okf-type");
    assert_eq!(result[0].severity, Severity::Error);
}

#[test]
fn unknown_rule_codes_are_rejected() {
    let error = SeverityOverrides::new(&["nope".to_owned()], &[], false).expect_err("rejects");
    assert!(error.contains("unknown rule `nope`"));
    assert!(error.contains("okf rules"));

    assert!(SeverityOverrides::new(&[], &["also-nope".to_owned()], false).is_err());
    assert!(SeverityOverrides::new(&["broken-link".to_owned()], &[], false).is_ok());
}

#[test]
fn an_unregistered_code_is_left_alone() {
    let mut diagnostic = Diagnostic::new("broken-link", "a.md", "m");
    diagnostic.code = "not-registered";
    let result = overrides(&[], &[], true).apply(vec![diagnostic]);
    assert_eq!(result.len(), 1);
    assert_eq!(result[0].severity, Severity::Error);
}

#[test]
fn the_first_unknown_code_is_named_even_when_later_ones_are_unknown_too() {
    let error = SeverityOverrides::new(&["broken-link".to_owned(), "first".to_owned()], &["second".to_owned()], false)
        .expect_err("rejects");
    assert_eq!(error, "unknown rule `first`; run `okf rules` to list the available codes");
}
