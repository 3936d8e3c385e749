use okft::bundle::Bundle;
use okft::conformance::validate;
use okft::diagnostic::{Diagnostic, Severity};

fn codes(sources: &[(&str, &str)]) -> Vec<&'static str> {
    let bundle = Bundle::from_sources(sources);
    validate(&bundle).into_iter().map(|d| d.code).collect()
}

fn only(sources: &[(&str, &str)]) -> Diagnostic {
    let bundle = Bundle::from_sources(sources);
    let mut diagnostics = validate(&bundle);
    assert_eq!(
        diagnostics.len(),
        1,
        "expected one diagnostic, got {diagnostics:?}"
    );
    diagnostics.remove(0)
}

#[test]
fn a_minimal_conformant_bundle_reports_nothing() {
    assert!(codes(&[("a.md", "---\ntype: Metric\n---\nbody\n")]).is_empty());
}

#[test]
fn type_alone_is_conformant() {
    assert!(codes(&[("a.md", "---\ntype: X\n---\n")]).is_empty());
}

#[test]
fn every_returned_diagnostic_is_an_error() {
    let bundle = Bundle::from_sources(&[
        ("no-frontmatter.md", "just text\n"),
        ("no-type.md", "---\ntitle: T\n---\n"),
        ("index.md", "---\nunexpected: 1\n---\n"),
        ("log.md", "## not-a-date\n"),
    ]);
    let diagnostics = validate(&bundle);
    assert_eq!(diagnostics.len(), 4);
    for diagnostic in &diagnostics {
        assert_eq!(diagnostic.severity, Severity::Error, "{diagnostic:?}");
        assert!(diagnostic.is_conformance());
    }
}

#[test]
fn missing_frontmatter_is_an_error() {
    let diagnostic = only(&[("a.md", "# Heading\n\nNo frontmatter here.\n")]);
    assert_eq!(diagnostic.code, "okf-parse");
    assert!(diagnostic.message.contains("no frontmatter"));
}

#[test]
fn invalid_yaml_is_an_error_with_a_span() {
    let diagnostic = only(&[("a.md", "---\ntype: [unclosed\n---\nbody\n")]);
    assert_eq!(diagnostic.code, "okf-parse");
    assert!(diagnostic.span.is_some());
}

#[test]
fn an_unterminated_block_is_an_error() {
    let diagnostic = only(&[("a.md", "---\ntype: Metric\n")]);
    assert_eq!(diagnostic.code, "okf-parse");
    assert!(diagnostic.message.contains("never closed"));
}

#[test]
fn non_mapping_frontmatter_is_an_error() {
    let diagnostic = only(&[("a.md", "---\n- a\n- b\n---\n")]);
    assert_eq!(diagnostic.code, "okf-parse");
    assert!(diagnostic.message.contains("mapping"));
}

#[test]
fn a_parse_failure_does_not_also_report_a_missing_type() {
    assert_eq!(codes(&[("a.md", "no frontmatter\n")]), ["okf-parse"]);
}

#[test]
fn reserved_files_may_omit_frontmatter() {
    assert!(codes(&[("index.md", "# Index\n"), ("log.md", "# Log\n")]).is_empty());
}

#[test]
fn a_missing_type_is_an_error() {
    let diagnostic = only(&[("a.md", "---\ntitle: Orders\n---\n")]);
    assert_eq!(diagnostic.code, "okf-type");
    assert!(diagnostic.message.contains("missing"));
    assert!(diagnostic.help.is_some());
}

#[test]
fn an_empty_type_is_an_error_pointing_at_the_key() {
    let diagnostic = only(&[("a.md", "---\ntitle: T\ntype: '  '\n---\n")]);
    assert_eq!(diagnostic.code, "okf-type");
    assert!(diagnostic.message.contains("empty"));
    assert_eq!(diagnostic.span.expect("span").start.line, 3);
}

#[test]
fn empty_frontmatter_is_missing_a_type() {
    let diagnostic = only(&[("a.md", "---\n---\n")]);
    assert_eq!(diagnostic.code, "okf-type");
}

#[test]
fn unknown_types_and_extra_keys_are_accepted() {
    assert!(codes(&[(
        "a.md",
        "---\ntype: Something Nobody Registered\nvendor_field: 1\n---\n"
    )])
    .is_empty());
}

#[test]
fn a_root_index_may_declare_okf_version() {
    assert!(codes(&[("index.md", "---\nokf_version: '0.2'\n---\n# Index\n")]).is_empty());
}

#[test]
fn a_root_index_may_not_declare_other_keys() {
    let diagnostic = only(&[("index.md", "---\ntype: Index\n---\n")]);
    assert_eq!(diagnostic.code, "okf-reserved");
    assert!(diagnostic.message.contains("`type`"));
    assert!(diagnostic.help.expect("help").contains("okf_version"));
}

#[test]
fn a_nested_index_may_not_declare_okf_version() {
    let diagnostic = only(&[("tables/index.md", "---\nokf_version: '0.2'\n---\n")]);
    assert_eq!(diagnostic.code, "okf-reserved");
    assert!(diagnostic.help.expect("help").contains("bundle-root"));
}

#[test]
fn an_index_without_frontmatter_is_fine() {
    assert!(codes(&[
        ("index.md", "# Subdirectories\n\n* [t](tables/index.md)\n"),
        ("tables/index.md", "# Tables\n"),
    ])
    .is_empty());
}

#[test]
fn a_malformed_index_block_is_reported_as_a_reserved_violation() {
    let diagnostic = only(&[("index.md", "---\n[unclosed\n---\n")]);
    assert_eq!(diagnostic.code, "okf-reserved");
}

#[test]
fn every_offending_index_key_is_reported() {
    assert_eq!(
        codes(&[("index.md", "---\ntype: Index\ntitle: T\n---\n")]),
        ["okf-reserved", "okf-reserved"]
    );
}

#[test]
fn a_log_may_carry_frontmatter() {
    assert!(codes(&[(
        "log.md",
        "---\ntype: Log\ntitle: History\n---\n\n# History\n\n## 2026-07-01\n\n- **Verified**\n"
    )])
    .is_empty());
}

#[test]
fn iso_date_headings_are_accepted() {
    assert!(codes(&[(
        "log.md",
        "# Log\n\n## 2026-05-22\n\n* **Update**\n\n## 2026-05-15\n"
    )])
    .is_empty());
}

#[test]
fn a_non_iso_date_heading_is_an_error() {
    let diagnostic = only(&[("log.md", "# Log\n\n## May 22, 2026\n\n* **Update**\n")]);
    assert_eq!(diagnostic.code, "okf-reserved");
    assert!(diagnostic.message.contains("May 22, 2026"));
    assert!(diagnostic.span.is_some());
}

#[test]
fn an_impossible_date_heading_is_an_error() {
    assert_eq!(codes(&[("log.md", "## 2026-13-45\n")]), ["okf-reserved"]);
}

#[test]
fn nested_logs_are_checked_too() {
    assert_eq!(codes(&[("decisions/log.md", "## nope\n")]), ["okf-reserved"]);
}

#[test]
fn other_heading_levels_are_not_treated_as_dates() {
    assert!(codes(&[("log.md", "# Bundle history\n\n### Details\n")]).is_empty());
}

#[test]
fn conformance_messages_are_exact() {
    let diagnostic = only(&[("a.md", "---\ntitle: Orders\n---\n")]);
    assert_eq!(diagnostic.path, "a.md");
    assert_eq!(diagnostic.severity, Severity::Error);
    let parse = only(&[("b.md", "plain\n")]);
    assert_eq!(parse.path, "b.md");
    assert!(parse.span.is_none());
}
