use okft::bundle::Bundle;
use okft::date::Date;
use okft::diagnostic::{Diagnostic, Severity};
use okft::lint::{is_bundle_path, lint, LintOptions};


fn today() -> Date {
    Date::parse("2026-08-09").expect("valid")
}

fn run(sources: &[(&str, &str)]) -> Vec<Diagnostic> {
    let bundle = Bundle::from_sources(sources);
    lint(&bundle, &LintOptions { today: today() })
}

fn codes_for(sources: &[(&str, &str)], code: &str) -> Vec<Diagnostic> {
    run(sources)
        .into_iter()
        .filter(|d| d.code == code)
        .collect()
}

#[test]
fn no_lint_finding_is_ever_an_error() {
    let findings = run(&[
        (
            "a.md",
            "---\ntimestamp: '2026-01-01T00:00:00Z'\n---\n[x](/gone.md)\n\n# Citations\n",
        ),
        (
            "b.md",
            "---\ntype: Attested Computation\nstale_after: 2020-01-01\n---\n",
        ),
    ]);
    assert!(!findings.is_empty());
    for finding in findings {
        assert_ne!(finding.severity, Severity::Error, "{finding:?}");
        assert!(!finding.is_conformance());
    }
}

#[test]
fn a_well_formed_bundle_is_quiet() {
    let findings = run(&[
        ("index.md", "# Bundle\n\n* [orders](tables/index.md)\n"),
        ("tables/index.md", "# Tables\n\n* [orders](orders.md)\n"),
        (
            "tables/orders.md",
            "---\ntype: BigQuery Table\ntitle: Orders\ndescription: One row per order.\n---\n\
             \nSee [customers](/tables/customers.md).\n",
        ),
        (
            "tables/customers.md",
            "---\ntype: BigQuery Table\ntitle: Customers\ndescription: One row per customer.\n---\n",
        ),
    ]);
    assert!(
        findings.is_empty(),
        "expected no findings, got {findings:?}"
    );
}

#[test]
fn flags_links_to_missing_concepts() {
    let findings = codes_for(
        &[(
            "a.md",
            "---\ntype: X\n---\n[gone](/nope.md) [also](./missing.md)\n",
        )],
        "broken-link",
    );
    assert_eq!(findings.len(), 2);
    assert_eq!(findings[0].severity, Severity::Warning);
    assert!(findings[0].span.is_some());
}

#[test]
fn does_not_flag_external_or_resolvable_links() {
    assert!(
        codes_for(
            &[
                (
                    "a.md",
                    "---\ntype: X\n---\n[ok](/b.md) [ext](https://example.com/x.md)\n"
                ),
                ("b.md", "---\ntype: X\n---\n[back](/a.md)\n"),
            ],
            "broken-link",
        )
        .is_empty()
    );
}

#[test]
fn flags_missing_title_and_description() {
    let findings = run(&[("a.md", "---\ntype: X\n---\n")]);
    assert_eq!(
        findings
            .iter()
            .filter(|d| d.code == "missing-description")
            .count(),
        1
    );
    assert_eq!(
        findings
            .iter()
            .filter(|d| d.code == "missing-title")
            .count(),
        1
    );

    let quiet = run(&[("a.md", "---\ntype: X\ntitle: T\ndescription: D\n---\n")]);
    assert!(quiet.iter().all(|d| !d.code.starts_with("missing-t")));
}

#[test]
fn flags_a_concept_past_its_stale_after() {
    let findings = codes_for(
        &[("a.md", "---\ntype: X\nstale_after: 2026-08-08\n---\n")],
        "stale-concept",
    );
    assert_eq!(findings.len(), 1);
    assert!(findings[0].message.contains("2026-08-08"));
}

#[test]
fn staleness_includes_the_boundary_day() {
    assert_eq!(
        codes_for(
            &[("a.md", "---\ntype: X\nstale_after: 2026-08-09\n---\n")],
            "stale-concept"
        )
        .len(),
        1
    );
    assert!(
        codes_for(
            &[("a.md", "---\ntype: X\nstale_after: 2026-08-10\n---\n")],
            "stale-concept"
        )
        .is_empty()
    );
}

#[test]
fn flags_the_two_superseded_v01_constructs() {
    let findings = run(&[(
        "a.md",
        "---\ntype: X\ntimestamp: '2026-05-28T22:53:05+00:00'\n---\n\n# Citations\n\n- https://x\n",
    )]);
    assert_eq!(
        findings
            .iter()
            .filter(|d| d.code == "legacy-timestamp")
            .count(),
        1
    );
    assert_eq!(
        findings
            .iter()
            .filter(|d| d.code == "legacy-citations")
            .count(),
        1
    );
}

#[test]
fn a_citations_heading_is_matched_case_insensitively() {
    assert_eq!(
        codes_for(
            &[("a.md", "---\ntype: X\n---\n\n# CITATIONS\n")],
            "legacy-citations"
        )
        .len(),
        1
    );
    assert!(
        codes_for(
            &[("a.md", "---\ntype: X\n---\n\n## Citations\n")],
            "legacy-citations"
        )
        .is_empty()
    );
}

#[test]
fn flags_actors_outside_the_conventions() {
    let findings = codes_for(
        &[(
            "a.md",
            "---\ntype: X\ngenerated: { by: nonsense, at: 2026-01-01T00:00:00Z }\n\
             verified: { by: team:finance, at: 2026-01-02T00:00:00Z }\n---\n",
        )],
        "unknown-actor",
    );
    assert_eq!(findings.len(), 2);
}

#[test]
fn accepts_all_three_actor_conventions() {
    assert!(
        codes_for(
            &[(
                "a.md",
                "---\ntype: X\ngenerated: { by: agent/v1, at: 2026-01-01T00:00:00Z }\n\
                 verified:\n  - { by: human:a, at: 2026-01-02T00:00:00Z }\n  \
                 - { by: process:nightly, at: 2026-01-03T00:00:00Z }\n---\n",
            )],
            "unknown-actor",
        )
        .is_empty()
    );
}

#[test]
fn flags_sources_without_a_resource() {
    let findings = codes_for(
        &[(
            "a.md",
            "---\ntype: X\nsources:\n  - title: No resource\n---\n",
        )],
        "source-missing-resource",
    );
    assert_eq!(findings.len(), 1);
}

#[test]
fn flags_footnotes_with_no_matching_source_id() {
    let findings = codes_for(
        &[(
            "a.md",
            "---\ntype: X\nsources:\n  - id: known\n    resource: https://x\n---\n\
             \nClaim.[^known] Other.[^unknown]\n\n[^known]: K\n\n[^unknown]: U\n",
        )],
        "unresolved-footnote",
    );
    assert_eq!(findings.len(), 1);
    assert!(findings[0].message.contains("unknown"));
}

#[test]
fn flags_an_attested_computation_without_a_runtime() {
    let findings = codes_for(
        &[(
            "a.md",
            "---\ntype: Attested Computation\n---\n\n# Computation\n",
        )],
        "computation-missing-runtime",
    );
    assert_eq!(findings.len(), 1);

    assert!(
        codes_for(
            &[(
                "a.md",
                "---\ntype: Attested Computation\nruntime: bigquery\n---\n"
            )],
            "computation-missing-runtime",
        )
        .is_empty()
    );
}

#[test]
fn flags_path_fields_that_name_nothing() {
    let findings = codes_for(
        &[(
            "a.md",
            "---\ntype: X\nattester:\n  resource: attesters/gone.py\n---\n",
        )],
        "unreachable-path",
    );
    assert_eq!(findings.len(), 1);
}

#[test]
fn accepts_path_fields_that_resolve() {
    assert!(
        codes_for(
            &[
                (
                    "a.md",
                    "---\ntype: X\nattester:\n  resource: attesters/check.py\n\
                     computation: computations/revenue.sql\n---\n",
                ),
                ("attesters/check.py", "code"),
                ("computations/revenue.sql", "SELECT 1"),
            ],
            "unreachable-path",
        )
        .is_empty()
    );
}

#[test]
fn ignores_urls_and_prose_in_path_fields() {
    assert!(
        codes_for(
            &[(
                "a.md",
                "---\ntype: X\ncomputation: https://example.com/revenue.sql\n\
                 executor:\n  resource: all queries in BigQuery project X\n---\n",
            )],
            "unreachable-path",
        )
        .is_empty()
    );
    assert!(!is_bundle_path(""));
    assert!(!is_bundle_path("https://x/y"));
    assert!(!is_bundle_path("has space"));
    assert!(is_bundle_path("a/b.md"));
    assert!(is_bundle_path("://leading"));
}

#[test]
fn flags_concepts_nothing_links_to() {
    let findings = codes_for(
        &[
            ("a.md", "---\ntype: X\n---\n"),
            ("b.md", "---\ntype: X\n---\n"),
        ],
        "orphan-concept",
    );
    assert_eq!(findings.len(), 2);
    assert_eq!(findings[0].severity, Severity::Info);
}

#[test]
fn flags_directories_of_concepts_with_no_index() {
    let findings = codes_for(
        &[
            ("tables/orders.md", "---\ntype: X\n---\n"),
            ("root.md", "---\ntype: X\n---\n"),
        ],
        "missing-index",
    );
    let messages: Vec<_> = findings.iter().map(|d| d.message.as_str()).collect();
    assert_eq!(messages.len(), 2);
    assert!(messages.iter().any(|m| m.contains("the bundle root")));
    assert!(messages.iter().any(|m| m.contains("tables")));
}

#[test]
fn a_directory_with_an_index_is_not_flagged() {
    assert!(
        codes_for(
            &[
                ("index.md", "# Root\n"),
                ("tables/index.md", "# Tables\n"),
                ("tables/orders.md", "---\ntype: X\n---\n"),
            ],
            "missing-index",
        )
        .is_empty()
    );
}

#[test]
fn intermediate_directories_are_not_required_to_have_an_index() {
    let findings = codes_for(
        &[
            ("index.md", "# Root\n"),
            ("a/b/deep.md", "---\ntype: X\n---\n"),
        ],
        "missing-index",
    );
    assert_eq!(findings.len(), 1);
    assert!(findings[0].message.contains("a/b"));
}

#[test]
fn reserved_files_are_not_linted_as_concepts() {
    // `index.md` has no title or description and `log.md` links nowhere;
    // neither may be reported, because only concepts are linted.
    let findings = run(&[
        ("index.md", "# Index\n"),
        ("log.md", "# Log\n\n## 2026-01-01\n"),
        ("a.md", "---\ntype: X\ntitle: T\ndescription: D\n---\n"),
    ]);

    assert!(!findings.is_empty(), "expected the orphaned concept to be reported");
    for finding in &findings {
        assert_eq!(
            finding.path,
            "a.md",
            "reserved files should not be linted as concepts: {finding:?}"
        );
    }
}

#[test]
fn concepts_whose_frontmatter_failed_to_parse_are_skipped_by_field_rules() {
    let findings = run(&[("a.md", "---\n[unclosed\n---\n")]);
    assert!(findings.iter().all(|d| d.code != "missing-title"));
    assert!(findings.iter().any(|d| d.code == "orphan-concept"));
}

#[test]
fn lint_messages_name_the_rule_and_path() {
    let findings = codes_for(
        &[("tables/orders.md", "---\ntype: X\nstale_after: 2026-01-01\n---\n")],
        "stale-concept",
    );
    assert_eq!(findings.len(), 1);
    assert_eq!(findings[0].path, "tables/orders.md");
    assert_eq!(findings[0].severity, Severity::Warning);
    assert!(findings[0].help.is_some());
}

#[test]
fn an_unparseable_stale_after_is_not_reported_as_stale() {
    assert!(codes_for(
        &[("a.md", "---\ntype: X\nstale_after: someday\n---\n")],
        "stale-concept"
    )
    .is_empty());
}
