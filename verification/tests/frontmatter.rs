use okft::date::Date;
use okft::document::{Document, Frontmatter, FrontmatterState};
use okft::trust::{Status, TrustTier};

fn frontmatter(yaml: &str) -> Frontmatter {
    let source = format!("---\n{yaml}---\nbody\n");
    match Document::parse(&source).frontmatter {
        FrontmatterState::Parsed(frontmatter) => frontmatter,
        other => panic!("not parsed: {other:?}"),
    }
}

#[test]
fn reads_the_recommended_scalar_fields() {
    let fm = frontmatter(
        "type: BigQuery Table\ntitle: Orders\ndescription: One row per order.\n\
         resource: https://example.com/t\n",
    );
    assert_eq!(fm.concept_type(), Some("BigQuery Table"));
    assert_eq!(fm.title(), Some("Orders"));
    assert_eq!(fm.description(), Some("One row per order."));
    assert_eq!(fm.resource(), Some("https://example.com/t"));
}

#[test]
fn blank_type_reads_as_absent() {
    assert_eq!(frontmatter("type: '   '\n").concept_type(), None);
    assert_eq!(frontmatter("type: ''\n").concept_type(), None);
    assert_eq!(frontmatter("title: only\n").concept_type(), None);
}

#[test]
fn non_string_fields_read_as_absent() {
    let fm = frontmatter("type: [a]\ntitle: 12\ndescription: {a: b}\n");
    assert_eq!(fm.concept_type(), None);
    assert_eq!(fm.title(), None);
    assert_eq!(fm.description(), None);
    assert_eq!(fm.resource(), None);
}

#[test]
fn reads_tags_skipping_non_strings() {
    assert_eq!(
        frontmatter("tags: [sales, orders]\n").tags(),
        ["sales", "orders"]
    );
    assert_eq!(frontmatter("tags: [ok, 12, [nested]]\n").tags(), ["ok"]);
    assert!(frontmatter("tags: not-a-list\n").tags().is_empty());
    assert!(frontmatter("type: X\n").tags().is_empty());
}

#[test]
fn status_defaults_to_stable_when_absent() {
    assert_eq!(frontmatter("type: X\n").status(), Status::Stable);
    assert_eq!(frontmatter("status: draft\n").status(), Status::Draft);
    assert_eq!(frontmatter("status: [x]\n").status(), Status::Stable);
}

#[test]
fn reads_stale_after_and_staleness() {
    let fm = frontmatter("stale_after: 2026-09-23\n");
    assert_eq!(fm.stale_after(), Date::parse("2026-09-23"));
    assert!(fm.stale_after_raw().is_some());

    assert!(fm.is_stale_on(Date::parse("2026-09-23").expect("valid")));
    assert!(fm.is_stale_on(Date::parse("2026-09-24").expect("valid")));
    assert!(!fm.is_stale_on(Date::parse("2026-09-22").expect("valid")));
}

#[test]
fn a_concept_without_stale_after_is_never_stale() {
    let fm = frontmatter("type: X\n");
    assert!(!fm.is_stale_on(Date::parse("2099-01-01").expect("valid")));
    assert!(fm.stale_after().is_none());
    assert!(fm.stale_after_raw().is_none());
}

#[test]
fn a_malformed_stale_after_is_readable_but_unparsed() {
    let fm = frontmatter("stale_after: soon\n");
    assert!(fm.stale_after().is_none());
    assert!(fm.stale_after_raw().is_some());
}

#[test]
fn reads_generated() {
    let fm = frontmatter("generated: { by: agent/v1, at: 2026-06-20T22:53:05Z }\n");
    let generated = fm.generated().expect("generated");
    assert_eq!(generated.by, Some("agent/v1"));
    assert_eq!(generated.at, Some("2026-06-20T22:53:05Z"));
    assert_eq!(generated.span.start.line, 2);
}

#[test]
fn generated_of_the_wrong_shape_is_absent() {
    assert!(frontmatter("generated: agent/v1\n").generated().is_none());
    assert!(frontmatter("type: X\n").generated().is_none());
    let fm = frontmatter("generated: { by: agent/v1 }\n");
    let partial = fm.generated().expect("present");
    assert_eq!(partial.at, None);
}

#[test]
fn a_bare_verified_mapping_becomes_a_one_element_list() {
    let fm = frontmatter("verified: { by: human:ahormati, at: 2026-06-25T09:00:00Z }\n");
    let verified = fm.verified();
    assert_eq!(verified.len(), 1);
    assert_eq!(verified[0].by, Some("human:ahormati"));
    assert_eq!(fm.trust_tier(), TrustTier::HumanReviewed);
}

#[test]
fn reads_a_verified_list() {
    let fm = frontmatter(
        "verified:\n  - { by: human:a, at: 2026-06-25T09:00:00Z }\n  \
         - { by: process:n, at: 2026-06-26T02:00:00Z }\n",
    );
    assert_eq!(fm.verified().len(), 2);
    assert_eq!(fm.trust_tier(), TrustTier::HumanReviewed);
}

#[test]
fn trust_tiers_follow_the_verifiers() {
    assert_eq!(frontmatter("type: X\n").trust_tier(), TrustTier::Unverified);
    assert_eq!(
        frontmatter("verified: [{ by: process:n, at: 2026-01-01T00:00:00Z }]\n").trust_tier(),
        TrustTier::MachineConfirmed
    );
    assert_eq!(
        frontmatter("verified: [{ by: agent/v1, at: 2026-01-01T00:00:00Z }]\n").trust_tier(),
        TrustTier::MachineConfirmed
    );
    assert_eq!(
        frontmatter("verified: [{ at: 2026-01-01T00:00:00Z }]\n").trust_tier(),
        TrustTier::MachineConfirmed
    );
}

#[test]
fn malformed_verified_yields_no_entries() {
    assert!(
        frontmatter("verified: just-a-string\n")
            .verified()
            .is_empty()
    );
    assert!(frontmatter("verified: [plain, 12]\n").verified().is_empty());
    assert_eq!(
        frontmatter("verified: just-a-string\n").trust_tier(),
        TrustTier::Unverified
    );
}

#[test]
fn finds_the_latest_verification() {
    let fm = frontmatter(
        "verified:\n  - { by: human:a, at: 2026-06-25T09:00:00Z }\n  \
         - { by: process:n, at: 2026-06-26T02:00:00Z }\n  - { by: process:m, at: bogus }\n",
    );
    assert_eq!(
        fm.last_verified_at().map(|t| t.date()),
        Date::parse("2026-06-26")
    );
    assert!(frontmatter("type: X\n").last_verified_at().is_none());
}

#[test]
fn reads_sources_with_credibility_signals() {
    let fm = frontmatter(
        "sources:\n  - id: ga4-schema\n    resource: https://example.com/s\n    \
         title: GA4 schema\n    author: team:ga4-docs\n    usage_count: 5000\n    \
         last_modified: 2026-05-30\n",
    );
    let sources = fm.sources();
    assert_eq!(sources.len(), 1);
    assert_eq!(sources[0].id, Some("ga4-schema"));
    assert_eq!(sources[0].resource, Some("https://example.com/s"));
    assert_eq!(sources[0].title, Some("GA4 schema"));
    assert_eq!(sources[0].author, Some("team:ga4-docs"));
    assert_eq!(sources[0].usage_count, Some(5000));
    assert_eq!(sources[0].last_modified, Some("2026-05-30"));
}

#[test]
fn malformed_sources_are_skipped() {
    assert!(frontmatter("sources: nope\n").sources().is_empty());
    assert!(
        frontmatter("sources: [plain-string]\n")
            .sources()
            .is_empty()
    );
    assert!(frontmatter("type: X\n").sources().is_empty());
    let fm = frontmatter("sources:\n  - title: no resource\n");
    let partial = fm.sources();
    assert_eq!(partial.len(), 1);
    assert_eq!(partial[0].resource, None);
}

#[test]
fn collects_actors_from_both_families() {
    let fm = frontmatter(
        "generated: { by: agent/v1, at: 2026-01-01T00:00:00Z }\n\
         verified:\n  - { by: human:a, at: 2026-01-02T00:00:00Z }\n  \
         - { at: 2026-01-03T00:00:00Z }\n",
    );
    let actors: Vec<_> = fm.actors().into_iter().map(|(actor, _)| actor).collect();
    assert_eq!(actors, ["agent/v1", "human:a"]);
}

#[test]
fn actors_is_empty_without_trust_fields() {
    assert!(frontmatter("type: X\n").actors().is_empty());
    assert!(
        frontmatter("generated: { at: 2026-01-01T00:00:00Z }\n")
            .actors()
            .is_empty()
    );
}

#[test]
fn identifies_attested_computations_and_their_runtime() {
    let fm = frontmatter("type: Attested Computation\nruntime: bigquery\n");
    assert!(fm.is_attested_computation());
    assert_eq!(fm.runtime(), Some("bigquery"));

    let other = frontmatter("type: Metric\n");
    assert!(!other.is_attested_computation());
    assert_eq!(other.runtime(), None);
}

#[test]
fn collects_path_valued_fields() {
    let fm = frontmatter(
        "computation: references/computations/revenue.sql\n\
         executor:\n  resource: references/skills/run-on-bq.md\n  \
         receipt: [job_id]\nattester:\n  resource: references/attesters/revenue.py\n",
    );
    let paths: Vec<_> = fm.path_fields().into_iter().map(|(path, _)| path).collect();
    assert_eq!(
        paths,
        [
            "references/computations/revenue.sql",
            "references/skills/run-on-bq.md",
            "references/attesters/revenue.py",
        ]
    );
}

#[test]
fn path_fields_skips_absent_and_malformed_shapes() {
    assert!(frontmatter("type: X\n").path_fields().is_empty());
    assert!(
        frontmatter("computation: [a]\nexecutor: plain\n")
            .path_fields()
            .is_empty()
    );
    assert!(
        frontmatter("executor:\n  receipt: [job_id]\n")
            .path_fields()
            .is_empty()
    );
    assert!(
        frontmatter("attester:\n  resource: [nested]\n")
            .path_fields()
            .is_empty()
    );
}

#[test]
fn reads_the_legacy_timestamp_and_okf_version() {
    assert!(
        frontmatter("timestamp: '2026-05-28T22:53:05+00:00'\n")
            .legacy_timestamp()
            .is_some()
    );
    assert!(frontmatter("type: X\n").legacy_timestamp().is_none());
    assert_eq!(
        frontmatter("okf_version: '0.2'\n").okf_version(),
        Some("0.2")
    );
    assert_eq!(frontmatter("type: X\n").okf_version(), None);
}

#[test]
fn later_verifications_win_ties_and_order_across_offsets() {
    let fm = frontmatter(
        "verified:\n  - { by: human:a, at: 2026-06-26T02:00:00+02:00 }\n  \
         - { by: process:n, at: 2026-06-26T00:30:00Z }\n",
    );
    assert_eq!(
        fm.last_verified_at().map(|t| t.date()),
        Date::parse("2026-06-26")
    );
}

#[test]
fn staleness_never_ends_once_reached() {
    let fm = frontmatter("stale_after: 2026-09-23\n");
    for later in ["2026-09-23", "2027-01-01", "2100-12-31"] {
        assert!(fm.is_stale_on(Date::parse(later).expect("valid")));
    }
}

#[test]
fn verification_times_are_checked_before_they_are_read() {
    let fm = frontmatter(
        "verified:\n  - { by: human:a, at: 2026-06-25T09:00:00Z }\n  - { by: process:m, at: bogus }\n",
    );
    assert!(fm.verified_times_readable());
    assert!(frontmatter("type: X\n").verified_times_readable());
    let cut = frontmatter("verified:\n  - { by: human:a, at: \"2026-06-25T09:00+1é1\" }\n");
    assert!(!cut.verified_times_readable());
}
