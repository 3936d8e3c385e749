use okft::concept_id::ConceptId;
use okft::document::Body;
use okft::links::{extract, has_uri_scheme, Link, LinkKind};
use okft::span::Span;

fn body(text: &str) -> Body {
    Body {
        text: text.to_owned(),
        start_line: 1,
    }
}

fn id(path: &str) -> ConceptId {
    ConceptId::from_relative_path(path).expect("valid id")
}

#[test]
fn classifies_the_two_link_forms_and_external_targets() {
    let found = extract(&body(
        "[a](/tables/orders.md) [b](./other.md) [c](https://example.com) [d](mailto:x@y.z)\n",
    ));
    let kinds: Vec<_> = found.links.iter().map(|l| l.kind).collect();
    assert_eq!(
        kinds,
        [
            LinkKind::BundleAbsolute,
            LinkKind::Relative,
            LinkKind::External,
            LinkKind::External
        ]
    );
}

#[test]
fn resolves_both_recommended_and_relative_forms() {
    let found = extract(&body("[a](/tables/orders.md) [b](../metrics/revenue.md)\n"));
    let from = id("tables/customers.md");
    assert_eq!(found.links[0].resolve(&from), Some(id("tables/orders.md")));
    assert_eq!(
        found.links[1].resolve(&from),
        Some(id("metrics/revenue.md"))
    );
}

#[test]
fn resolves_relative_links_from_the_bundle_root() {
    let found = extract(&body("[a](tables/orders.md)\n"));
    assert_eq!(
        found.links[0].resolve(&id("index.md")),
        Some(id("tables/orders.md"))
    );
}

#[test]
fn normalises_dot_segments() {
    let found = extract(&body("[a](./sub/../orders.md) [b](/./a/b/../c.md)\n"));
    let from = id("tables/customers.md");
    assert_eq!(found.links[0].resolve(&from), Some(id("tables/orders.md")));
    assert_eq!(found.links[1].resolve(&from), Some(id("a/c.md")));
}

#[test]
fn strips_fragments_and_queries_before_resolving() {
    let found = extract(&body(
        "[a](/tables/orders.md#schema) [b](/tables/orders.md?v=1)\n",
    ));
    let from = id("index.md");
    assert_eq!(found.links[0].resolve(&from), Some(id("tables/orders.md")));
    assert_eq!(found.links[1].resolve(&from), Some(id("tables/orders.md")));
}

#[test]
fn does_not_resolve_external_or_non_markdown_targets() {
    let found = extract(&body(
        "[a](https://example.com/x.md) [b](/tables/orders.csv) [c](subdir/) [d](#anchor)\n",
    ));
    let from = id("index.md");
    for link in &found.links {
        assert_eq!(
            link.resolve(&from),
            None,
            "{} should not resolve",
            link.target
        );
    }
}

#[test]
fn refuses_to_climb_out_of_the_bundle() {
    let found = extract(&body("[a](../../outside.md)\n"));
    assert_eq!(found.links[0].resolve(&id("tables/orders.md")), None);
}

#[test]
fn resolves_to_none_when_the_path_is_only_dots() {
    let found = extract(&body("[a](./.md)\n"));
    assert_eq!(found.links[0].resolve(&id("index.md")), None);
}

#[test]
fn records_link_spans_against_the_file() {
    let found = extract(&Body {
        text: "line one\n\nsee [orders](/tables/orders.md)\n".to_owned(),
        start_line: 5,
    });
    assert_eq!(found.links.len(), 1);
    assert_eq!(found.links[0].span.start.line, 7);
}

#[test]
fn collects_footnote_references_and_definitions() {
    let found = extract(&body(
        "Sharded daily.[^ga4-schema]\n\n[^ga4-schema]: GA4 BigQuery Export schema\n",
    ));
    assert_eq!(found.footnotes.len(), 1);
    assert_eq!(found.footnotes[0].label, "ga4-schema");
    assert_eq!(found.footnote_definitions, ["ga4-schema"]);
    assert_eq!(found.footnotes[0].span.start.line, 1);
}

#[test]
fn collects_headings_with_their_levels() {
    let found = extract(&body("# Schema\n\n## Columns\n\n# Citations\n\ntext\n"));
    let levels: Vec<_> = found
        .headings
        .iter()
        .map(|h| (h.level, h.text.as_str()))
        .collect();
    assert_eq!(levels, [(1, "Schema"), (2, "Columns"), (1, "Citations")]);

    let top: Vec<_> = found.headings_at(1).iter().map(|h| h.text.as_str()).collect();
    assert_eq!(top, ["Schema", "Citations"]);
    assert_eq!(found.headings_at(2).len(), 1);
    assert_eq!(found.headings_at(3).len(), 0);
}

#[test]
fn heading_text_includes_inline_code() {
    let found = extract(&body("# The `orders` table\n"));
    assert_eq!(found.headings[0].text, "The orders table");
}

#[test]
fn heading_spans_point_at_the_file() {
    let found = extract(&Body {
        text: "intro\n\n## 2026-05-22\n".to_owned(),
        start_line: 6,
    });
    let heading = *found.headings_at(2).first().expect("heading");
    assert_eq!(heading.span.start.line, 8);
}

#[test]
fn links_inside_headings_are_still_collected() {
    let found = extract(&body("# See [orders](/t/orders.md)\n"));
    assert_eq!(found.links.len(), 1);
    assert_eq!(found.headings[0].text, "See orders");
}

#[test]
fn ignores_links_inside_fenced_code_blocks() {
    let found = extract(&body("```\n[not a link](/x.md)\n```\n"));
    assert!(found.links.is_empty());
}

#[test]
fn finds_links_inside_tables() {
    let found = extract(&body(
        "| Column | Description |\n|---|---|\n| a | [c](/t/c.md) |\n",
    ));
    assert_eq!(found.links.len(), 1);
    assert_eq!(found.links[0].resolve(&id("index.md")), Some(id("t/c.md")));
}

#[test]
fn empty_body_yields_nothing() {
    let found = extract(&body(""));
    assert!(found.links.is_empty());
    assert!(found.footnotes.is_empty());
    assert!(found.footnote_definitions.is_empty());
    assert!(found.headings.is_empty());
}

#[test]
fn distinguishes_schemes_from_colons_in_paths() {
    assert!(has_uri_scheme("https://example.com"));
    assert!(has_uri_scheme("mailto:someone@example.com"));
    assert!(has_uri_scheme("c://drive"));
    assert!(!has_uri_scheme("C:/Users/file.md"));
    assert!(!has_uri_scheme("plain.md"));
    assert!(!has_uri_scheme(":leading.md"));
    assert!(!has_uri_scheme("1scheme:x"));
    assert!(!has_uri_scheme("has space:x"));
}

#[test]
fn resolve_returns_none_for_an_empty_target() {
    let link = Link {
        target: String::new(),
        kind: LinkKind::Relative,
        span: Span::default(),
    };
    assert_eq!(link.resolve(&id("index.md")), None);
}

#[test]
fn external_links_never_resolve() {
    let link = Link {
        target: "https://example.com/a.md".to_owned(),
        kind: LinkKind::External,
        span: Span::default(),
    };
    assert_eq!(link.resolve(&id("index.md")), None);
    let forced = Link {
        target: "/a.md".to_owned(),
        kind: LinkKind::External,
        span: Span::default(),
    };
    assert_eq!(forced.resolve(&id("index.md")), None);
}

#[test]
fn bundle_absolute_links_ignore_the_linking_document() {
    let found = extract(&body("[a](/tables/orders.md)\n"));
    assert_eq!(
        found.links[0].resolve(&id("x/y/z.md")),
        found.links[0].resolve(&id("index.md"))
    );
}

#[test]
fn markdown_extension_is_case_sensitive() {
    let found = extract(&body("[a](/tables/ORDERS.MD) [b](/.md) [c](/a/..)\n"));
    for link in &found.links {
        assert_eq!(link.resolve(&id("index.md")), None, "{}", link.target);
    }
}
