use okft::document::{Document, FrontmatterError};
use okft::span::{Position, Span};
use okft::value::Node;

#[test]
fn splits_frontmatter_from_body() {
    let doc = Document::parse("---\ntype: Metric\n---\n# Heading\n\nText.\n");
    let frontmatter = doc.frontmatter.parsed().expect("parsed");
    assert_eq!(
        frontmatter.entries.get("type").and_then(Node::as_str),
        Some("Metric")
    );
    assert_eq!(doc.body.text, "# Heading\n\nText.\n");
    assert_eq!(doc.body.start_line, 4);
    assert!(doc.frontmatter.error().is_none());
    assert!(!doc.frontmatter.is_absent());
}

#[test]
fn frontmatter_spans_point_at_file_lines() {
    let doc = Document::parse("---\ntype: Metric\ntitle: T\n---\nbody\n");
    let frontmatter = doc.frontmatter.parsed().expect("parsed");
    assert_eq!(
        frontmatter
            .entries
            .get("type")
            .expect("type")
            .span
            .start
            .line,
        2
    );
    assert_eq!(
        frontmatter
            .entries
            .get("title")
            .expect("title")
            .span
            .start
            .line,
        3
    );
    assert_eq!(frontmatter.span.start.line, 1);
}

#[test]
fn nested_spans_are_shifted_too() {
    let doc = Document::parse("---\nsources:\n  - id: a\n    resource: r\ntags: [x]\n---\n");
    let frontmatter = doc.frontmatter.parsed().expect("parsed");
    let sources = frontmatter.entries.get("sources").expect("sources");
    let first = &sources.as_sequence().expect("sequence")[0];
    assert_eq!(first.span.start.line, 3);
    let id = first.as_mapping().expect("mapping").get("id").expect("id");
    assert_eq!(id.span.start.line, 3);
    let tags = frontmatter.entries.get("tags").expect("tags");
    assert_eq!(tags.as_sequence().expect("seq")[0].span.start.line, 5);
}

#[test]
fn absent_frontmatter_keeps_whole_file_as_body() {
    let doc = Document::parse("# Just a heading\n");
    assert!(doc.frontmatter.is_absent());
    assert!(doc.frontmatter.parsed().is_none());
    assert!(doc.frontmatter.error().is_none());
    assert_eq!(doc.body.text, "# Just a heading\n");
    assert_eq!(doc.body.start_line, 1);
}

#[test]
fn a_leading_rule_that_is_not_a_delimiter_is_body() {
    let doc = Document::parse("----\nnot frontmatter\n");
    assert!(doc.frontmatter.is_absent());
}

#[test]
fn unterminated_block_is_malformed() {
    let doc = Document::parse("---\ntype: Metric\nno closing delimiter\n");
    let error = doc.frontmatter.error().expect("error");
    assert_eq!(
        *error,
        FrontmatterError::Unterminated {
            span: Span::at(Position::new(1, 1))
        }
    );
    assert!(error.message().contains("never closed"));
    assert_eq!(error.span().start.line, 1);
}

#[test]
fn bare_delimiter_only_file_is_unterminated() {
    let doc = Document::parse("---");
    assert!(matches!(
        doc.frontmatter.error(),
        Some(FrontmatterError::Unterminated { .. })
    ));
}

#[test]
fn invalid_yaml_is_malformed_with_a_shifted_position() {
    let doc = Document::parse("---\ntype: [unclosed\n---\nbody\n");
    let error = doc.frontmatter.error().expect("error");
    assert!(
        matches!(error, FrontmatterError::Invalid { .. }),
        "got {error:?}"
    );
    assert!(
        error.span().start.line >= 2,
        "position should be shifted past the opening ---"
    );
    assert!(error.message().starts_with("frontmatter is not valid YAML"));
}

#[test]
fn non_mapping_frontmatter_is_malformed() {
    let doc = Document::parse("---\n- one\n- two\n---\nbody\n");
    let error = doc.frontmatter.error().expect("error");
    assert!(matches!(error, FrontmatterError::NotAMapping { .. }));
    assert_eq!(
        error.message(),
        "frontmatter must be a mapping of keys to values"
    );
    assert_eq!(error.span().start.line, 2);
}

#[test]
fn empty_frontmatter_is_an_empty_mapping() {
    let doc = Document::parse("---\n---\nbody\n");
    let frontmatter = doc.frontmatter.parsed().expect("parsed");
    assert!(frontmatter.entries.is_empty());
    assert_eq!(doc.body.text, "body\n");
}

#[test]
fn handles_crlf_line_endings() {
    let doc = Document::parse("---\r\ntype: Metric\r\n---\r\nbody\r\n");
    let frontmatter = doc.frontmatter.parsed().expect("parsed");
    assert_eq!(
        frontmatter.entries.get("type").and_then(Node::as_str),
        Some("Metric")
    );
    assert_eq!(doc.body.text, "body\r\n");
}

#[test]
fn strips_a_utf8_byte_order_mark() {
    let doc = Document::parse("\u{feff}---\ntype: Metric\n---\n");
    assert!(doc.frontmatter.parsed().is_some());
}

#[test]
fn body_without_trailing_newline_parses() {
    let doc = Document::parse("---\ntype: Metric\n---\nlast line");
    assert_eq!(doc.body.text, "last line");
}

#[test]
fn empty_source_has_no_frontmatter() {
    let doc = Document::parse("");
    assert!(doc.frontmatter.is_absent());
    assert_eq!(doc.body.text, "");
}

#[test]
fn body_position_maps_offsets_to_file_lines() {
    let doc = Document::parse("---\ntype: Metric\n---\nalpha\nbravo\n");
    let body = &doc.body;
    assert_eq!(body.position_at(0), Position::new(4, 1));
    assert_eq!(body.position_at(2), Position::new(4, 3));
    assert_eq!(body.position_at(6), Position::new(5, 1));
    assert_eq!(body.position_at(9), Position::new(5, 4));
}

#[test]
fn body_position_clamps_past_the_end() {
    let doc = Document::parse("---\ntype: Metric\n---\nabc\n");
    assert_eq!(
        doc.body.position_at(9_999),
        doc.body.position_at(doc.body.text.len())
    );
}

#[test]
fn body_span_covers_a_range() {
    let doc = Document::parse("---\ntype: Metric\n---\nalpha\nbravo\n");
    let span = doc.body.span_at(6..11);
    assert_eq!(span.start, Position::new(5, 1));
    assert_eq!(span.end, Position::new(5, 6));
}

#[test]
fn closing_delimiter_with_trailing_spaces_is_not_a_delimiter() {
    let doc = Document::parse("---\ntype: Metric\n--- \nbody\n");
    assert!(matches!(
        doc.frontmatter.error(),
        Some(FrontmatterError::Unterminated { .. })
    ));
}

#[test]
fn body_position_counts_multibyte_characters_as_bytes() {
    let doc = Document::parse("---\ntype: Metric\n---\n\u{e9}t\u{e9}\nx\n");
    assert_eq!(doc.body.position_at(2), Position::new(4, 3));
    assert_eq!(doc.body.position_at(6), Position::new(5, 1));
}

#[test]
fn a_scalar_block_is_not_a_mapping() {
    let doc = Document::parse("---\njust text\n---\n");
    assert!(matches!(
        doc.frontmatter.error(),
        Some(FrontmatterError::NotAMapping { .. })
    ));
}
