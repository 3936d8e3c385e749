use okft::span::{Position, Span};
use okft::value::{convert, Mapping, Node, RawData, RawMark, RawNode, Value};

fn parse(source: &str) -> Node {
    Node::parse(source).expect("parses")
}

#[test]
fn parses_scalars_into_typed_values() {
    let node = parse("s: hello\nb: true\ni: 42\nf: 1.5\nn: null\n");
    let map = node.as_mapping().expect("mapping");
    assert_eq!(map.get("s").and_then(Node::as_str), Some("hello"));
    assert_eq!(map.get("b").and_then(Node::as_bool), Some(true));
    assert_eq!(map.get("i").and_then(Node::as_int), Some(42));
    assert!(matches!(
        map.get("f").map(|n| &n.value),
        Some(Value::Float(text)) if text == "1.5"
    ));
    assert!(map.get("n").expect("n").is_null());
}

#[test]
fn preserves_key_order() {
    let node = parse("z: 1\na: 2\nm: 3\n");
    let map = node.as_mapping().expect("mapping");
    assert_eq!(map.keys(), ["z", "a", "m"]);
    assert_eq!(map.len(), 3);
    assert!(!map.is_empty());
}

#[test]
fn records_spans_for_nested_values() {
    let node = parse("type: Metric\ntags:\n  - finance\n");
    let map = node.as_mapping().expect("mapping");
    assert_eq!(map.get("type").expect("type").span.start.line, 1);

    let tags = map
        .get("tags")
        .expect("tags")
        .as_sequence()
        .expect("sequence");
    assert_eq!(tags.len(), 1);
    assert_eq!(tags[0].span.start.line, 3);
}

#[test]
fn entry_exposes_the_key_node_for_anchoring() {
    let node = parse("alpha: 1\nbeta: 2\n");
    let map = node.as_mapping().expect("mapping");
    let (key, value) = map.entry("beta").expect("beta");
    assert_eq!(key.as_str(), Some("beta"));
    assert_eq!(value.as_int(), Some(2));
    assert_eq!(key.span.start.line, 2);
    assert!(map.contains_key("alpha"));
    assert!(!map.contains_key("gamma"));
    assert!(map.entry("gamma").is_none());
}

#[test]
fn duplicate_keys_collapse_to_the_last_value() {
    let node = parse("{ a: 1, a: 2 }");
    let map = node.as_mapping().expect("mapping");
    assert_eq!(map.len(), 1);
    assert_eq!(map.get("a").and_then(Node::as_int), Some(2));
}

#[test]
fn non_string_keys_are_skipped_by_keys() {
    let node = parse("{ 1: one, real: yes }");
    let map = node.as_mapping().expect("mapping");
    assert_eq!(map.keys(), ["real"]);
}

#[test]
fn empty_document_is_null() {
    let node = parse("");
    assert!(node.is_null());
    assert_eq!(node.span, Span::default());
}

#[test]
fn reports_position_of_malformed_yaml() {
    let error = Node::parse("a: [1, 2\nb: 3\n").expect_err("should fail");
    assert!(error.position.line >= 1);
    assert!(!error.message.is_empty());
}

#[test]
fn accessors_return_none_for_other_shapes() {
    let node = parse("seq: [1]\nmap: { a: 1 }\ntext: hi\n");
    let map = node.as_mapping().expect("mapping");
    let seq = map.get("seq").expect("seq");
    let inner = map.get("map").expect("map");
    let text = map.get("text").expect("text");

    assert!(seq.as_str().is_none());
    assert!(seq.as_bool().is_none());
    assert!(seq.as_int().is_none());
    assert!(seq.as_mapping().is_none());
    assert!(!seq.is_null());
    assert!(inner.as_sequence().is_none());
    assert!(text.as_sequence().is_none());
    assert!(text.as_mapping().is_none());
    assert!(inner.as_mapping().is_some());
}

#[test]
fn scalar_text_renders_scalars_only() {
    let node = parse("s: hi\nb: false\ni: 7\nf: 2.5\nn: null\nseq: [1]\nmap: { a: 1 }\n");
    let map = node.as_mapping().expect("mapping");
    assert_eq!(
        map.get("s").and_then(Node::scalar_text).as_deref(),
        Some("hi")
    );
    assert_eq!(
        map.get("b").and_then(Node::scalar_text).as_deref(),
        Some("false")
    );
    assert_eq!(
        map.get("i").and_then(Node::scalar_text).as_deref(),
        Some("7")
    );
    assert_eq!(
        map.get("f").and_then(Node::scalar_text).as_deref(),
        Some("2.5")
    );
    assert_eq!(
        map.get("n").and_then(Node::scalar_text).as_deref(),
        Some("null")
    );
    assert!(map.get("seq").and_then(Node::scalar_text).is_none());
    assert!(map.get("map").and_then(Node::scalar_text).is_none());
}

#[test]
fn empty_mapping_helpers() {
    let map = Mapping::default();
    assert!(map.is_empty());
    assert_eq!(map.len(), 0);
    assert!(map.entries().is_empty());
    assert!(map.get("anything").is_none());
}

#[test]
fn node_new_pairs_value_with_span() {
    let span = Span::at(Position::new(2, 3));
    let node = Node::new(Value::Bool(true), span);
    assert_eq!(node.as_bool(), Some(true));
    assert_eq!(node.span, span);
}

#[test]
fn aliases_resolve_to_their_anchor() {
    let node = parse("a: &x 1\nb: *x\n");
    let map = node.as_mapping().expect("mapping");
    assert_eq!(map.get("b").and_then(Node::as_int), Some(1));
}

#[test]
fn custom_tags_unwrap_to_their_inner_value() {
    let node = parse("tagged: !Custom 7\n");
    let map = node.as_mapping().expect("mapping");
    assert_eq!(map.get("tagged").and_then(Node::as_int), Some(7));
}

#[test]
fn unbuildable_scalars_become_null_instead_of_failing() {
    let node = parse("data: !!binary aGk=\n");
    let map = node.as_mapping().expect("mapping");
    assert!(map.get("data").expect("data").is_null());
}

#[test]
fn loader_internal_variants_convert() {
    let mark = RawMark { line: 1, col: 0 };
    let alias = RawNode { data: RawData::Alias(0), start: mark, end: mark };
    assert!(convert(&alias).is_null());

    let representation = RawNode {
        data: RawData::Representation("raw".to_owned()),
        start: mark,
        end: mark,
    };
    assert_eq!(convert(&representation).as_str(), Some("raw"));
}

#[test]
fn spans_use_one_indexed_columns() {
    let node = parse("key: value\n");
    let map = node.as_mapping().expect("mapping");
    let (key, value) = map.entry("key").expect("key");
    assert_eq!(key.span.start, Position::new(1, 1));
    assert_eq!(value.span.start, Position::new(1, 6));
}

#[test]
fn negative_integers_render_with_a_sign() {
    let node = parse("n: -42\nbig: -9223372036854775808\n");
    let map = node.as_mapping().expect("mapping");
    assert_eq!(map.get("n").and_then(Node::scalar_text).as_deref(), Some("-42"));
    assert_eq!(
        map.get("big").and_then(Node::scalar_text).as_deref(),
        Some("-9223372036854775808")
    );
}

#[test]
fn only_the_first_document_is_kept() {
    let node = parse("a: 1\n---\nb: 2\n");
    let map = node.as_mapping().expect("mapping");
    assert!(map.contains_key("a"));
    assert!(!map.contains_key("b"));
}

#[test]
fn parse_errors_point_at_one_indexed_columns() {
    let error = Node::parse("a: [1, 2\nb: 3\n").expect_err("should fail");
    assert!(error.position.column >= 1);
    assert!(error.message.contains("line"));
}
