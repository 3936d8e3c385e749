use okft::bundle::Bundle;
use okft::date::Date;
use okft::graph::{build, json_string, Graph, NodeData, DEFAULT_NODE_COLOR};

fn today() -> Date {
    Date::parse("2026-06-01").expect("valid")
}

fn bundle() -> Bundle {
    Bundle::from_sources(&[
        ("index.md", "# Bundle\n\n* [orders](tables/orders.md)\n"),
        ("log.md", "# Log\n\n## 2026-01-01\n"),
        (
            "tables/orders.md",
            "---\ntype: BigQuery Table\ntitle: Orders\ndescription: One row per order.\n\
             resource: https://example.com/orders\ntags: [sales]\nstatus: stable\n\
             generated: { by: agent/v1, at: 2026-01-01T00:00:00Z }\n\
             verified: { by: human:gal, at: 2026-01-02T00:00:00Z }\nstale_after: 2026-12-31\n\
             sources:\n  - id: s1\n    resource: https://example.com\n    title: Schema\n    \
             author: team:data\n    usage_count: 42\n    last_modified: 2026-01-01\n---\n\n\
             Joins [customers](/tables/customers.md) and [itself](/tables/orders.md), \
             plus the [log](/log.md).\n",
        ),
        (
            "tables/customers.md",
            "---\ntype: BigQuery Table\ntitle: Customers\n---\n",
        ),
        ("tables/untyped.md", "---\ntitle: No type\n---\nshort\n"),
    ])
}

fn node_data<'a>(graph: &'a Graph, id: &str) -> &'a NodeData {
    graph
        .nodes
        .iter()
        .find(|n| n.id == id)
        .expect("the node exists")
}

#[test]
fn reserved_files_are_not_nodes() {
    let graph = build(&bundle(), today());
    let ids: Vec<&str> = graph.nodes.iter().map(|n| n.id.as_str()).collect();
    assert_eq!(ids.len(), 3);
    assert!(!ids.contains(&"index"));
    assert!(!ids.contains(&"log"));
}

#[test]
fn nodes_carry_the_full_frontmatter_contract() {
    let graph = build(&bundle(), today());
    let data = node_data(&graph, "tables/orders");
    assert_eq!(data.label, "Orders");
    assert_eq!(data.concept_type, "BigQuery Table");
    assert_eq!(data.description, "One row per order.");
    assert_eq!(data.resource, "https://example.com/orders");
    assert_eq!(data.tags, ["sales"]);
    assert_eq!(data.status, "stable");
    assert_eq!(data.generated.as_ref().expect("generated").by, "agent/v1");
    assert_eq!(data.verified[0].by, "human:gal");
    assert_eq!(data.stale_after, "2026-12-31");
    assert_eq!(data.trust_tier, "human-reviewed");
    assert!(!data.stale);
    assert_eq!(data.color, "#3b82f6");
    assert_eq!(data.sources[0].usage_count, Some(42));
    assert_eq!(data.sources[0].author, "team:data");
}

#[test]
fn staleness_follows_the_supplied_date() {
    let graph = build(&bundle(), Date::parse("2027-01-01").expect("valid"));
    assert!(node_data(&graph, "tables/orders").stale);
}

#[test]
fn untyped_concepts_fall_back_to_defaults() {
    let graph = build(&bundle(), today());
    let data = node_data(&graph, "tables/untyped");
    assert_eq!(data.concept_type, "Unknown");
    assert_eq!(data.label, "No type");
    assert_eq!(data.color, DEFAULT_NODE_COLOR);
    assert_eq!(data.trust_tier, "unverified");
    assert!(data.generated.is_none());
    assert!(data.verified.is_empty());
    assert!(data.sources.is_empty());
    assert_eq!(data.stale_after, "");
}

#[test]
fn a_concept_without_a_title_is_labelled_by_id() {
    let bundle = Bundle::from_sources(&[("a/b.md", "---\ntype: X\n---\n")]);
    let graph = build(&bundle, today());
    assert_eq!(node_data(&graph, "a/b").label, "a/b");
}

#[test]
fn node_size_grows_with_the_body_and_is_capped() {
    let small = Bundle::from_sources(&[("a.md", "---\ntype: X\n---\ntiny\n")]);
    assert_eq!(node_data(&build(&small, today()), "a").size, 30);

    let body = "x".repeat(200 * 100);
    let source = format!("---\ntype: X\n---\n{body}");
    let large = Bundle::from_sources(&[("a.md", source.as_str())]);
    assert_eq!(node_data(&build(&large, today()), "a").size, 90);
}

#[test]
fn node_size_counts_bytes_in_steps_of_two_hundred() {
    let body = "x".repeat(200 * 7 + 199);
    let source = format!("---\ntype: X\n---\n{body}");
    let bundle = Bundle::from_sources(&[("a.md", source.as_str())]);
    assert_eq!(node_data(&build(&bundle, today()), "a").size, 37);
}

#[test]
fn edges_skip_self_links_and_reserved_targets() {
    let graph = build(&bundle(), today());
    let pairs: Vec<(String, String)> = graph
        .edges
        .iter()
        .map(|e| (e.source.clone(), e.target.clone()))
        .collect();
    assert_eq!(
        pairs,
        [("tables/orders".to_owned(), "tables/customers".to_owned())]
    );
    assert_eq!(graph.edges[0].id, "tables/orders__tables/customers");
}

#[test]
fn edges_to_missing_concepts_are_dropped() {
    let bundle = Bundle::from_sources(&[("a.md", "---\ntype: X\n---\n[gone](/nowhere.md)\n")]);
    assert!(build(&bundle, today()).edges.is_empty());
}

#[test]
fn repeated_links_produce_one_edge() {
    let bundle = Bundle::from_sources(&[
        (
            "a.md",
            "---\ntype: X\n---\n[b](/b.md) and [b again](/b.md)\n",
        ),
        ("b.md", "---\ntype: X\n---\n"),
    ]);
    assert_eq!(build(&bundle, today()).edges.len(), 1);
}

#[test]
fn bodies_types_and_palette_are_populated() {
    let graph = build(&bundle(), today());
    let orders = graph
        .bodies
        .iter()
        .find(|(id, _)| id == "tables/orders")
        .expect("body");
    assert!(orders.1.contains("Joins [customers]"));
    assert_eq!(graph.types, ["BigQuery Table", "Unknown"]);
    let table = graph
        .palette
        .iter()
        .find(|(name, _)| name == "BigQuery Table")
        .expect("palette entry");
    assert_eq!(table.1, "#3b82f6");
    assert_eq!(graph.palette.len(), 3);
}

#[test]
fn an_empty_bundle_produces_an_empty_graph() {
    let graph = build(&Bundle::default(), today());
    assert!(graph.nodes.is_empty());
    assert!(graph.edges.is_empty());
    assert!(graph.types.is_empty());
    assert!(graph.bodies.is_empty());
}

#[test]
fn concepts_with_unparseable_frontmatter_still_appear() {
    let bundle = Bundle::from_sources(&[("a.md", "---\n[unclosed\n---\nbody text\n")]);
    let graph = build(&bundle, today());
    let data = node_data(&graph, "a");
    assert_eq!(data.concept_type, "Unknown");
    assert_eq!(data.label, "a");
    assert_eq!(data.status, "stable");
}

#[test]
fn the_palette_is_sorted_by_type() {
    let graph = build(&Bundle::default(), today());
    let names: Vec<&str> = graph.palette.iter().map(|(n, _)| n.as_str()).collect();
    assert_eq!(names, ["BigQuery Dataset", "BigQuery Table", "Reference"]);
    assert_eq!(graph.palette[0].1, "#8b5cf6");
    assert_eq!(graph.palette[2].1, "#10b981");
}

#[test]
fn edges_keep_the_order_links_first_name_them() {
    let bundle = Bundle::from_sources(&[
        ("a.md", "---\ntype: X\n---\n[c](/c.md) [b](/b.md) [c](/c.md)\n"),
        ("b.md", "---\ntype: Reference\n---\n[a](/a.md)\n"),
        ("c.md", "---\ntype: X\n---\n"),
    ]);
    let graph = build(&bundle, today());
    let ids: Vec<&str> = graph.edges.iter().map(|e| e.id.as_str()).collect();
    assert_eq!(ids, ["a__c", "a__b", "b__a"]);
    assert_eq!(node_data(&graph, "b").color, "#10b981");
}

#[test]
fn the_graph_serializes_to_the_expected_top_level_shape() {
    let value: serde_json::Value =
        serde_json::from_str(&build(&bundle(), today()).render_data()).expect("serializes");
    for key in ["nodes", "edges", "bodies", "types", "palette"] {
        assert!(value.get(key).is_some(), "missing {key}");
    }
}

#[test]
fn the_viewer_data_holds_each_node_under_data() {
    let graph = build(&bundle(), today());
    let value: serde_json::Value =
        serde_json::from_str(&graph.render_data()).expect("serializes");
    let nodes = value["nodes"].as_array().expect("nodes");
    assert_eq!(nodes.len(), graph.nodes.len());
    let orders = nodes
        .iter()
        .find(|n| n["data"]["id"] == "tables/orders")
        .expect("orders node");
    let data = &orders["data"];
    assert_eq!(data["type"], "BigQuery Table");
    assert_eq!(data["label"], "Orders");
    assert_eq!(data["tags"][0], "sales");
    assert_eq!(data["generated"]["by"], "agent/v1");
    assert_eq!(data["verified"][0]["by"], "human:gal");
    assert_eq!(data["sources"][0]["usage_count"], 42);
    assert_eq!(data["sources"][0]["title"], "Schema");
    let customers = nodes
        .iter()
        .find(|n| n["data"]["id"] == "tables/customers")
        .expect("customers node");
    assert!(customers["data"]["generated"].as_object().expect("object").is_empty());
    assert_eq!(value["edges"].as_array().expect("edges").len(), graph.edges.len());
    assert!(value["bodies"]["tables/orders"].as_str().expect("body").contains("Joins"));
    assert_eq!(value["types"].as_array().expect("types").len(), graph.types.len());
    assert!(!graph.render_data().contains('\n'));
}

#[test]
fn a_bundle_name_is_quoted_for_the_page() {
    assert_eq!(json_string("my \"kb\""), "\"my \\\"kb\\\"\"");
}

#[test]
fn the_viewer_data_lists_its_members_in_declaration_order() {
    let text = build(&bundle(), today()).render_data();
    assert!(text.starts_with("{\"nodes\":[{\"data\":{"));
    assert!(text.ends_with('}'));
    let at = |key: &str| text.find(&format!("\"{key}\":")).expect("member present");
    assert!(at("nodes") < at("edges"));
    assert!(at("edges") < at("bodies"));
    assert!(at("bodies") < at("types"));
    assert!(at("types") < at("palette"));
    assert!(text.contains(",\"palette\":{\"BigQuery Dataset\":\"#8b5cf6\","));
}
