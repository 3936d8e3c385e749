use okft::bundle::Bundle;
use okft::concept_id::ConceptId;
use okft::date::Date;
use okft::mcp::{
    concept_type, render_ids, ConceptRequest, ListRequest, OkfServer, SearchRequest, ToolReply,
    INSTRUCTIONS,
};

fn bundle() -> Bundle {
    Bundle::from_sources(&[
        ("index.md", "# Bundle\n\n* [orders](tables/orders.md)\n"),
        (
            "tables/orders.md",
            "---\ntype: BigQuery Table\ntitle: Customer Orders\n\
             description: One row per completed order.\ntags: [sales, revenue]\n\
             resource: https://console.cloud.google.com/bigquery?t=orders\n\
             generated: { by: human:gal, at: 2026-01-01T00:00:00Z }\n\
             verified: { by: human:gal, at: 2026-01-02T00:00:00Z }\n\
             status: stable\nstale_after: 2026-12-31\n\
             sources:\n  - id: s1\n    title: Schema doc\n    resource: https://example.com\n\
             ---\n\nJoins [customers](/tables/customers.md) on `customer_id`.\n",
        ),
        (
            "tables/customers.md",
            "---\ntype: BigQuery Table\ntitle: Customers\ndescription: One row per customer.\n---\n\
             \nNothing special.\n",
        ),
        ("tables/broken.md", "---\n[unclosed\n---\nbody\n"),
    ])
}

fn server() -> OkfServer {
    OkfServer::new(bundle(), Date::parse("2026-06-01").expect("valid"))
}

fn call(reply: ToolReply) -> String {
    reply.text
}

#[test]
fn exposes_the_bundle_it_was_built_with() {
    assert_eq!(server().bundle().concepts().len(), 3);
}

#[test]
fn search_matches_titles_descriptions_tags_ids_and_bodies() {
    let server = server();
    for query in [
        "customer orders",
        "completed order",
        "revenue",
        "tables/orders",
        "join",
    ] {
        let found = call(server.search(&SearchRequest {
                query: query.to_owned(),
                limit: None,
            }));
        assert!(
            found.contains("tables/orders"),
            "query {query:?} found: {found}"
        );
    }
}

#[test]
fn search_requires_every_term_but_not_adjacency() {
    let server = server();
    let found = call(server.search(&SearchRequest {
            query: "orders customer".to_owned(),
            limit: None,
        }));
    assert!(found.contains("tables/orders"), "got {found}");

    let missing = call(server.search(&SearchRequest {
            query: "orders kangaroo".to_owned(),
            limit: None,
        }));
    assert!(missing.contains("No concepts match"), "got {missing}");
}

#[test]
fn an_empty_query_matches_nothing() {
    let server = server();
    let found = call(server.search(&SearchRequest {
            query: "   ".to_owned(),
            limit: None,
        }));
    assert!(found.contains("No concepts match"));
}

#[test]
fn search_reports_when_nothing_matches() {
    let server = server();
    let found = call(server.search(&SearchRequest {
            query: "kangaroo".to_owned(),
            limit: None,
        }));
    assert!(found.contains("No concepts match"));
}

#[test]
fn search_respects_the_limit() {
    let server = server();
    let found = call(server.search(&SearchRequest {
            query: "table".to_owned(),
            limit: Some(1),
        }));
    assert_eq!(found.matches("- tables/").count(), 1);

    // A zero limit would return nothing useful, so it is clamped to one.
    let clamped = call(server.search(&SearchRequest {
            query: "table".to_owned(),
            limit: Some(0),
        }));
    assert_eq!(clamped.matches("- tables/").count(), 1);
}

#[test]
fn search_skips_concepts_whose_frontmatter_failed_to_parse() {
    let server = server();
    let found = call(server.search(&SearchRequest {
            query: "unclosed".to_owned(),
            limit: None,
        }));
    assert!(found.contains("No concepts match"), "got {found}");
}

#[test]
fn read_returns_frontmatter_and_body() {
    let server = server();
    let document = call(server.read(&ConceptRequest {
            id: "tables/orders".to_owned(),
        }));
    assert!(document.contains("type: BigQuery Table"));
    assert!(document.contains("title: Customer Orders"));
    assert!(document.contains("tags: sales, revenue"));
    assert!(document.contains("trust: human-reviewed"));
    assert!(document.contains("Joins [customers]"));
}

#[test]
fn read_includes_the_resource_uri_when_present() {
    let server = server();
    let document = call(server.read(&ConceptRequest {
            id: "tables/orders".to_owned(),
        }));
    assert!(document.contains("resource: https://console.cloud.google.com/bigquery?t=orders"));
}

#[test]
fn read_still_returns_the_body_when_frontmatter_is_unparseable() {
    let server = server();
    let document = call(server.read(&ConceptRequest {
            id: "tables/broken".to_owned(),
        }));
    assert!(document.contains("tables/broken"));
    assert!(document.contains("body"));
    assert!(!document.contains("type:"));
}

#[test]
fn read_accepts_a_resource_uri_as_well_as_a_bare_id() {
    let server = server();
    let bare = call(server.read(&ConceptRequest {
            id: "tables/orders".to_owned(),
        }));
    let uri = call(server.read(&ConceptRequest {
            id: "okf://tables/orders".to_owned(),
        }));
    assert_eq!(bare, uri);
}

#[test]
fn read_reports_unknown_concepts_with_suggestions() {
    let server = server();
    let result = server.read(&(ConceptRequest {
        id: "nope".to_owned(),
    }));
    assert_eq!(result.is_error, true);
    let text = result.text;
    assert!(text.contains("No concept `nope`"));
    assert!(text.contains("tables/orders"));
}

#[test]
fn reserved_files_are_not_readable_as_concepts() {
    let server = server();
    let result = server.read(&(ConceptRequest {
        id: "index".to_owned(),
    }));
    assert_eq!(result.is_error, true);
}

#[test]
fn read_rejects_ids_that_escape_the_bundle() {
    let server = server();
    let result = server.read(&(ConceptRequest {
        id: "../escape".to_owned(),
    }));
    assert_eq!(result.is_error, true);
}

#[test]
fn list_enumerates_and_filters_by_type() {
    let server = server();
    let all = call(server.list(&ListRequest { concept_type: None }));
    assert!(all.contains("3 concept(s)"));
    assert!(
        all.contains("[untyped]"),
        "the unparseable concept should still be listed"
    );

    let filtered = call(server.list(&ListRequest {
            concept_type: Some("bigquery table".to_owned()),
        }));
    assert!(filtered.contains("2 concept(s)"));
    assert!(!filtered.contains("broken"));

    let none = call(server.list(&ListRequest {
            concept_type: Some("Nonexistent".to_owned()),
        }));
    assert!(none.contains("No concepts match"));
}

#[test]
fn related_reports_links_in_both_directions() {
    let server = server();
    let orders = call(server.related(&ConceptRequest {
            id: "tables/orders".to_owned(),
        }));
    assert!(orders.contains("- tables/customers"));

    let customers = call(server.related(&ConceptRequest {
            id: "tables/customers".to_owned(),
        }));
    assert!(customers.contains("- tables/orders"));
}

#[test]
fn related_shows_none_for_an_unconnected_concept() {
    let server = server();
    let broken = call(server.related(&ConceptRequest {
            id: "tables/broken".to_owned(),
        }));
    assert_eq!(broken.matches("(none)").count(), 2);
}

#[test]
fn related_reports_unknown_concepts() {
    let server = server();
    let result = server.related(&(ConceptRequest {
        id: "nope".to_owned(),
    }));
    assert_eq!(result.is_error, true);
}

#[test]
fn trust_reports_the_provenance_families() {
    let server = server();
    let report = call(server.trust(&ConceptRequest {
            id: "tables/orders".to_owned(),
        }));
    assert!(report.contains("trust tier: human-reviewed"));
    assert!(report.contains("status: stable"));
    assert!(report.contains("generated: human:gal at 2026-01-01T00:00:00Z"));
    assert!(report.contains("verified: human:gal at 2026-01-02T00:00:00Z"));
    assert!(report.contains("stale_after: 2026-12-31 (fresh as of 2026-06-01)"));
    assert!(report.contains("source: Schema doc (https://example.com)"));
}

#[test]
fn trust_reports_staleness_against_the_fixed_date() {
    let server = OkfServer::new(bundle(), Date::parse("2027-01-01").expect("valid"));
    let report = call(server.trust(&ConceptRequest {
            id: "tables/orders".to_owned(),
        }));
    assert!(report.contains("(STALE as of 2027-01-01)"));
}

#[test]
fn trust_on_a_concept_without_provenance_is_still_useful() {
    let server = server();
    let report = call(server.trust(&ConceptRequest {
            id: "tables/customers".to_owned(),
        }));
    assert!(report.contains("trust tier: unverified"));
    assert!(report.contains("status: stable"));
}

#[test]
fn trust_explains_when_frontmatter_could_not_be_parsed() {
    let server = server();
    let report = call(server.trust(&ConceptRequest {
            id: "tables/broken".to_owned(),
        }));
    assert!(report.contains("could not be parsed"));
}

#[test]
fn trust_reports_unknown_concepts() {
    let server = server();
    let result = server.trust(&(ConceptRequest {
        id: "nope".to_owned(),
    }));
    assert_eq!(result.is_error, true);
}


#[test]
fn concept_type_falls_back_to_untyped() {
    let server = server();
    let broken = server
        .bundle()
        .get(&ConceptId::from_relative_path("tables/broken").unwrap())
        .expect("entry");
    assert_eq!(concept_type(broken), "untyped");
}

#[test]
fn rendering_ids_handles_the_empty_case() {
    assert_eq!(render_ids(&[]), "  (none)\n");
}

#[test]
fn rendering_ids_lists_one_per_line() {
    let ids = [
        ConceptId::from_relative_path("a.md").unwrap(),
        ConceptId::from_relative_path("b/c.md").unwrap(),
    ];
    assert_eq!(render_ids(&ids), "  - a\n  - b/c\n");
}

#[test]
fn instructions_mention_every_tool() {
    for tool in ["search", "list", "read", "related", "trust"] {
        assert!(INSTRUCTIONS.contains(tool), "instructions should mention {tool}");
    }
}

#[test]
fn search_answers_are_exact() {
    let server = server();
    let found = server.search(&SearchRequest {
        query: "Customer ORDERS".to_owned(),
        limit: None,
    });
    assert!(!found.is_error);
    assert_eq!(
        found.text,
        "1 concept(s) matching \"Customer ORDERS\":\n\n- tables/orders [BigQuery Table] Customer Orders\n  One row per completed order.\n"
    );
    let missing = server.search(&SearchRequest {
        query: "say \"hi\"".to_owned(),
        limit: None,
    });
    assert_eq!(missing.text, "No concepts match \"say \\\"hi\\\"\".");
}

#[test]
fn not_found_lists_known_concepts() {
    let server = server();
    let reply = server.not_found("nope");
    assert!(reply.is_error);
    assert_eq!(
        reply.text,
        "No concept `nope` in this bundle. Known concepts include:\n  - tables/broken\n  - tables/customers\n  - tables/orders\n"
    );
}

#[test]
fn related_answers_are_exact() {
    let server = server();
    let reply = server.related(&ConceptRequest {
        id: "tables/orders".to_owned(),
    });
    assert_eq!(
        reply.text,
        "tables/orders\n\nLinks to:\n  - tables/customers\n\nLinked from:\n  - index\n"
    );
}

#[test]
fn resources_are_listed_with_uris_and_titles() {
    let server = server();
    let resources = server.resources();
    assert_eq!(
        resources,
        vec![
            ("okf://tables/broken".to_owned(), "broken".to_owned()),
            ("okf://tables/customers".to_owned(), "Customers".to_owned()),
            ("okf://tables/orders".to_owned(), "Customer Orders".to_owned()),
        ]
    );
    let text = server.read_resource("okf://tables/customers").expect("found");
    assert!(text.starts_with("# tables/customers\n\ntype: BigQuery Table\ntitle: Customers\n"));
    assert!(server.read_resource("okf://nope").is_none());
    assert!(server.read_resource("okf://index").is_none());
}

#[test]
fn list_lowercases_unicode_types() {
    let bundle = Bundle::from_sources(&[("a.md", "---\ntype: ÉTUDE\n---\n")]);
    let server = OkfServer::new(bundle, Date::parse("2026-06-01").expect("valid"));
    let reply = server.list(&ListRequest {
        concept_type: Some("étude".to_owned()),
    });
    assert!(reply.text.starts_with("1 concept(s):\n\n- a [ÉTUDE] a\n"));
}
