use okft::bundle::{Bundle, Entry, EntryKind, LoadError, RESERVED_FILENAMES};
use okft::concept_id::ConceptId;

fn id(path: &str) -> ConceptId {
    ConceptId::from_relative_path(path).expect("valid id")
}

fn sample() -> Bundle {
    Bundle::from_sources(&[
        (
            "index.md",
            "# Subdirectories\n\n* [tables](tables/index.md)\n",
        ),
        ("log.md", "# History\n\n## 2026-01-01\n\n- **Created**\n"),
        (
            "tables/orders.md",
            "---\ntype: BigQuery Table\n---\n\nJoins [customers](/tables/customers.md).\n",
        ),
        (
            "tables/customers.md",
            "---\ntype: BigQuery Table\n---\n\nNo links.\n",
        ),
        ("tables/index.md", "# Tables\n\n* [orders](orders.md)\n"),
        ("attesters/check.py", "print('not markdown')\n"),
    ])
}

#[test]
fn classifies_reserved_filenames() {
    let bundle = sample();
    assert_eq!(
        bundle.get(&id("index.md")).expect("index").kind,
        EntryKind::Index
    );
    assert_eq!(bundle.get(&id("log.md")).expect("log").kind, EntryKind::Log);
    assert_eq!(
        bundle.get(&id("tables/orders.md")).expect("orders").kind,
        EntryKind::Concept
    );
    assert_eq!(RESERVED_FILENAMES, ["index.md", "log.md"]);
}

#[test]
fn concepts_exclude_reserved_files() {
    let bundle = sample();
    let concepts: Vec<_> = bundle
        .concepts()
        .iter()
        .map(|e| e.id.to_string())
        .collect();
    assert_eq!(concepts, ["tables/customers", "tables/orders"]);
    assert_eq!(bundle.entries().len(), 5);
    assert_eq!(bundle.len(), 5);
    assert!(!bundle.is_empty());
}

#[test]
fn resolves_the_link_graph_in_both_directions() {
    let bundle = sample();
    assert_eq!(
        bundle.links_from(&id("tables/orders.md")),
        [id("tables/customers.md")]
    );
    assert_eq!(
        bundle.backlinks(&id("tables/customers.md")),
        [id("tables/orders.md")]
    );
    assert!(bundle
        .backlinks(&id("tables/orders.md"))
        .contains(&id("tables/index.md")));
}

#[test]
fn links_from_deduplicates_repeated_targets() {
    let bundle = Bundle::from_sources(&[(
        "a.md",
        "---\ntype: X\n---\n[one](/b.md) and [again](/b.md) and [c](/c.md)\n",
    )]);
    assert_eq!(bundle.links_from(&id("a.md")), [id("b.md"), id("c.md")]);
}

#[test]
fn links_from_an_unknown_concept_is_empty() {
    assert!(sample().links_from(&id("nope.md")).is_empty());
}

#[test]
fn tracks_non_markdown_assets_for_path_fields() {
    let bundle = sample();
    assert!(bundle.contains_path("attesters/check.py"));
    assert!(bundle.contains_path("/attesters/check.py"));
    assert!(bundle.contains_path("tables/orders.md"));
    assert!(!bundle.contains_path("attesters/missing.py"));
    assert!(!bundle.contains_path(""));
}

#[test]
fn lists_directories_including_ancestors_and_root() {
    let bundle = Bundle::from_sources(&[
        ("a/b/c/deep.md", "---\ntype: X\n---\n"),
        ("top.md", "---\ntype: X\n---\n"),
    ]);
    let directories = bundle.directories();
    assert!(directories.contains(&String::new()));
    assert!(directories.contains(&"a".to_string()));
    assert!(directories.contains(&"a/b".to_string()));
    assert!(directories.contains(&"a/b/c".to_string()));
}

#[test]
fn entry_reports_its_directory() {
    let bundle = sample();
    assert_eq!(
        bundle.get(&id("tables/orders.md")).expect("e").directory(),
        "tables"
    );
    assert_eq!(bundle.get(&id("index.md")).expect("e").directory(), "");
}

#[test]
fn from_source_rejects_paths_outside_the_bundle() {
    assert!(Entry::from_source("../escape.md", "").is_none());
    assert!(Entry::from_source("", "").is_none());
}

#[test]
fn markdown_paths_that_escape_the_bundle_are_skipped() {
    let bundle = Bundle::from_sources(&[
        ("../escape.md", "---\ntype: X\n---\n"),
        ("kept.md", "---\ntype: X\n---\n"),
    ]);
    assert_eq!(bundle.len(), 1);
    assert!(bundle.contains(&id("kept.md")));
}

#[test]
fn contains_and_get_agree() {
    let bundle = sample();
    assert!(bundle.contains(&id("tables/orders.md")));
    assert!(!bundle.contains(&id("tables/missing.md")));
    assert!(bundle.get(&id("tables/missing.md")).is_none());
}

#[test]
fn an_empty_bundle_has_no_entries() {
    let bundle = Bundle::default();
    assert!(bundle.is_empty());
    assert_eq!(bundle.len(), 0);
    assert_eq!(bundle.root(), "");
    assert_eq!(bundle.directories(), vec![String::new()]);
}

#[test]
fn directories_are_sorted_and_distinct() {
    let bundle = Bundle::from_sources(&[
        ("z/one.md", "---\ntype: X\n---\n"),
        ("a/b/two.md", "---\ntype: X\n---\n"),
        ("a/three.md", "---\ntype: X\n---\n"),
    ]);
    assert_eq!(
        bundle.directories(),
        vec![
            String::new(),
            "a".to_string(),
            "a/b".to_string(),
            "z".to_string()
        ]
    );
}

#[test]
fn a_later_source_for_the_same_id_replaces_the_earlier() {
    let bundle = Bundle::from_sources(&[
        ("a.md", "---\ntype: First\n---\n"),
        ("a.md", "---\ntype: Second\n---\n[b](b.md)\n"),
    ]);
    assert_eq!(bundle.len(), 1);
    assert_eq!(bundle.links_from(&id("a.md")), [id("b.md")]);
}

#[test]
fn at_root_remembers_the_root() {
    let mut bundle = Bundle::at_root("/srv/knowledge");
    assert_eq!(bundle.root(), "/srv/knowledge");
    bundle.insert("notes/a.md", "---\ntype: X\n---\n");
    bundle.insert("notes/data.csv", "a,b\n");
    assert_eq!(bundle.len(), 1);
    assert!(bundle.contains_path("notes/data.csv"));
    assert_eq!(bundle.root(), "/srv/knowledge");
}

#[test]
fn load_errors_read_as_messages() {
    assert_eq!(
        LoadError::NotADirectory("kb/file.md".to_string()).to_string(),
        "kb/file.md is not a directory"
    );
    let error = LoadError::Io {
        path: "kb/bad.md".to_string(),
        reason: "stream did not contain valid UTF-8".to_string(),
    };
    assert!(error.to_string().starts_with("cannot read"));
    assert_eq!(
        error.to_string(),
        "cannot read kb/bad.md: stream did not contain valid UTF-8"
    );
}

#[test]
fn backlinks_mirror_links() {
    let bundle = Bundle::from_sources(&[
        ("a.md", "---\ntype: X\n---\n[b](/b.md) [c](c.md)\n"),
        ("b.md", "---\ntype: X\n---\n[a](/a.md)\n"),
        ("c.md", "---\ntype: X\n---\n"),
    ]);
    for from in ["a.md", "b.md", "c.md"] {
        for to in ["a.md", "b.md", "c.md"] {
            if from == to {
                continue;
            }
            let forward = bundle.links_from(&id(from)).contains(&id(to));
            let backward = bundle.backlinks(&id(to)).contains(&id(from));
            assert_eq!(forward, backward, "{from} -> {to}");
        }
    }
}
