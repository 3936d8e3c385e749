use okft::concept_id::ConceptId;

fn id(path: &str) -> ConceptId {
    ConceptId::from_relative_path(path).expect("valid id")
}

#[test]
fn strips_the_md_suffix() {
    assert_eq!(id("tables/orders.md").as_str(), "tables/orders");
    assert_eq!(id("index.md").as_str(), "index");
}

#[test]
fn keeps_paths_without_an_extension() {
    assert_eq!(id("tables/orders").as_str(), "tables/orders");
}

#[test]
fn normalises_separators_to_slashes() {
    let path: std::path::PathBuf = ["a", "b", "c.md"].iter().collect();
    assert_eq!(id(path.to_str().expect("utf-8")).as_str(), "a/b/c");
}

#[test]
fn ignores_current_directory_components() {
    assert_eq!(id("./tables/orders.md").as_str(), "tables/orders");
}

#[test]
fn rejects_paths_that_escape_the_bundle() {
    assert!(ConceptId::from_relative_path("../outside.md").is_none());
    assert!(ConceptId::from_relative_path("/absolute.md").is_none());
}

#[test]
fn rejects_empty_ids() {
    assert!(ConceptId::from_relative_path("").is_none());
    assert!(ConceptId::from_relative_path(".md").is_none());
}

#[test]
fn exposes_name_and_parent() {
    let nested = id("a/b/c.md");
    assert_eq!(nested.name(), "c");
    assert_eq!(nested.parent(), Some("a/b"));

    let root = id("top.md");
    assert_eq!(root.name(), "top");
    assert_eq!(root.parent(), None);
}

#[test]
fn round_trips_to_a_relative_path() {
    let original = id("tables/orders.md");
    let path = original.to_relative_path();
    assert_eq!(
        std::path::Path::new(&path),
        std::path::Path::new("tables").join("orders.md")
    );
    assert_eq!(
        ConceptId::from_relative_path(&path).expect("round trip"),
        original
    );
}

#[test]
fn displays_as_the_bare_id() {
    assert_eq!(id("metrics/revenue.md").to_string(), "metrics/revenue");
}

#[test]
fn ids_sort_and_hash() {
    let mut ids = vec![id("b.md"), id("a.md")];
    ids.sort();
    assert_eq!(ids, [id("a.md"), id("b.md")]);

    let set: std::collections::HashSet<_> = ids.iter().cloned().collect();
    assert!(set.contains(&id("a.md")));
}

#[test]
fn relative_path_appends_md_to_the_whole_id() {
    assert_eq!(id("notes/v1.2").to_relative_path(), "notes/v1.2.md");
    assert_eq!(id(&id("notes/v1.2").to_relative_path()), id("notes/v1.2"));
    assert_eq!(id("notes/.hidden").to_relative_path(), "notes/.hidden.md");
}
