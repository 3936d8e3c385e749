use okft::viewer::{PageParts, Viewer};

const TEMPLATE: &str = "<style>/*__VIZ_CSS__*/</style>\
<script>/*__CYTOSCAPE_JS__*/</script><script>/*__MARKED_JS__*/</script>\
<script>const NAME = __BUNDLE_NAME__; const DATA = __BUNDLE_DATA__;</script>\
<script>/*__VIZ_JS__*/</script>";

fn parts<'a>(name: &'a str, data: &'a str) -> PageParts<'a> {
    PageParts {
        template: TEMPLATE,
        cytoscape_js: "cy()",
        marked_js: "md()",
        viewer_css: "body{}",
        viewer_js: "draw(DATA)",
        bundle_name: name,
        bundle_data: data,
    }
}

#[test]
fn every_placeholder_is_substituted_in_a_small_page() {
    let viewer = Viewer::assemble(&parts("\"kb\"", "{\"nodes\":[]}"));
    let html = viewer.html();
    assert!(!html.contains("__"), "{html}");
    assert_eq!(
        html,
        "<style>body{}</style><script>cy()</script><script>md()</script>\
<script>const NAME = \"kb\"; const DATA = {\"nodes\":[]};</script><script>draw(DATA)</script>"
    );
}

#[test]
fn the_data_is_inlined_after_the_libraries() {
    // A library that happens to contain a later placeholder has it filled in
    // too, because the name and data are substituted last.
    let mut p = parts("\"kb\"", "[1,2]");
    p.cytoscape_js = "x = __BUNDLE_DATA__";
    let viewer = Viewer::assemble(&p);
    assert!(viewer.html().contains("<script>x = [1,2]</script>"));
}

#[test]
fn repeated_placeholders_are_all_replaced() {
    let p = PageParts {
        template: "__BUNDLE_NAME__/__BUNDLE_NAME__",
        cytoscape_js: "",
        marked_js: "",
        viewer_css: "",
        viewer_js: "",
        bundle_name: "n",
        bundle_data: "",
    };
    assert_eq!(Viewer::assemble(&p).html(), "n/n");
}
