# okft

Validate, lint, and serve Open Knowledge Format (OKF) v0.2 bundles, with the
logic verified by Verus.

- `src/` is the verified library: concept IDs, dates and timestamps, YAML
  frontmatter and markdown bodies, the link graph of a bundle, the three
  conformance rules and the advisory lint rules, severity overrides, every
  report format (human, GitHub, and the JSON and SARIF documents), the rule
  list, the answers an MCP server gives agents, the graph a browser viewer
  draws and its JSON data, and the viewer page itself. Every public
  function states what it returns in its `ensures`, over spec functions of
  plain values; the laws that tie functions together are public proof
  functions (`lemma_*`).
- The calls into `saphyr` (YAML), `pulldown-cmark` (markdown events),
  `serde_json` (printing a JSON document built here), `str::to_lowercase`,
  `str`'s `Debug` and the system clock are the trusted
  boundary: each is a small `#[verifier::external_body]` wrapper whose
  contract names or bounds its result.
- `app/` is the `okf` program: argument parsing with `clap`, reading a
  bundle from disk with `ignore`, and the MCP (`rmcp`) and HTTP (`axum`,
  `tokio`) servers.
- `tests/` exercises the library on concrete bundles.

The web viewer reads its page template, script, styles and the Cytoscape and
Marked libraries from the directory named by `OKF_VIEWER_ASSETS`, or from
`assets` beside the program.
