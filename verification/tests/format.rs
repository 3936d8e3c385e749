use okft::diagnostic::Diagnostic;
use okft::format::{escape_workflow_data, sarif_level, Format, Report};
use okft::diagnostic::Severity;
use okft::span::{Position, Span};

fn report() -> Report {
    Report {
        bundle: "./knowledge".to_owned(),
        diagnostics: vec![
            Diagnostic::new(
                "okf-type",
                "a.md",
                "frontmatter is missing the required `type` field",
            )
            .with_span(Span::at(Position::new(2, 1)))
            .with_help("every concept needs a `type`"),
            Diagnostic::new("broken-link", "a.md", "link target `/gone.md` does not exist")
                .with_span(Span::at(Position::new(7, 5))),
            Diagnostic::new("orphan-concept", "b.md", "no concept links to `b`"),
        ],
    }
}

fn empty_report() -> Report {
    Report {
        bundle: "./knowledge".to_owned(),
        diagnostics: Vec::new(),
    }
}

#[test]
fn counts_by_severity() {
    let report = report();
    assert_eq!(report.errors(), 1);
    assert_eq!(report.warnings(), 1);
    assert_eq!(report.infos(), 1);
}

#[test]
fn human_output_says_so_when_clean() {
    assert_eq!(empty_report().render_human(), "./knowledge: no findings\n");
}

#[test]
fn workflow_data_is_escaped() {
    assert_eq!(escape_workflow_data("100% done"), "100%25 done");
    assert_eq!(escape_workflow_data("a\nb"), "a%0Ab");
    assert_eq!(escape_workflow_data("a\r\nb"), "a%0D%0Ab");
    assert_eq!(escape_workflow_data("plain"), "plain");
}

#[test]
fn github_annotations_omit_position_when_absent() {
    let rendered = Report {
        bundle: "b".to_owned(),
        diagnostics: vec![Diagnostic::new("orphan-concept", "b.md", "no links")],
    }
    .render_github();
    assert_eq!(rendered, "::notice file=b.md,title=orphan-concept::no links\n");
}

#[test]
fn human_output_groups_by_file() {
    let expected = "a.md\n    2  error okf-type  frontmatter is missing the required `type` field\n         help: every concept needs a `type`\n    7  warning broken-link  link target `/gone.md` does not exist\n\nb.md\n       info orphan-concept  no concept links to `b`\n\n1 error(s), 1 warning(s), 1 info(s)\n";
    assert_eq!(report().render_human(), expected);
}

#[test]
fn github_output_lists_positions_and_levels() {
    let expected = "::error file=a.md,line=2,col=1,title=okf-type::frontmatter is missing the required `type` field\n::warning file=a.md,line=7,col=5,title=broken-link::link target `/gone.md` does not exist\n::notice file=b.md,title=orphan-concept::no concept links to `b`\n";
    assert_eq!(report().render_github(), expected);
}

#[test]
fn counts_add_up_to_the_number_of_findings() {
    let report = report();
    assert_eq!(
        report.errors() + report.warnings() + report.infos(),
        report.diagnostics.len()
    );
}

#[test]
fn github_output_is_stable() {
    let expected = "::error file=a.md,line=2,col=1,title=okf-type::frontmatter is missing the required `type` field\n::warning file=a.md,line=7,col=5,title=broken-link::link target `/gone.md` does not exist\n::notice file=b.md,title=orphan-concept::no concept links to `b`\n";
    assert_eq!(report().render(Format::Github, "0.1.0"), expected);
}

#[test]
fn empty_reports_render_in_every_format() {
    let report = empty_report();
    assert!(report.render(Format::Github, "0.1.0").is_empty());
    for format in [Format::Json, Format::Sarif] {
        let parsed: serde_json::Value =
            serde_json::from_str(&report.render(format, "0.1.0")).expect("valid JSON");
        assert!(parsed.is_object());
    }
}

#[test]
fn json_output_is_stable() {
    let expected = r#"{
  "bundle": "./knowledge",
  "diagnostics": [
    {
      "code": "okf-type",
      "column": 1,
      "help": "every concept needs a `type`",
      "line": 2,
      "message": "frontmatter is missing the required `type` field",
      "path": "a.md",
      "severity": "error"
    },
    {
      "code": "broken-link",
      "column": 5,
      "help": null,
      "line": 7,
      "message": "link target `/gone.md` does not exist",
      "path": "a.md",
      "severity": "warning"
    },
    {
      "code": "orphan-concept",
      "column": null,
      "help": null,
      "line": null,
      "message": "no concept links to `b`",
      "path": "b.md",
      "severity": "info"
    }
  ],
  "summary": {
    "errors": 1,
    "infos": 1,
    "warnings": 1
  }
}
"#;
    assert_eq!(report().render(Format::Json, "0.1.0"), expected);
    assert_eq!(report().render_json(), expected);
}

#[test]
fn sarif_output_is_valid_and_stable() {
    let rendered = report().render(Format::Sarif, "0.1.0");
    let parsed: serde_json::Value = serde_json::from_str(&rendered).expect("valid JSON");
    assert_eq!(parsed["version"], "2.1.0");
    assert_eq!(
        parsed["runs"][0]["results"]
            .as_array()
            .expect("results")
            .len(),
        3
    );
    assert_eq!(
        parsed["runs"][0]["tool"]["driver"]["rules"]
            .as_array()
            .expect("rules")
            .len(),
        okft::diagnostic::rules().len()
    );
    assert_eq!(
        parsed["runs"][0]["results"][2]["locations"][0]["physicalLocation"]["region"],
        serde_json::Value::Null
    );
}

#[test]
fn sarif_results_carry_level_location_and_version() {
    let parsed: serde_json::Value =
        serde_json::from_str(&report().render_sarif("9.8.7")).expect("valid JSON");
    assert_eq!(parsed["$schema"], "https://json.schemastore.org/sarif-2.1.0.json");
    let driver = &parsed["runs"][0]["tool"]["driver"];
    assert_eq!(driver["name"], "okft");
    assert_eq!(driver["version"], "9.8.7");
    assert_eq!(driver["rules"][0]["id"], "okf-parse");
    assert_eq!(driver["rules"][0]["properties"]["specSection"], "§11.1");
    let first = &parsed["runs"][0]["results"][0];
    assert_eq!(first["ruleId"], "okf-type");
    assert_eq!(first["level"], "error");
    assert_eq!(first["message"]["text"], "frontmatter is missing the required `type` field");
    let place = &first["locations"][0]["physicalLocation"];
    assert_eq!(place["artifactLocation"]["uri"], "a.md");
    assert_eq!(place["region"]["startLine"], 2);
    assert_eq!(place["region"]["startColumn"], 1);
    assert_eq!(parsed["runs"][0]["results"][2]["level"], "note");
    assert!(rendered_ends_with_newline(&report().render_sarif("9.8.7")));
}

fn rendered_ends_with_newline(text: &str) -> bool {
    text.ends_with("}\n")
}

#[test]
fn human_output_gathers_each_file_under_one_header() {
    let report = Report {
        bundle: "k".to_owned(),
        diagnostics: vec![
            Diagnostic::new("orphan-concept", "a.md", "first"),
            Diagnostic::new("orphan-concept", "b.md", "second"),
            Diagnostic::new("orphan-concept", "a.md", "third"),
        ],
    };
    let expected = "a.md\n       info orphan-concept  first\n       info orphan-concept  third\n\nb.md\n       info orphan-concept  second\n\n0 error(s), 0 warning(s), 3 info(s)\n";
    assert_eq!(report.render(Format::Human, "0.1.0"), expected);
}

#[test]
fn sarif_levels_follow_severity() {
    assert_eq!(sarif_level(Severity::Error), "error");
    assert_eq!(sarif_level(Severity::Warning), "warning");
    assert_eq!(sarif_level(Severity::Info), "note");
}
